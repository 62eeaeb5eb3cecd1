//! What the rows of a result say of the matches, and what the columns say of the rows.

use vstd::prelude::*;

use super::bindings::BindingView;
use super::nfa::{CompletionView, PartialView};
use super::output::{RowView, binding_rank, bracket_steps, bracketed_completion, bracketed_partial,
    completion_steps, completions_expanded, output_rows, partial_steps, partials_expanded,
    prefix_max, running_max, shows, track_rows};
use super::pattern::BracketSpec;
use crate::columnar::{BatchView, CellView};
use crate::schema::{BqlType, ColumnView};

verus! {

/// Whether the time that every match took fits into a cell.
pub open spec fn all_measurable(completions: Seq<CompletionView>) -> bool {
    forall|i: int|
        0 <= i < completions.len() ==> i64::MIN <= (#[trigger] completions[i]).final_ts
            - completions[i].anchor_ts <= i64::MAX
}

/// Whether a row shows that a match took from its first to its last step.
pub open spec fn tells_time(row: RowView, c: CompletionView) -> bool {
    row.match_duration matches Some(d) && d as int == c.final_ts - c.anchor_ts
}

/// Without brackets the rows are the completed matches in their order, each with the
/// time from its first to its last step, the number of steps and its bound values;
/// and behind them, where they are wanted, the unfinished matches in their order, each
/// without a time, with the step it reached and its bound values.
pub proof fn theorem_plain_rows(
    completions: Seq<CompletionView>,
    partials: Seq<PartialView>,
    emit_all: bool,
    num_steps: u8,
)
    requires
        all_measurable(completions),
    ensures
        ({
            let rows = output_rows(completions, partials, emit_all, num_steps, None);
            let n = completions.len() as int;
            &&& rows.len() == n + (if emit_all {
                partials.len() as int
            } else {
                0
            })
            &&& forall|i: int|
                0 <= i < n ==> {
                    &&& tells_time(#[trigger] rows[i], completions[i])
                    &&& rows[i].step_reached == num_steps
                    &&& rows[i].bindings == completions[i].bindings
                    &&& rows[i].bracket_idx is None
                    &&& rows[i].bracket_end is None
                }
            &&& forall|i: int|
                n <= i < rows.len() ==> {
                    &&& (#[trigger] rows[i]).match_duration is None
                    &&& rows[i].step_reached == partials[i - n].step_reached
                    &&& rows[i].bindings == partials[i - n].bindings
                    &&& rows[i].bracket_idx is None
                    &&& rows[i].bracket_end is None
                }
        }),
{
    let rows = output_rows(completions, partials, emit_all, num_steps, None);
    assert forall|i: int| 0 <= i < completions.len() implies tells_time(
        #[trigger] rows[i],
        completions[i],
    ) by {
        let c = completions[i];
        assert(i64::MIN <= c.final_ts - c.anchor_ts <= i64::MAX);
    }
}

/// Whether a stretch of time after the first step ends in a bracket: the first bracket
/// begins with the first step, every other one right after the end of the one before.
pub open spec fn ends_in(ends: Seq<i64>, took: int, b: int) -> bool {
    &&& took <= ends[b]
    &&& if b == 0 {
        0 <= took
    } else {
        ends[b - 1] < took
    }
}

/// The step that a completed match reached in a bracket taken alone.
pub open spec fn alone(ends: Seq<i64>, took: int, num_steps: int, b: int) -> int {
    if ends_in(ends, took, b) {
        num_steps
    } else if b == 0 {
        1
    } else {
        0
    }
}

/// The step that an unfinished match reached in a bracket taken alone. Of its steps
/// only the first has a known time.
pub open spec fn alone_unfinished(step_reached: int, b: int) -> int {
    if b == 0 && step_reached > 0 {
        1
    } else {
        0
    }
}

/// Whether a value is the largest that a function takes on `0..=b`.
pub open spec fn is_largest(f: spec_fn(int) -> int, b: int, value: int) -> bool {
    &&& exists|a: int| 0 <= a <= b && #[trigger] f(a) == value
    &&& forall|a: int| 0 <= a <= b ==> #[trigger] f(a) <= value
}

/// Whether a row is about a bracket.
pub open spec fn is_about(row: RowView, ends: Seq<i64>, b: int) -> bool {
    &&& row.bracket_idx matches Some(k) && k as int == b
    &&& row.bracket_end == Some(ends[b])
}

/// Whether a step is the one shown for a bracket: the one reached in it alone, or, where
/// brackets are cumulative, the largest one reached up to its end.
pub open spec fn is_shown_step(
    cumulative: bool,
    f: spec_fn(int) -> int,
    b: int,
    step: int,
) -> bool {
    if cumulative {
        is_largest(f, b, step)
    } else {
        step == f(b)
    }
}

proof fn lemma_running(steps: Seq<u8>, n: int, f: spec_fn(int) -> int)
    requires
        0 < n <= steps.len(),
        forall|a: int| 0 <= a < steps.len() ==> steps[a] as int == #[trigger] f(a),
    ensures
        is_largest(f, n - 1, running_max(steps, n) as int),
    decreases n,
{
    if n > 1 {
        lemma_running(steps, n - 1, f);
        let before = running_max(steps, n - 1) as int;
        let a = choose|a: int| 0 <= a <= n - 2 && #[trigger] f(a) == before;
        assert(f(a) == before);
        assert(steps[n - 1] as int == f(n - 1));
    } else {
        assert(running_max(steps, 0) == 0);
        assert(steps[0] as int == f(0));
    }
}

proof fn lemma_shown(cumulative: bool, steps: Seq<u8>, f: spec_fn(int) -> int, b: int)
    requires
        0 <= b < steps.len(),
        forall|a: int| 0 <= a < steps.len() ==> steps[a] as int == #[trigger] f(a),
    ensures
        bracket_steps(cumulative, steps).len() == steps.len(),
        is_shown_step(cumulative, f, b, bracket_steps(cumulative, steps)[b] as int),
{
    lemma_running(steps, b + 1, f);
    assert(prefix_max(steps)[b] == running_max(steps, b + 1));
    assert(steps[b] as int == f(b));
}

proof fn lemma_all_tracked(
    steps: Seq<u8>,
    ends: Seq<i64>,
    duration: Option<i64>,
    num_steps: u8,
    bindings: Seq<BindingView>,
    n: int,
)
    requires
        0 <= n <= steps.len(),
        steps.len() == ends.len() <= i64::MAX,
    ensures
        track_rows(steps, ends, duration, num_steps, bindings, true, n).len() == n,
        forall|b: int|
            0 <= b < n ==> {
                let row = #[trigger] track_rows(
                    steps,
                    ends,
                    duration,
                    num_steps,
                    bindings,
                    true,
                    n,
                )[b];
                &&& row.match_duration == duration
                &&& row.step_reached == steps[b]
                &&& row.bindings == bindings
                &&& is_about(row, ends, b)
            },
    decreases n,
{
    if n > 0 {
        lemma_all_tracked(steps, ends, duration, num_steps, bindings, n - 1);
    }
}

/// Whether a row shows what a completed match reached in bracket `b`.
pub open spec fn shows_completed(
    row: RowView,
    c: CompletionView,
    num_steps: u8,
    spec: BracketSpec,
    b: int,
) -> bool {
    let took = c.final_ts - c.anchor_ts;
    &&& tells_time(row, c)
    &&& row.bindings == c.bindings
    &&& is_about(row, spec.durations@, b)
    &&& is_shown_step(
        spec.cumulative,
        |a: int| alone(spec.durations@, took, num_steps as int, a),
        b,
        row.step_reached as int,
    )
}

/// Whether a row shows what an unfinished match reached in bracket `b`.
pub open spec fn shows_unfinished(row: RowView, p: PartialView, spec: BracketSpec, b: int) -> bool {
    &&& row.match_duration is None
    &&& row.bindings == p.bindings
    &&& is_about(row, spec.durations@, b)
    &&& is_shown_step(
        spec.cumulative,
        |a: int| alone_unfinished(p.step_reached as int, a),
        b,
        row.step_reached as int,
    )
}

proof fn lemma_completed(c: CompletionView, num_steps: u8, spec: BracketSpec)
    requires
        spec.durations@.len() <= i64::MAX,
        i64::MIN <= c.final_ts - c.anchor_ts <= i64::MAX,
    ensures
        ({
            let rows = bracketed_completion(
                c,
                true,
                num_steps,
                spec.durations@,
                spec.cumulative,
            );
            &&& rows.len() == spec.durations@.len()
            &&& forall|b: int|
                0 <= b < rows.len() ==> shows_completed(#[trigger] rows[b], c, num_steps, spec, b)
        }),
{
    let ends = spec.durations@;
    let took = c.final_ts - c.anchor_ts;
    let steps = completion_steps(took, num_steps, ends);
    let shown = bracket_steps(spec.cumulative, steps);
    let rows = bracketed_completion(c, true, num_steps, ends, spec.cumulative);
    lemma_all_tracked(
        shown,
        ends,
        Some(took as i64),
        num_steps,
        c.bindings,
        ends.len() as int,
    );
    let f = |a: int| alone(ends, took, num_steps as int, a);
    assert forall|b: int| 0 <= b < rows.len() implies shows_completed(
        #[trigger] rows[b],
        c,
        num_steps,
        spec,
        b,
    ) by {
        assert forall|a: int| 0 <= a < steps.len() implies steps[a] as int == #[trigger] f(a) by {}
        lemma_shown(spec.cumulative, steps, f, b);
    }
}

proof fn lemma_unfinished(p: PartialView, num_steps: u8, spec: BracketSpec)
    requires
        spec.durations@.len() <= i64::MAX,
    ensures
        ({
            let rows = bracketed_partial(p, num_steps, spec.durations@, spec.cumulative);
            &&& rows.len() == spec.durations@.len()
            &&& forall|b: int|
                0 <= b < rows.len() ==> shows_unfinished(#[trigger] rows[b], p, spec, b)
        }),
{
    let ends = spec.durations@;
    let steps = partial_steps(p.step_reached, ends.len());
    let shown = bracket_steps(spec.cumulative, steps);
    let rows = bracketed_partial(p, num_steps, ends, spec.cumulative);
    lemma_all_tracked(shown, ends, None, num_steps, p.bindings, ends.len() as int);
    let f = |a: int| alone_unfinished(p.step_reached as int, a);
    assert forall|b: int| 0 <= b < rows.len() implies shows_unfinished(
        #[trigger] rows[b],
        p,
        spec,
        b,
    ) by {
        assert forall|a: int| 0 <= a < steps.len() implies steps[a] as int == #[trigger] f(a) by {}
        lemma_shown(spec.cumulative, steps, f, b);
    }
}

/// The place of the row for bracket `b` of match `m`, where every match has `n` rows.
pub open spec fn place(m: int, n: nat, b: int) -> int {
    m * n + b
}

proof fn lemma_place(m: int, k: int, n: nat, b: int)
    requires
        0 <= m < k,
        0 <= b < n,
    ensures
        0 <= place(m, n, b) < k * n,
        m == k - 1 ==> place(m, n, b) == (k - 1) * n + b,
        m < k - 1 ==> place(m, n, b) < (k - 1) * n,
        k * n == (k - 1) * n + n,
{
    assert(0 <= m * n + b < k * n && (m < k - 1 ==> m * n + b < (k - 1) * n) && k * n == (k - 1) * n
        + n) by (nonlinear_arith)
        requires
            0 <= m < k,
            0 <= b < n,
    ;
}

proof fn lemma_completions_placed(
    completions: Seq<CompletionView>,
    num_steps: u8,
    spec: BracketSpec,
    k: int,
)
    requires
        spec.durations@.len() <= i64::MAX,
        all_measurable(completions),
        0 <= k <= completions.len(),
    ensures
        ({
            let n = spec.durations@.len();
            let rows = completions_expanded(
                completions,
                true,
                num_steps,
                spec.durations@,
                spec.cumulative,
                k,
            );
            &&& rows.len() == k * n
            &&& forall|m: int, b: int|
                0 <= m < k && 0 <= b < n ==> shows_completed(
                    rows[#[trigger] place(m, n, b)],
                    completions[m],
                    num_steps,
                    spec,
                    b,
                )
        }),
    decreases k,
{
    let n = spec.durations@.len();
    let rows = completions_expanded(
        completions,
        true,
        num_steps,
        spec.durations@,
        spec.cumulative,
        k,
    );
    if k > 0 {
        lemma_completions_placed(completions, num_steps, spec, k - 1);
        lemma_completed(completions[k - 1], num_steps, spec);
        assert(k * n == (k - 1) * n + n) by (nonlinear_arith);
        assert forall|m: int, b: int| 0 <= m < k && 0 <= b < n implies shows_completed(
            rows[#[trigger] place(m, n, b)],
            completions[m],
            num_steps,
            spec,
            b,
        ) by {
            lemma_place(m, k, n, b);
            if m == k - 1 {
                let last = bracketed_completion(
                    completions[k - 1],
                    true,
                    num_steps,
                    spec.durations@,
                    spec.cumulative,
                );
                assert(rows[place(m, n, b)] == last[b]);
            }
        }
    } else {
        assert(0 * n == 0) by (nonlinear_arith);
    }
}

proof fn lemma_partials_placed(
    partials: Seq<PartialView>,
    num_steps: u8,
    spec: BracketSpec,
    k: int,
)
    requires
        spec.durations@.len() <= i64::MAX,
        0 <= k <= partials.len(),
    ensures
        ({
            let n = spec.durations@.len();
            let rows = partials_expanded(
                partials,
                num_steps,
                spec.durations@,
                spec.cumulative,
                k,
            );
            &&& rows.len() == k * n
            &&& forall|m: int, b: int|
                0 <= m < k && 0 <= b < n ==> shows_unfinished(
                    rows[#[trigger] place(m, n, b)],
                    partials[m],
                    spec,
                    b,
                )
        }),
    decreases k,
{
    let n = spec.durations@.len();
    let rows = partials_expanded(partials, num_steps, spec.durations@, spec.cumulative, k);
    if k > 0 {
        lemma_partials_placed(partials, num_steps, spec, k - 1);
        lemma_unfinished(partials[k - 1], num_steps, spec);
        assert(k * n == (k - 1) * n + n) by (nonlinear_arith);
        assert forall|m: int, b: int| 0 <= m < k && 0 <= b < n implies shows_unfinished(
            rows[#[trigger] place(m, n, b)],
            partials[m],
            spec,
            b,
        ) by {
            lemma_place(m, k, n, b);
            if m == k - 1 {
                let last = bracketed_partial(
                    partials[k - 1],
                    num_steps,
                    spec.durations@,
                    spec.cumulative,
                );
                assert(rows[place(m, n, b)] == last[b]);
            }
        }
    } else {
        assert(0 * n == 0) by (nonlinear_arith);
    }
}

/// With brackets, where unfinished matches are wanted, every match has one row for each
/// bracket, completed matches first. A row shows the bracket, its end, the bound values,
/// for a completed match the time that it took, and the step reached: in the bracket
/// where the match completed the number of steps, else 1 in the first bracket and 0 in
/// the others, and the largest of these up to the bracket where brackets are cumulative.
pub proof fn theorem_bracket_rows(
    completions: Seq<CompletionView>,
    partials: Seq<PartialView>,
    num_steps: u8,
    spec: BracketSpec,
)
    requires
        all_measurable(completions),
        spec.durations@.len() <= i64::MAX,
    ensures
        ({
            let rows = output_rows(completions, partials, true, num_steps, Some(spec));
            let n = spec.durations@.len();
            let done = completions.len() * n;
            &&& rows.len() == done + partials.len() * n
            &&& forall|m: int, b: int|
                0 <= m < completions.len() && 0 <= b < n ==> shows_completed(
                    rows[#[trigger] place(m, n, b)],
                    completions[m],
                    num_steps,
                    spec,
                    b,
                )
            &&& forall|m: int, b: int|
                0 <= m < partials.len() && 0 <= b < n ==> shows_unfinished(
                    rows[done + #[trigger] place(m, n, b)],
                    partials[m],
                    spec,
                    b,
                )
        }),
{
    let rows = output_rows(completions, partials, true, num_steps, Some(spec));
    let n = spec.durations@.len();
    let done = completions.len() * n;
    lemma_completions_placed(completions, num_steps, spec, completions.len() as int);
    lemma_partials_placed(partials, num_steps, spec, partials.len() as int);
    assert forall|m: int, b: int| 0 <= m < completions.len() && 0 <= b < n implies shows_completed(
        rows[#[trigger] place(m, n, b)],
        completions[m],
        num_steps,
        spec,
        b,
    ) by {
        lemma_place(m, completions.len() as int, n, b);
    }
    assert forall|m: int, b: int| 0 <= m < partials.len() && 0 <= b < n implies shows_unfinished(
        rows[done + #[trigger] place(m, n, b)],
        partials[m],
        spec,
        b,
    ) by {
        lemma_place(m, partials.len() as int, n, b);
        let open = partials_expanded(
            partials,
            num_steps,
            spec.durations@,
            spec.cumulative,
            partials.len() as int,
        );
        assert(rows[done + place(m, n, b)] == open[place(m, n, b)]);
    }
}

/// Whether a row shows a complete match.
pub open spec fn is_complete_row(num_steps: u8) -> spec_fn(RowView) -> bool {
    |row: RowView| row.step_reached == num_steps
}

proof fn lemma_track_filtered(
    steps: Seq<u8>,
    ends: Seq<i64>,
    duration: Option<i64>,
    num_steps: u8,
    bindings: Seq<BindingView>,
    n: int,
)
    requires
        0 <= n <= steps.len(),
        steps.len() == ends.len(),
    ensures
        track_rows(steps, ends, duration, num_steps, bindings, false, n) == track_rows(
            steps,
            ends,
            duration,
            num_steps,
            bindings,
            true,
            n,
        ).filter(is_complete_row(num_steps)),
    decreases n,
{
    reveal(Seq::filter);
    if n > 0 {
        lemma_track_filtered(steps, ends, duration, num_steps, bindings, n - 1);
        let all = track_rows(steps, ends, duration, num_steps, bindings, true, n);
        assert(all.drop_last() =~= track_rows(
            steps,
            ends,
            duration,
            num_steps,
            bindings,
            true,
            n - 1,
        ));
    } else {
        assert(track_rows(steps, ends, duration, num_steps, bindings, false, n) =~= Seq::empty());
    }
}

proof fn lemma_expanded_filtered(
    completions: Seq<CompletionView>,
    num_steps: u8,
    spec: BracketSpec,
    k: int,
)
    requires
        0 <= k <= completions.len(),
    ensures
        completions_expanded(
            completions,
            false,
            num_steps,
            spec.durations@,
            spec.cumulative,
            k,
        ) == completions_expanded(
            completions,
            true,
            num_steps,
            spec.durations@,
            spec.cumulative,
            k,
        ).filter(is_complete_row(num_steps)),
    decreases k,
{
    let keep = is_complete_row(num_steps);
    let ends = spec.durations@;
    if k > 0 {
        lemma_expanded_filtered(completions, num_steps, spec, k - 1);
        let c = completions[k - 1];
        let before = completions_expanded(
            completions,
            true,
            num_steps,
            ends,
            spec.cumulative,
            k - 1,
        );
        let last = bracketed_completion(c, true, num_steps, ends, spec.cumulative);
        let d = super::output::duration_of(c);
        lemma_track_filtered(
            bracket_steps(spec.cumulative, completion_steps(d as int, num_steps, ends)),
            ends,
            Some(d),
            num_steps,
            c.bindings,
            ends.len() as int,
        );
        Seq::filter_distributes_over_add(before, last, keep);
    } else {
        reveal(Seq::filter);
    }
}

/// With brackets, where unfinished matches are not wanted, the rows are those of the
/// completed matches in which the match is complete.
pub proof fn theorem_complete_rows(
    completions: Seq<CompletionView>,
    partials: Seq<PartialView>,
    num_steps: u8,
    spec: BracketSpec,
)
    ensures
        output_rows(completions, partials, false, num_steps, Some(spec)) == output_rows(
            completions,
            Seq::empty(),
            true,
            num_steps,
            Some(spec),
        ).filter(|row: RowView| row.step_reached == num_steps),
{
    lemma_expanded_filtered(completions, num_steps, spec, completions.len() as int);
    assert(is_complete_row(num_steps) =~= (|row: RowView| row.step_reached == num_steps));
    let none = partials_expanded(
        Seq::empty(),
        num_steps,
        spec.durations@,
        spec.cumulative,
        0,
    );
    assert(output_rows(completions, Seq::empty(), true, num_steps, Some(spec))
        =~= completions_expanded(
        completions,
        true,
        num_steps,
        spec.durations@,
        spec.cumulative,
        completions.len() as int,
    ) + none);
    assert(none =~= Seq::empty());
}

/// Whether the name of a column is that of a pattern variable.
pub open spec fn names_variable(c: ColumnView) -> bool {
    c.name.len() > 0 && c.name[0] == '$'
}

/// The variable that a column shows: the number of variable columns before it.
pub open spec fn variable_of(columns: Seq<ColumnView>, i: int) -> int {
    columns.take(i).filter(|c: ColumnView| names_variable(c)).len() as int
}

proof fn lemma_rank(columns: Seq<ColumnView>, i: int)
    requires
        0 <= i <= columns.len(),
    ensures
        binding_rank(columns, i) == variable_of(columns, i),
    decreases i,
{
    reveal(Seq::filter);
    if i > 0 {
        lemma_rank(columns, i - 1);
        lemma_names(columns[i - 1]);
        assert(columns.take(i).drop_last() =~= columns.take(i - 1));
    }
}

proof fn lemma_names(c: ColumnView)
    ensures
        super::output::is_binding_name(c.name) == names_variable(c),
{
    reveal_strlit("$");
    if names_variable(c) {
        assert(c.name.take(1) =~= "$"@);
    }
    if super::output::is_binding_name(c.name) {
        assert(c.name.take(1)[0] == "$"@[0]);
    }
}

/// The number that a cell shows, if it shows one.
pub open spec fn number_cell(v: Option<i64>) -> Option<CellView> {
    match v {
        Some(n) => Some(CellView::Int(n)),
        None => None,
    }
}

/// Whether a cell shows the value bound to a variable.
pub open spec fn shows_value(cell: Option<CellView>, v: BindingView) -> bool {
    match v {
        BindingView::String(s) => cell == Some(CellView::Str(s)),
        BindingView::Int(n) => cell == Some(CellView::Int(n)),
        BindingView::Float(f) => cell == Some(CellView::Float(f)),
        BindingView::Bool(x) => cell == Some(CellView::Bool(x)),
        BindingView::Timestamp(t) => cell == Some(CellView::Time(t)),
    }
}

/// Whether a column has the type of a bound value.
pub open spec fn has_type_of(c: ColumnView, v: BindingView) -> bool {
    match v {
        BindingView::String(_) => c.bql_type == BqlType::String,
        BindingView::Int(_) => c.bql_type == BqlType::Int,
        BindingView::Float(_) => c.bql_type == BqlType::Float,
        BindingView::Bool(_) => c.bql_type == BqlType::Bool,
        BindingView::Timestamp(_) => c.bql_type == BqlType::Timestamp,
    }
}

/// A batch that shows rows has one row for each of them, and in a row the columns of
/// the fixed names show the time that the match took, the step reached, the bracket and
/// its end. The variable columns show the bound values, the first such column that of
/// the first variable and so on. Every column of another name is null but the entity id.
pub proof fn theorem_shown(b: BatchView, columns: Seq<ColumnView>, rows: Seq<RowView>, i: int, r: int)
    requires
        shows(b, columns, rows),
        0 <= i < columns.len(),
        0 <= r < rows.len(),
    ensures
        b.rows == rows.len(),
        b.columns.len() == columns.len(),
        b.columns[i].cells.len() == rows.len(),
        columns[i].name == "match_duration"@ ==> b.columns[i].cells[r] == number_cell(
            rows[r].match_duration,
        ),
        columns[i].name == "step_reached"@ ==> (b.columns[i].cells[r] matches Some(
            CellView::Int(n),
        ) && n as int == rows[r].step_reached as int),
        columns[i].name == "bracket"@ ==> b.columns[i].cells[r] == number_cell(rows[r].bracket_idx),
        columns[i].name == "bracket_end"@ ==> b.columns[i].cells[r] == number_cell(
            rows[r].bracket_end,
        ),
        names_variable(columns[i]) ==> {
            let k = variable_of(columns, i);
            k < rows[r].bindings.len() && has_type_of(columns[i], rows[r].bindings[k])
                ==> shows_value(b.columns[i].cells[r], rows[r].bindings[k])
        },
        ({
            &&& !names_variable(columns[i])
            &&& columns[i].name != "entity_id"@
            &&& columns[i].name != "match_duration"@
            &&& columns[i].name != "step_reached"@
            &&& columns[i].name != "bracket"@
            &&& columns[i].name != "bracket_end"@
        }) ==> b.columns[i].cells[r] is None,
{
    reveal_strlit("entity_id");
    reveal_strlit("match_duration");
    reveal_strlit("step_reached");
    reveal_strlit("bracket");
    reveal_strlit("bracket_end");
    lemma_rank(columns, i);
    lemma_names(columns[i]);
    assert("entity_id"@.len() == 9);
    assert("match_duration"@.len() == 14);
    assert("step_reached"@.len() == 12);
    assert("bracket"@.len() == 7);
    assert("bracket_end"@.len() == 11);
    assert("entity_id"@[0] == 'e');
    assert("match_duration"@[0] == 'm');
    assert("step_reached"@[0] == 's');
    assert("bracket"@[0] == 'b');
    assert("bracket_end"@[0] == 'b');
    let cell = b.columns[i].cells[r];
    assert(cell == super::output::output_cell(columns[i], binding_rank(columns, i), rows[r]));
}

} // verus!
