//! Record batches of match results.
//!
//! A completed match becomes one row. Where unfinished matches are reported,
//! each of them becomes a row too. With time brackets, every match becomes one
//! row for each bracket.

use arrow::array::ArrayData;
use arrow::datatypes::{DataType, Schema};
use vstd::prelude::*;

use super::bindings::{BindingValue, BindingView, binding_views};
use super::nfa::{CompletionView, MatchCompletion, PartialMatch, PartialView, completion_views,
    partial_views};
use super::pattern::BracketSpec;
use crate::columnar::{Batch, BatchView, CellView, SchemaSpec, array_view, array_views, arrow_schema,
    batch_view, boolean_array, buildable, empty_batch, float64_array, int64_array, int_cells,
    kind_of_logical, new_batch, no_nulls, null_array, physical_type, schema_fields,
    storable, storable_cells, string_view_array, text_cells, timestamp_array, to_schema_spec,
    type_kind};
use crate::schema::{BqlType, ColumnDef, ColumnView, OperatorSchema};
use crate::text::{has_prefix, starts_with, text_eq};

verus! {

/// One row of the result.
#[derive(Debug)]
pub struct OutputRow<'a> {
    /// The time from the first to the last step of a completed match.
    pub match_duration: Option<i64>,
    /// The step reached.
    pub step_reached: u8,
    /// The values bound to the pattern's variables.
    pub bindings: &'a Vec<BindingValue>,
    /// The bracket that the row is about.
    pub bracket_idx: Option<i64>,
    /// The end of that bracket, relative to the first step.
    pub bracket_end: Option<i64>,
}

/// The content of an [`OutputRow`].
pub struct RowView {
    pub match_duration: Option<i64>,
    pub step_reached: u8,
    pub bindings: Seq<BindingView>,
    pub bracket_idx: Option<i64>,
    pub bracket_end: Option<i64>,
}

impl<'a> View for OutputRow<'a> {
    type V = RowView;

    open spec fn view(&self) -> RowView {
        RowView {
            match_duration: self.match_duration,
            step_reached: self.step_reached,
            bindings: binding_views(self.bindings@),
            bracket_idx: self.bracket_idx,
            bracket_end: self.bracket_end,
        }
    }
}

/// The contents of a list of rows.
pub open spec fn row_views(rows: Seq<OutputRow<'_>>) -> Seq<RowView> {
    Seq::new(rows.len(), |i: int| rows[i]@)
}

/// Every completed match has a duration that fits.
pub open spec fn durations_fit(completions: Seq<CompletionView>) -> bool {
    forall|i: int|
        0 <= i < completions.len() ==> i64::MIN <= (#[trigger] completions[i]).final_ts
            - completions[i].anchor_ts <= i64::MAX
}

/// The time from the first to the last step.
pub open spec fn duration_of(c: CompletionView) -> i64 {
    (c.final_ts - c.anchor_ts) as i64
}

/// The row of a completed match.
pub open spec fn completion_row(c: CompletionView, num_steps: u8) -> RowView {
    RowView {
        match_duration: Some(duration_of(c)),
        step_reached: num_steps,
        bindings: c.bindings,
        bracket_idx: None,
        bracket_end: None,
    }
}

/// The row of an unfinished match.
pub open spec fn partial_row(p: PartialView) -> RowView {
    RowView {
        match_duration: None,
        step_reached: p.step_reached,
        bindings: p.bindings,
        bracket_idx: None,
        bracket_end: None,
    }
}

/// The lower end of bracket `b`, which does not belong to it.
pub open spec fn bracket_start(durations: Seq<i64>, b: int) -> int {
    if b == 0 {
        -1
    } else {
        durations[b - 1] as int
    }
}

/// Whether a match that took `delta` completed inside bracket `b`.
pub open spec fn completes_in(durations: Seq<i64>, delta: int, b: int) -> bool {
    bracket_start(durations, b) < delta <= durations[b]
}

/// The step that a completed match reached inside each bracket alone.
pub open spec fn completion_steps(delta: int, num_steps: u8, durations: Seq<i64>) -> Seq<u8> {
    Seq::new(
        durations.len(),
        |b: int|
            if completes_in(durations, delta, b) {
                num_steps
            } else if b == 0 {
                1u8
            } else {
                0u8
            },
    )
}

/// The step that an unfinished match reached inside each of `n` brackets alone.
/// Only the time of its first step is known.
pub open spec fn partial_steps(step_reached: u8, n: nat) -> Seq<u8> {
    Seq::new(
        n,
        |b: int|
            if b == 0 && step_reached >= 1 {
                1u8
            } else {
                0u8
            },
    )
}

/// The largest of the first `n` entries.
pub open spec fn running_max(steps: Seq<u8>, n: int) -> u8
    decreases n,
{
    if n <= 0 {
        0
    } else {
        let before = running_max(steps, n - 1);
        if steps[n - 1] > before {
            steps[n - 1]
        } else {
            before
        }
    }
}

/// Every entry replaced by the largest entry up to it.
pub open spec fn prefix_max(steps: Seq<u8>) -> Seq<u8> {
    Seq::new(steps.len(), |i: int| running_max(steps, i + 1))
}

/// The steps per bracket, counted from the first step on if `cumulative`.
pub open spec fn bracket_steps(cumulative: bool, steps: Seq<u8>) -> Seq<u8> {
    if cumulative {
        prefix_max(steps)
    } else {
        steps
    }
}

/// The rows of one match for its first `n` brackets: all of them, or only those
/// in which it is complete.
pub open spec fn track_rows(
    steps: Seq<u8>,
    durations: Seq<i64>,
    match_duration: Option<i64>,
    num_steps: u8,
    bindings: Seq<BindingView>,
    emit_all: bool,
    n: int,
) -> Seq<RowView>
    decreases n,
{
    if n <= 0 {
        Seq::empty()
    } else {
        let before = track_rows(
            steps,
            durations,
            match_duration,
            num_steps,
            bindings,
            emit_all,
            n - 1,
        );
        if emit_all || steps[n - 1] == num_steps {
            before.push(
                RowView {
                    match_duration,
                    step_reached: steps[n - 1],
                    bindings,
                    bracket_idx: Some((n - 1) as i64),
                    bracket_end: Some(durations[n - 1]),
                },
            )
        } else {
            before
        }
    }
}

/// The rows of a completed match, one for each bracket.
pub open spec fn bracketed_completion(
    c: CompletionView,
    emit_all: bool,
    num_steps: u8,
    durations: Seq<i64>,
    cumulative: bool,
) -> Seq<RowView> {
    track_rows(
        bracket_steps(
            cumulative,
            completion_steps(duration_of(c) as int, num_steps, durations),
        ),
        durations,
        Some(duration_of(c)),
        num_steps,
        c.bindings,
        emit_all,
        durations.len() as int,
    )
}

/// The rows of an unfinished match, one for each bracket.
pub open spec fn bracketed_partial(
    p: PartialView,
    num_steps: u8,
    durations: Seq<i64>,
    cumulative: bool,
) -> Seq<RowView> {
    track_rows(
        bracket_steps(cumulative, partial_steps(p.step_reached, durations.len())),
        durations,
        None,
        num_steps,
        p.bindings,
        true,
        durations.len() as int,
    )
}

/// The rows of the first `n` completed matches.
pub open spec fn completions_expanded(
    completions: Seq<CompletionView>,
    emit_all: bool,
    num_steps: u8,
    durations: Seq<i64>,
    cumulative: bool,
    n: int,
) -> Seq<RowView>
    decreases n,
{
    if n <= 0 {
        Seq::empty()
    } else {
        completions_expanded(completions, emit_all, num_steps, durations, cumulative, n - 1)
            + bracketed_completion(completions[n - 1], emit_all, num_steps, durations, cumulative)
    }
}

/// The rows of the first `n` unfinished matches.
pub open spec fn partials_expanded(
    partials: Seq<PartialView>,
    num_steps: u8,
    durations: Seq<i64>,
    cumulative: bool,
    n: int,
) -> Seq<RowView>
    decreases n,
{
    if n <= 0 {
        Seq::empty()
    } else {
        partials_expanded(partials, num_steps, durations, cumulative, n - 1) + bracketed_partial(
            partials[n - 1],
            num_steps,
            durations,
            cumulative,
        )
    }
}

/// The rows of a result.
pub open spec fn output_rows(
    completions: Seq<CompletionView>,
    partials: Seq<PartialView>,
    emit_all: bool,
    num_steps: u8,
    brackets: Option<BracketSpec>,
) -> Seq<RowView> {
    match brackets {
        Some(spec) => {
            let done = completions_expanded(
                completions,
                emit_all,
                num_steps,
                spec.durations@,
                spec.cumulative,
                completions.len() as int,
            );
            if emit_all {
                done + partials_expanded(
                    partials,
                    num_steps,
                    spec.durations@,
                    spec.cumulative,
                    partials.len() as int,
                )
            } else {
                done
            }
        },
        None => {
            let done = Seq::new(
                completions.len(),
                |i: int| completion_row(completions[i], num_steps),
            );
            if emit_all {
                done + Seq::new(partials.len(), |i: int| partial_row(partials[i]))
            } else {
                done
            }
        },
    }
}

/// Sets each entry to the step that a completed match reached inside that
/// bracket alone.
fn compute_completion_steps(out: &mut Vec<u8>, delta: i64, num_steps: u8, durations: &Vec<i64>)
    requires
        old(out)@.len() == durations@.len(),
    ensures
        final(out)@ == completion_steps(delta as int, num_steps, durations@),
{
    let ghost want = completion_steps(delta as int, num_steps, durations@);
    let mut b: usize = 0;
    while b < durations.len()
        invariant
            b <= durations@.len() == out@.len(),
            want == completion_steps(delta as int, num_steps, durations@),
            forall|j: int| 0 <= j < b ==> out@[j] == want[j],
        decreases durations@.len() - b,
    {
        let prev: i64 = if b == 0 {
            -1
        } else {
            durations[b - 1]
        };
        let step: u8 = if delta > prev && delta <= durations[b] {
            num_steps
        } else if b == 0 {
            1
        } else {
            0
        };
        out.set(b, step);
        b = b + 1;
    }
    assert(out@ =~= want);
}

/// Sets each entry to the step that an unfinished match reached inside that
/// bracket alone.
pub fn compute_partial_steps(out: &mut Vec<u8>, partial: &PartialMatch)
    ensures
        final(out)@ == partial_steps(partial.step_reached, old(out)@.len()),
{
    let ghost n = out@.len();
    let ghost want = partial_steps(partial.step_reached, n);
    let mut b: usize = 0;
    while b < out.len()
        invariant
            b <= out@.len() == n,
            want == partial_steps(partial.step_reached, n),
            forall|j: int| 0 <= j < b ==> out@[j] == want[j],
        decreases n - b,
    {
        let step: u8 = if b == 0 && partial.step_reached >= 1 {
            1
        } else {
            0
        };
        out.set(b, step);
        b = b + 1;
    }
    assert(out@ =~= want);
}

/// Replaces each entry by the largest entry up to it.
pub fn apply_prefix_max(out: &mut Vec<u8>)
    ensures
        final(out)@ == prefix_max(old(out)@),
{
    let ghost steps = out@;
    let mut running: u8 = 0;
    let mut i: usize = 0;
    while i < out.len()
        invariant
            i <= out@.len() == steps.len(),
            running == running_max(steps, i as int),
            forall|j: int| 0 <= j < i ==> out@[j] == prefix_max(steps)[j],
            forall|j: int| i <= j < out@.len() ==> out@[j] == steps[j],
        decreases out@.len() - i,
    {
        if out[i] > running {
            running = out[i];
        }
        out.set(i, running);
        i = i + 1;
    }
    assert(out@ =~= prefix_max(steps));
}

/// Adds the rows of one match.
fn push_rows_for_track<'a>(
    rows: &mut Vec<OutputRow<'a>>,
    per_bracket: &Vec<u8>,
    durations: &Vec<i64>,
    match_duration: Option<i64>,
    num_steps: u8,
    bindings: &'a Vec<BindingValue>,
    emit_all: bool,
)
    requires
        per_bracket@.len() == durations@.len() <= i64::MAX,
    ensures
        row_views(final(rows)@) == row_views(old(rows)@) + track_rows(
            per_bracket@,
            durations@,
            match_duration,
            num_steps,
            binding_views(bindings@),
            emit_all,
            durations@.len() as int,
        ),
{
    let ghost before = row_views(rows@);
    let ghost views = binding_views(bindings@);
    let mut b: usize = 0;
    assert(row_views(rows@) =~= before + track_rows(
        per_bracket@,
        durations@,
        match_duration,
        num_steps,
        views,
        emit_all,
        0,
    ));
    while b < durations.len()
        invariant
            b <= durations@.len() == per_bracket@.len() <= i64::MAX,
            views == binding_views(bindings@),
            row_views(rows@) == before + track_rows(
                per_bracket@,
                durations@,
                match_duration,
                num_steps,
                views,
                emit_all,
                b as int,
            ),
        decreases durations@.len() - b,
    {
        if emit_all || per_bracket[b] == num_steps {
            let ghost rows0 = rows@;
            rows.push(
                OutputRow {
                    match_duration,
                    step_reached: per_bracket[b],
                    bindings,
                    bracket_idx: Some(b as i64),
                    bracket_end: Some(durations[b]),
                },
            );
            assert(row_views(rows@) =~= row_views(rows0).push(rows@.last()@));
        }
        assert(row_views(rows@) =~= before + track_rows(
            per_bracket@,
            durations@,
            match_duration,
            num_steps,
            views,
            emit_all,
            b + 1,
        ));
        b = b + 1;
    }
}

/// The rows of a result with time brackets.
fn expand_bracket_rows<'a>(
    completions: &'a Vec<MatchCompletion>,
    partials: &'a Vec<PartialMatch>,
    emit_all: bool,
    num_steps: u8,
    spec: &BracketSpec,
) -> (rows: Vec<OutputRow<'a>>)
    requires
        durations_fit(completion_views(completions@)),
        spec.durations@.len() <= i64::MAX,
    ensures
        row_views(rows@) == output_rows(
            completion_views(completions@),
            partial_views(partials@),
            emit_all,
            num_steps,
            Some(*spec),
        ),
{
    let ghost cs = completion_views(completions@);
    let ghost ps = partial_views(partials@);
    let ghost durs = spec.durations@;
    let mut rows: Vec<OutputRow<'a>> = Vec::new();
    let mut per_bracket: Vec<u8> = Vec::new();
    let mut k: usize = 0;
    while k < spec.durations.len()
        invariant
            k <= spec.durations@.len(),
            per_bracket@.len() == k,
        decreases spec.durations@.len() - k,
    {
        per_bracket.push(0);
        k = k + 1;
    }
    let mut i: usize = 0;
    assert(row_views(rows@) =~= completions_expanded(
        cs,
        emit_all,
        num_steps,
        durs,
        spec.cumulative,
        0,
    ));
    while i < completions.len()
        invariant
            i <= completions@.len(),
            cs == completion_views(completions@),
            durs == spec.durations@,
            durations_fit(cs),
            per_bracket@.len() == durs.len() <= i64::MAX,
            row_views(rows@) == completions_expanded(
                cs,
                emit_all,
                num_steps,
                durs,
                spec.cumulative,
                i as int,
            ),
        decreases completions@.len() - i,
    {
        let c: &MatchCompletion = &completions[i];
        assert(cs[i as int] == c@);
        let delta: i64 = c.final_ts - c.anchor_ts;
        compute_completion_steps(&mut per_bracket, delta, num_steps, &spec.durations);
        if spec.cumulative {
            apply_prefix_max(&mut per_bracket);
        }
        push_rows_for_track(
            &mut rows,
            &per_bracket,
            &spec.durations,
            Some(delta),
            num_steps,
            &c.bindings,
            emit_all,
        );
        i = i + 1;
    }
    if emit_all {
        let ghost done = row_views(rows@);
        let mut j: usize = 0;
        assert(row_views(rows@) =~= done + partials_expanded(
            ps,
            num_steps,
            durs,
            spec.cumulative,
            0,
        ));
        while j < partials.len()
            invariant
                j <= partials@.len(),
                ps == partial_views(partials@),
                durs == spec.durations@,
                emit_all,
                per_bracket@.len() == durs.len() <= i64::MAX,
                row_views(rows@) == done + partials_expanded(
                    ps,
                    num_steps,
                    durs,
                    spec.cumulative,
                    j as int,
                ),
            decreases partials@.len() - j,
        {
            let p: &PartialMatch = &partials[j];
            assert(ps[j as int] == p@);
            compute_partial_steps(&mut per_bracket, p);
            if spec.cumulative {
                apply_prefix_max(&mut per_bracket);
            }
            push_rows_for_track(
                &mut rows,
                &per_bracket,
                &spec.durations,
                None,
                num_steps,
                &p.bindings,
                emit_all,
            );
            assert(row_views(rows@) =~= done + partials_expanded(
                ps,
                num_steps,
                durs,
                spec.cumulative,
                j + 1,
            ));
            j = j + 1;
        }
    }
    rows
}

/// The rows of a result.
pub fn build_rows<'a>(
    completions: &'a Vec<MatchCompletion>,
    partials: &'a Vec<PartialMatch>,
    emit_all: bool,
    num_steps: u8,
    brackets: Option<&BracketSpec>,
) -> (rows: Vec<OutputRow<'a>>)
    requires
        durations_fit(completion_views(completions@)),
        brackets matches Some(spec) ==> spec.durations@.len() <= i64::MAX,
    ensures
        row_views(rows@) == output_rows(
            completion_views(completions@),
            partial_views(partials@),
            emit_all,
            num_steps,
            (match brackets {
                Some(spec) => Some(*spec),
                None => None,
            }),
        ),
        brackets is None ==> {
            &&& rows@.len() == completions@.len() + (if emit_all {
                partials@.len()
            } else {
                0
            })
            &&& forall|i: int|
                0 <= i < completions@.len() ==> {
                    &&& (#[trigger] rows@[i]).match_duration matches Some(d) && d as int
                        == completions@[i].final_ts - completions@[i].anchor_ts
                    &&& rows@[i].step_reached == num_steps
                    &&& *rows@[i].bindings == completions@[i].bindings
                }
            &&& forall|i: int|
                completions@.len() <= i < rows@.len() ==> {
                    &&& (#[trigger] rows@[i]).match_duration is None
                    &&& rows@[i].step_reached == partials@[i - completions@.len()].step_reached
                    &&& *rows@[i].bindings == partials@[i - completions@.len()].bindings
                }
        },
{
    if let Some(spec) = brackets {
        return expand_bracket_rows(completions, partials, emit_all, num_steps, spec);
    }
    let ghost cs = completion_views(completions@);
    let ghost ps = partial_views(partials@);
    let mut rows: Vec<OutputRow<'a>> = Vec::new();
    let mut i: usize = 0;
    while i < completions.len()
        invariant
            i <= completions@.len(),
            cs == completion_views(completions@),
            durations_fit(cs),
            rows@.len() == i,
            forall|k: int| 0 <= k < i ==> (#[trigger] rows@[k])@ == completion_row(cs[k], num_steps),
            forall|k: int|
                0 <= k < i ==> *(#[trigger] rows@[k]).bindings == completions@[k].bindings,
        decreases completions@.len() - i,
    {
        let c: &MatchCompletion = &completions[i];
        assert(cs[i as int] == c@);
        rows.push(
            OutputRow {
                match_duration: Some(c.final_ts - c.anchor_ts),
                step_reached: num_steps,
                bindings: &c.bindings,
                bracket_idx: None,
                bracket_end: None,
            },
        );
        i = i + 1;
    }
    if emit_all {
        let ghost n = rows@.len();
        let mut j: usize = 0;
        while j < partials.len()
            invariant
                j <= partials@.len(),
                ps == partial_views(partials@),
                n == cs.len(),
                rows@.len() == n + j,
                forall|k: int|
                    0 <= k < n ==> (#[trigger] rows@[k])@ == completion_row(cs[k], num_steps),
                forall|k: int| n <= k < n + j ==> (#[trigger] rows@[k])@ == partial_row(ps[k - n]),
                n == completions@.len(),
                forall|k: int|
                    0 <= k < n ==> *(#[trigger] rows@[k]).bindings == completions@[k].bindings,
                forall|k: int|
                    n <= k < n + j ==> *(#[trigger] rows@[k]).bindings == partials@[k - n].bindings,
            decreases partials@.len() - j,
        {
            let p: &PartialMatch = &partials[j];
            assert(ps[j as int] == p@);
            rows.push(
                OutputRow {
                    match_duration: None,
                    step_reached: p.step_reached,
                    bindings: &p.bindings,
                    bracket_idx: None,
                    bracket_end: None,
                },
            );
            j = j + 1;
        }
    }
    assert(row_views(rows@) =~= output_rows(cs, ps, emit_all, num_steps, None));
    proof {
        assert forall|k: int| 0 <= k < completions@.len() implies {
            &&& (#[trigger] rows@[k]).match_duration matches Some(d) && d as int
                == completions@[k].final_ts - completions@[k].anchor_ts
            &&& rows@[k].step_reached == num_steps
        } by {
            assert(rows@[k]@ == completion_row(cs[k], num_steps));
            assert(cs[k] == completions@[k]@);
        }
        assert forall|k: int| completions@.len() <= k < rows@.len() implies {
            &&& (#[trigger] rows@[k]).match_duration is None
            &&& rows@[k].step_reached == partials@[k - completions@.len()].step_reached
        } by {
            assert(rows@[k]@ == partial_row(ps[k - completions@.len()]));
        }
    }
    rows
}

/// Whether a column shows the value of a pattern variable.
pub open spec fn is_binding_name(name: Seq<char>) -> bool {
    has_prefix(name, "$"@)
}

/// The number of variable columns among the first `i`.
pub open spec fn binding_rank(columns: Seq<ColumnView>, i: int) -> int
    decreases i,
{
    if i <= 0 {
        0
    } else if is_binding_name(columns[i - 1].name) {
        binding_rank(columns, i - 1) + 1
    } else {
        binding_rank(columns, i - 1)
    }
}

/// The cell of variable `k` in a column of the given type: its value, or the
/// type's neutral value where it is missing or of another type.
pub open spec fn binding_cell(bindings: Seq<BindingView>, k: int, t: BqlType) -> CellView {
    let known = 0 <= k < bindings.len();
    match t {
        BqlType::String => CellView::Str(
            match bindings[k] {
                BindingView::String(s) if known => s,
                _ => Seq::empty(),
            },
        ),
        BqlType::Int => CellView::Int(
            match bindings[k] {
                BindingView::Int(v) if known => v,
                _ => 0,
            },
        ),
        BqlType::Float => CellView::Float(
            match bindings[k] {
                BindingView::Float(v) if known => v,
                _ => 0,
            },
        ),
        BqlType::Bool => CellView::Bool(
            match bindings[k] {
                BindingView::Bool(v) if known => v,
                _ => false,
            },
        ),
        BqlType::Timestamp => CellView::Time(
            match bindings[k] {
                BindingView::Timestamp(v) if known => v,
                _ => 0,
            },
        ),
    }
}

/// What a column shows of a row. The entity id is filled in elsewhere; a column
/// that the matcher does not know is null.
pub open spec fn output_cell(col: ColumnView, k: int, row: RowView) -> Option<CellView> {
    if col.name == "entity_id"@ {
        if col.bql_type == BqlType::Int {
            Some(CellView::Int(0))
        } else {
            Some(CellView::Str(Seq::empty()))
        }
    } else if col.name == "match_duration"@ {
        match row.match_duration {
            Some(d) => Some(CellView::Int(d)),
            None => None,
        }
    } else if col.name == "step_reached"@ {
        Some(CellView::Int(row.step_reached as i64))
    } else if col.name == "bracket"@ {
        match row.bracket_idx {
            Some(b) => Some(CellView::Int(b)),
            None => None,
        }
    } else if col.name == "bracket_end"@ {
        match row.bracket_end {
            Some(e) => Some(CellView::Int(e)),
            None => None,
        }
    } else if is_binding_name(col.name) {
        Some(binding_cell(row.bindings, k, col.bql_type))
    } else {
        None
    }
}

/// The cells of a column.
pub open spec fn output_cells(col: ColumnView, k: int, rows: Seq<RowView>) -> Seq<
    Option<CellView>,
> {
    Seq::new(rows.len(), |i: int| output_cell(col, k, rows[i]))
}

/// The type that a column must have.
pub open spec fn output_type_ok(col: ColumnView) -> bool {
    if col.name == "entity_id"@ {
        col.bql_type == BqlType::Int || col.bql_type == BqlType::String
    } else if col.name == "match_duration"@ || col.name == "step_reached"@ || col.name
        == "bracket"@ || col.name == "bracket_end"@ {
        col.bql_type == BqlType::Int
    } else {
        true
    }
}

/// Whether rows can be shown in a schema. It always can where there is none.
/// Otherwise it has a column, every known column has its type, no column is null
/// that must not be, and every text can be stored.
pub open spec fn output_fits(columns: Seq<ColumnView>, rows: Seq<RowView>) -> bool {
    rows.len() > 0 ==> {
        &&& columns.len() > 0
        &&& forall|i: int|
            0 <= i < columns.len() ==> {
                &&& output_type_ok(#[trigger] columns[i])
                &&& columns[i].nullable || no_nulls(
                    output_cells(columns[i], binding_rank(columns, i), rows),
                )
                &&& storable_cells(output_cells(columns[i], binding_rank(columns, i), rows))
            }
    }
}

/// The batch that shows rows in a schema.
pub open spec fn shows(b: BatchView, columns: Seq<ColumnView>, rows: Seq<RowView>) -> bool {
    &&& b.fields == schema_fields(columns)
    &&& b.rows == rows.len()
    &&& b.columns.len() == columns.len()
    &&& forall|i: int|
        0 <= i < columns.len() ==> {
            &&& (#[trigger] b.columns[i]).data_type == physical_type(columns[i].bql_type)
            &&& b.columns[i].cells == output_cells(columns[i], binding_rank(columns, i), rows)
        }
}

/// A neutral entity id for each row: 0, or the empty text.
fn build_entity_id_column(num_rows: usize, t: BqlType) -> (r: ArrayData)
    requires
        t == BqlType::Int || t == BqlType::String,
    ensures
        array_view(r).data_type == physical_type(t),
        array_view(r).cells == Seq::new(
            num_rows as nat,
            |i: int|
                Some(
                    if t == BqlType::Int {
                        CellView::Int(0)
                    } else {
                        CellView::Str(Seq::empty())
                    },
                ),
        ),
{
    let mut i: usize = 0;
    match t {
        BqlType::Int => {
            let mut values: Vec<Option<i64>> = Vec::new();
            while i < num_rows
                invariant
                    i <= num_rows,
                    values@.len() == i,
                    forall|j: int| 0 <= j < i ==> values@[j] == Some(0i64),
                decreases num_rows - i,
            {
                values.push(Some(0));
                i = i + 1;
            }
            let r = int64_array(values);
            assert(int_cells(values@) =~= Seq::new(
                num_rows as nat,
                |i: int| Some(CellView::Int(0)),
            ));
            r
        },
        _ => {
            let mut values: Vec<Option<String>> = Vec::new();
            while i < num_rows
                invariant
                    i <= num_rows,
                    values@.len() == i,
                    forall|j: int|
                        0 <= j < i ==> ((#[trigger] values@[j]) matches Some(s) && s@ == Seq::<
                            char,
                        >::empty()),
                decreases num_rows - i,
            {
                values.push(Some(String::new()));
                i = i + 1;
            }
            assert(storable(Seq::<char>::empty()));
            assert(text_cells(values@) =~= Seq::new(
                num_rows as nat,
                |i: int| Some(CellView::Str(Seq::empty())),
            ));
            string_view_array(values)
        },
    }
}

/// The durations of the rows; null for unfinished matches.
fn build_match_duration_column(rows: &Vec<OutputRow<'_>>) -> (r: ArrayData)
    ensures
        array_view(r).data_type == physical_type(BqlType::Int),
        array_view(r).cells == int_cells(
            Seq::new(rows@.len(), |i: int| row_views(rows@)[i].match_duration),
        ),
{
    let mut values: Vec<Option<i64>> = Vec::new();
    let mut i: usize = 0;
    while i < rows.len()
        invariant
            i <= rows@.len(),
            values@.len() == i,
            forall|j: int| 0 <= j < i ==> values@[j] == rows@[j].match_duration,
        decreases rows@.len() - i,
    {
        values.push(rows[i].match_duration);
        i = i + 1;
    }
    assert(values@ =~= Seq::new(rows@.len(), |i: int| row_views(rows@)[i].match_duration));
    int64_array(values)
}

/// The steps reached.
fn build_step_reached_column(rows: &Vec<OutputRow<'_>>) -> (r: ArrayData)
    ensures
        array_view(r).data_type == physical_type(BqlType::Int),
        array_view(r).cells == int_cells(
            Seq::new(rows@.len(), |i: int| Some(row_views(rows@)[i].step_reached as i64)),
        ),
{
    let mut values: Vec<Option<i64>> = Vec::new();
    let mut i: usize = 0;
    while i < rows.len()
        invariant
            i <= rows@.len(),
            values@.len() == i,
            forall|j: int| 0 <= j < i ==> values@[j] == Some(rows@[j].step_reached as i64),
        decreases rows@.len() - i,
    {
        values.push(Some(rows[i].step_reached as i64));
        i = i + 1;
    }
    assert(values@ =~= Seq::new(
        rows@.len(),
        |i: int| Some(row_views(rows@)[i].step_reached as i64),
    ));
    int64_array(values)
}

/// The brackets that the rows are about; null without brackets.
fn build_bracket_idx_column(rows: &Vec<OutputRow<'_>>) -> (r: ArrayData)
    ensures
        array_view(r).data_type == physical_type(BqlType::Int),
        array_view(r).cells == int_cells(
            Seq::new(rows@.len(), |i: int| row_views(rows@)[i].bracket_idx),
        ),
{
    let mut values: Vec<Option<i64>> = Vec::new();
    let mut i: usize = 0;
    while i < rows.len()
        invariant
            i <= rows@.len(),
            values@.len() == i,
            forall|j: int| 0 <= j < i ==> values@[j] == rows@[j].bracket_idx,
        decreases rows@.len() - i,
    {
        values.push(rows[i].bracket_idx);
        i = i + 1;
    }
    assert(values@ =~= Seq::new(rows@.len(), |i: int| row_views(rows@)[i].bracket_idx));
    int64_array(values)
}

/// The ends of the brackets that the rows are about; null without brackets.
fn build_bracket_end_column(rows: &Vec<OutputRow<'_>>) -> (r: ArrayData)
    ensures
        array_view(r).data_type == physical_type(BqlType::Int),
        array_view(r).cells == int_cells(
            Seq::new(rows@.len(), |i: int| row_views(rows@)[i].bracket_end),
        ),
{
    let mut values: Vec<Option<i64>> = Vec::new();
    let mut i: usize = 0;
    while i < rows.len()
        invariant
            i <= rows@.len(),
            values@.len() == i,
            forall|j: int| 0 <= j < i ==> values@[j] == rows@[j].bracket_end,
        decreases rows@.len() - i,
    {
        values.push(rows[i].bracket_end);
        i = i + 1;
    }
    assert(values@ =~= Seq::new(rows@.len(), |i: int| row_views(rows@)[i].bracket_end));
    int64_array(values)
}

/// The values of one variable.
fn build_binding_column(rows: &Vec<OutputRow<'_>>, binding_idx: usize, t: BqlType) -> (r: ArrayData)
    requires
        storable_cells(
            Seq::new(
                rows@.len(),
                |i: int| Some(binding_cell(row_views(rows@)[i].bindings, binding_idx as int, t)),
            ),
        ),
    ensures
        array_view(r).data_type == physical_type(t),
        array_view(r).cells == Seq::new(
            rows@.len(),
            |i: int| Some(binding_cell(row_views(rows@)[i].bindings, binding_idx as int, t)),
        ),
{
    let ghost views = row_views(rows@);
    let ghost k = binding_idx as int;
    let ghost want = Seq::new(
        rows@.len(),
        |i: int| Some(binding_cell(views[i].bindings, k, t)),
    );
    let mut i: usize = 0;
    match t {
        BqlType::String => {
            let mut values: Vec<Option<String>> = Vec::new();
            while i < rows.len()
                invariant
                    i <= rows@.len(),
                    views == row_views(rows@),
                    k == binding_idx,
                    values@.len() == i,
                    forall|j: int|
                        0 <= j < i ==> ((#[trigger] values@[j]) matches Some(s) && CellView::Str(s@)
                            == binding_cell(views[j].bindings, k, BqlType::String)),
                decreases rows@.len() - i,
            {
                let bindings: &Vec<BindingValue> = rows[i].bindings;
                let value: String = if binding_idx < bindings.len() {
                    match &bindings[binding_idx] {
                        BindingValue::String(s) => s.clone(),
                        _ => String::new(),
                    }
                } else {
                    String::new()
                };
                values.push(Some(value));
                i = i + 1;
            }
            assert(text_cells(values@) =~= want);
            string_view_array(values)
        },
        BqlType::Int => {
            let mut values: Vec<Option<i64>> = Vec::new();
            while i < rows.len()
                invariant
                    i <= rows@.len(),
                    views == row_views(rows@),
                    k == binding_idx,
                    values@.len() == i,
                    forall|j: int|
                        0 <= j < i ==> ((#[trigger] values@[j]) matches Some(v) && CellView::Int(v)
                            == binding_cell(views[j].bindings, k, BqlType::Int)),
                decreases rows@.len() - i,
            {
                let bindings: &Vec<BindingValue> = rows[i].bindings;
                let value: i64 = if binding_idx < bindings.len() {
                    match &bindings[binding_idx] {
                        BindingValue::Int(v) => *v,
                        _ => 0,
                    }
                } else {
                    0
                };
                values.push(Some(value));
                i = i + 1;
            }
            let r = int64_array(values);
            assert(int_cells(values@) =~= want);
            r
        },
        BqlType::Float => {
            let mut values: Vec<u64> = Vec::new();
            while i < rows.len()
                invariant
                    i <= rows@.len(),
                    views == row_views(rows@),
                    k == binding_idx,
                    values@.len() == i,
                    forall|j: int|
                        0 <= j < i ==> CellView::Float(#[trigger] values@[j]) == binding_cell(
                            views[j].bindings,
                            k,
                            BqlType::Float,
                        ),
                decreases rows@.len() - i,
            {
                let bindings: &Vec<BindingValue> = rows[i].bindings;
                let value: u64 = if binding_idx < bindings.len() {
                    match &bindings[binding_idx] {
                        BindingValue::Float(v) => *v,
                        _ => 0,
                    }
                } else {
                    0
                };
                values.push(value);
                i = i + 1;
            }
            let r = float64_array(values);
            assert(array_view(r).cells =~= want);
            r
        },
        BqlType::Bool => {
            let mut values: Vec<bool> = Vec::new();
            while i < rows.len()
                invariant
                    i <= rows@.len(),
                    views == row_views(rows@),
                    k == binding_idx,
                    values@.len() == i,
                    forall|j: int|
                        0 <= j < i ==> CellView::Bool(#[trigger] values@[j]) == binding_cell(
                            views[j].bindings,
                            k,
                            BqlType::Bool,
                        ),
                decreases rows@.len() - i,
            {
                let bindings: &Vec<BindingValue> = rows[i].bindings;
                let value: bool = if binding_idx < bindings.len() {
                    match &bindings[binding_idx] {
                        BindingValue::Bool(v) => *v,
                        _ => false,
                    }
                } else {
                    false
                };
                values.push(value);
                i = i + 1;
            }
            let r = boolean_array(values);
            assert(array_view(r).cells =~= want);
            r
        },
        BqlType::Timestamp => {
            let mut values: Vec<i64> = Vec::new();
            while i < rows.len()
                invariant
                    i <= rows@.len(),
                    views == row_views(rows@),
                    k == binding_idx,
                    values@.len() == i,
                    forall|j: int|
                        0 <= j < i ==> CellView::Time(#[trigger] values@[j]) == binding_cell(
                            views[j].bindings,
                            k,
                            BqlType::Timestamp,
                        ),
                decreases rows@.len() - i,
            {
                let bindings: &Vec<BindingValue> = rows[i].bindings;
                let value: i64 = if binding_idx < bindings.len() {
                    match &bindings[binding_idx] {
                        BindingValue::Timestamp(v) => *v,
                        _ => 0,
                    }
                } else {
                    0
                };
                values.push(value);
                i = i + 1;
            }
            let r = timestamp_array(values);
            assert(array_view(r).cells =~= want);
            r
        },
    }
}

/// One column of the result.
fn build_output_column(
    rows: &Vec<OutputRow<'_>>,
    col: &ColumnDef,
    data_type: &DataType,
    binding_idx: usize,
) -> (r: ArrayData)
    requires
        output_type_ok(col@),
        storable_cells(output_cells(col@, binding_idx as int, row_views(rows@))),
        *data_type == physical_type(col.bql_type),
        type_kind(*data_type) == kind_of_logical(col.bql_type),
    ensures
        array_view(r).data_type == *data_type,
        array_view(r).cells == output_cells(col@, binding_idx as int, row_views(rows@)),
{
    let ghost want = output_cells(col@, binding_idx as int, row_views(rows@));
    let name: &str = col.name.as_str();
    let r: ArrayData = if text_eq(name, "entity_id") {
        build_entity_id_column(rows.len(), col.bql_type)
    } else if text_eq(name, "match_duration") {
        build_match_duration_column(rows)
    } else if text_eq(name, "step_reached") {
        build_step_reached_column(rows)
    } else if text_eq(name, "bracket") {
        build_bracket_idx_column(rows)
    } else if text_eq(name, "bracket_end") {
        build_bracket_end_column(rows)
    } else if starts_with(name, "$") {
        assert(want =~= Seq::new(
            rows@.len(),
            |i: int|
                Some(
                    binding_cell(row_views(rows@)[i].bindings, binding_idx as int, col.bql_type),
                ),
        ));
        build_binding_column(rows, binding_idx, col.bql_type)
    } else {
        null_array(data_type, rows.len())
    };
    assert(array_view(r).cells =~= want);
    r
}

/// Shows the rows of a result in a schema. The variable columns, whose names
/// begin with `$`, show the variables in their order.
pub fn build_output_batch(
    output_schema: &OperatorSchema,
    completions: &Vec<MatchCompletion>,
    partials: &Vec<PartialMatch>,
    emit_all: bool,
    num_steps: u8,
    brackets: Option<&BracketSpec>,
) -> (r: Batch)
    requires
        durations_fit(completion_views(completions@)),
        brackets matches Some(spec) ==> spec.durations@.len() <= i64::MAX,
        output_fits(
            output_schema@,
            output_rows(
                completion_views(completions@),
                partial_views(partials@),
                emit_all,
                num_steps,
                (match brackets {
                    Some(spec) => Some(*spec),
                    None => None,
                }),
            ),
        ),
    ensures
        shows(
            batch_view(r),
            output_schema@,
            output_rows(
                completion_views(completions@),
                partial_views(partials@),
                emit_all,
                num_steps,
                (match brackets {
                    Some(spec) => Some(*spec),
                    None => None,
                }),
            ),
        ),
{
    let rows: Vec<OutputRow<'_>> = build_rows(
        completions,
        partials,
        emit_all,
        num_steps,
        brackets,
    );
    show_rows(output_schema, &rows)
}

/// Shows rows in a schema.
pub fn show_rows(output_schema: &OperatorSchema, rows: &Vec<OutputRow<'_>>) -> (r: Batch)
    requires
        output_fits(output_schema@, row_views(rows@)),
    ensures
        shows(batch_view(r), output_schema@, row_views(rows@)),
{
    let ghost columns = output_schema@;
    let ghost views = row_views(rows@);
    let schema: SchemaSpec = to_schema_spec(output_schema);
    let built: Schema = arrow_schema(&schema);
    if rows.len() == 0 {
        let r = empty_batch(&built);
        proof {
            assert forall|i: int| 0 <= i < columns.len() implies {
                &&& (#[trigger] batch_view(r).columns[i]).data_type == physical_type(
                    columns[i].bql_type,
                )
                &&& batch_view(r).columns[i].cells == output_cells(
                    columns[i],
                    binding_rank(columns, i),
                    views,
                )
            } by {
                assert(batch_view(r).columns[i].cells =~= output_cells(
                    columns[i],
                    binding_rank(columns, i),
                    views,
                ));
            }
        }
        return r;
    }
    assert(schema@.len() == columns.len());
    let mut arrays: Vec<ArrayData> = Vec::new();
    let mut rank: usize = 0;
    let mut i: usize = 0;
    while i < output_schema.columns.len()
        invariant
            i <= output_schema.columns@.len(),
            columns == output_schema@,
            views == row_views(rows@),
            output_fits(columns, views),
            views.len() > 0,
            schema@ == schema_fields(columns),
            schema.fields@.len() == columns.len(),
            forall|j: int|
                0 <= j < schema.fields@.len() ==> type_kind((#[trigger] schema.fields@[j]).data_type)
                    == kind_of_logical(columns[j].bql_type),
            rank == binding_rank(columns, i as int),
            rank <= i,
            arrays@.len() == i,
            forall|j: int|
                0 <= j < i ==> {
                    &&& array_view(#[trigger] arrays@[j]).data_type == physical_type(
                        columns[j].bql_type,
                    )
                    &&& array_view(arrays@[j]).cells == output_cells(
                        columns[j],
                        binding_rank(columns, j),
                        views,
                    )
                },
        decreases output_schema.columns@.len() - i,
    {
        let col: &ColumnDef = &output_schema.columns[i];
        proof {
            assert(columns[i as int] == col@);
            assert(schema@[i as int] == schema.fields@[i as int]@);
        }
        arrays.push(build_output_column(rows, col, &schema.fields[i].data_type, rank));
        if starts_with(col.name.as_str(), "$") {
            rank = rank + 1;
        }
        i = i + 1;
    }
    proof {
        let built = array_views(arrays@);
        assert forall|j: int| 0 <= j < built.len() implies {
            &&& (#[trigger] built[j]).cells.len() == built[0].cells.len()
            &&& built[j].data_type == schema@[j].data_type
            &&& schema@[j].nullable || no_nulls(built[j].cells)
        } by {
            assert(built[j] == array_view(arrays@[j]));
            assert(built[0] == array_view(arrays@[0]));
            assert(output_type_ok(columns[j]));
        }
        assert(buildable(schema@, built));
    }
    let ghost columns_built = array_views(arrays@);
    match new_batch(&built, arrays) {
        Ok(b) => {
            proof {
                assert forall|j: int| 0 <= j < columns.len() implies {
                    &&& (#[trigger] batch_view(b).columns[j]).data_type == physical_type(
                        columns[j].bql_type,
                    )
                    &&& batch_view(b).columns[j].cells == output_cells(
                        columns[j],
                        binding_rank(columns, j),
                        views,
                    )
                } by {
                    assert(columns_built[j] == array_view(arrays@[j]));
                }
            }
            b
        },
        Err(_) => {
            assert(false);
            empty_batch(&built)
        },
    }
}

/// Whether every bracket ends later than the one before, and none before the anchor.
pub open spec fn brackets_rise(durations: Seq<i64>) -> bool {
    &&& forall|a: int, b: int|
        0 <= a < b < durations.len() ==> #[trigger] durations[a] < #[trigger] durations[b]
    &&& forall|a: int| 0 <= a < durations.len() ==> #[trigger] durations[a] >= 0
}

/// Counted from the first step on, the step that a match has reached never falls from
/// bracket to bracket.
pub proof fn theorem_cumulative_rises(steps: Seq<u8>, a: int, b: int)
    requires
        0 <= a <= b < steps.len(),
    ensures
        bracket_steps(true, steps)[a] <= bracket_steps(true, steps)[b],
        steps[a] <= bracket_steps(true, steps)[a],
    decreases b - a,
{
    if a < b {
        theorem_cumulative_rises(steps, a, b - 1);
    }
}

/// A match completes in one bracket at most.
pub proof fn theorem_one_bracket(durations: Seq<i64>, delta: int, a: int, b: int)
    requires
        brackets_rise(durations),
        0 <= a < durations.len(),
        0 <= b < durations.len(),
        completes_in(durations, delta, a),
        completes_in(durations, delta, b),
    ensures
        a == b,
{
    if a < b {
        assert(b - 1 == a || durations[a] < durations[b - 1]);
    } else if b < a {
        assert(a - 1 == b || durations[b] < durations[a - 1]);
    }
}

proof fn lemma_bracket_from(durations: Seq<i64>, delta: int, b: int)
    requires
        0 <= b < durations.len(),
        bracket_start(durations, b) < delta <= durations[durations.len() - 1],
    ensures
        exists|a: int| b <= a < durations.len() && #[trigger] completes_in(durations, delta, a),
    decreases durations.len() - b,
{
    if delta <= durations[b] {
        assert(completes_in(durations, delta, b));
    } else {
        lemma_bracket_from(durations, delta, b + 1);
    }
}

/// A match that does not take longer than the last bracket completes in one.
pub proof fn theorem_some_bracket(durations: Seq<i64>, delta: int)
    requires
        durations.len() > 0,
        0 <= delta <= durations[durations.len() - 1],
    ensures
        exists|b: int| 0 <= b < durations.len() && #[trigger] completes_in(durations, delta, b),
{
    lemma_bracket_from(durations, delta, 0);
}

/// Counted from the first step on, a match that completes in a bracket is complete in
/// every later one.
pub proof fn theorem_cumulative_tail(durations: Seq<i64>, delta: int, num_steps: u8, a: int, b: int)
    requires
        num_steps >= 1,
        0 <= a <= b < durations.len(),
        completes_in(durations, delta, a),
    ensures
        bracket_steps(true, completion_steps(delta, num_steps, durations))[b] == num_steps,
{
    let steps = completion_steps(delta, num_steps, durations);
    theorem_cumulative_rises(steps, a, b);
    lemma_running_max_bound(steps, num_steps, b + 1);
}

proof fn lemma_running_max_bound(steps: Seq<u8>, most: u8, n: int)
    requires
        0 <= n <= steps.len(),
        forall|i: int| 0 <= i < steps.len() ==> #[trigger] steps[i] <= most,
    ensures
        running_max(steps, n) <= most,
    decreases n,
{
    if n > 0 {
        lemma_running_max_bound(steps, most, n - 1);
    }
}

} // verus!
