//! What the rows shown of an entity say of its events.
//!
//! The theorems below speak of the times, the end events and the columns of the input,
//! and of the cells of the result. They are about events later than `i64::MIN`, the
//! time that stands for "no event", and about times whose differences can be told from
//! the gap: either the gap is not `i64::MAX`, or no two neighbouring events are farther
//! apart than that.

use arrow::datatypes::DataType;
use vstd::prelude::*;

use crate::columnar::{BatchView, CellView, DataKind, entry_type, physical_type, type_kind};
use crate::schema::{ColumnView, column_position, lemma_column_position};
use crate::session_laws::{all_shown, begins, expected_row, expected_rows, first_row, last_row,
    lemma_close, lemma_in_session, lemma_number_bound, lemma_progress,
    one_session, open_from, session_number, session_time};
use crate::sessionize::{RowCells, SessionModel, SessionSetup, SessionizeOperator,
    SessionizePhysical, Source, after_entity, after_event_row, after_events, after_sub_batch,
    continued, flat_sessions, kept_field, kept_names, name_position, no_sessions,
    one_event_more, source_of, time_between, with_kept, with_name, with_names};
use crate::text::text_views;

verus! {

/// Whether event `i` begins a session: it is the first, it follows an end event, or
/// more than the gap lies between it and the event before.
pub open spec fn starts(gap: int, stamps: Seq<i64>, ends: Seq<bool>, i: int) -> bool {
    i == 0 || ends[i - 1] || stamps[i] - stamps[i - 1] > gap
}

/// How many sessions begin up to event `i`.
pub open spec fn sessions_up_to(gap: int, stamps: Seq<i64>, ends: Seq<bool>, i: int) -> int
    decreases i + 1,
{
    if i < 0 {
        0
    } else {
        sessions_up_to(gap, stamps, ends, i - 1) + (if starts(gap, stamps, ends, i) {
            1int
        } else {
            0int
        })
    }
}

/// Whether the events from `a` to `b`, among the first `n`, are one whole session.
pub open spec fn spans(
    gap: int,
    stamps: Seq<i64>,
    ends: Seq<bool>,
    n: int,
    a: int,
    b: int,
) -> bool {
    &&& 0 <= a <= b < n
    &&& starts(gap, stamps, ends, a)
    &&& forall|k: int| a < k <= b ==> !#[trigger] starts(gap, stamps, ends, k)
    &&& b + 1 < n ==> starts(gap, stamps, ends, b + 1)
}

/// Whether event `i` is one too many in its session: it is not the first event of the
/// session, and with it the session has more events than the limit.
pub open spec fn crowded(
    gap: int,
    limit: int,
    stamps: Seq<i64>,
    ends: Seq<bool>,
    i: int,
) -> bool {
    let most = if limit < 1 {
        1
    } else {
        limit
    };
    &&& most <= i
    &&& forall|k: int| i - most < k <= i ==> !#[trigger] starts(gap, stamps, ends, k)
}

/// Whether the differences of neighbouring times can be told from the gap.
pub open spec fn comparable(gap: i64, stamps: Seq<i64>) -> bool {
    gap < i64::MAX || forall|i: int|
        0 < i < stamps.len() ==> (#[trigger] stamps[i]) - stamps[i - 1] <= i64::MAX
}

/// Whether a cell shows a stretch of time: exactly, or the largest number where it
/// does not fit.
pub open spec fn shows_time(cell: Option<CellView>, took: int) -> bool {
    cell matches Some(CellView::Int(d)) && {
        &&& i64::MIN <= took <= i64::MAX ==> d as int == took
        &&& took > i64::MAX ==> d == i64::MAX
    }
}

/// Whether a cell shows a number.
pub open spec fn shows_number(cell: Option<CellView>, n: int) -> bool {
    cell matches Some(CellView::Int(d)) && d as int == n
}

/// Whether a row shows event `i` of `n`: the number of its session, the time from the
/// first to the last event of the session, and the kept cells of the event.
pub open spec fn shows_event(
    row: RowCells,
    sources: Seq<Source>,
    gap: int,
    stamps: Seq<i64>,
    ends: Seq<bool>,
    kept: RowCells,
    i: int,
    n: int,
) -> bool {
    &&& row.cells.len() == sources.len()
    &&& forall|j: int|
        0 <= j < sources.len() ==> match #[trigger] sources[j] {
            Source::SessionId => shows_number(
                row.cells[j],
                sessions_up_to(gap, stamps, ends, i),
            ),
            Source::Duration => forall|a: int, b: int|
                a <= i <= b && #[trigger] spans(gap, stamps, ends, n, a, b) ==> shows_time(
                    row.cells[j],
                    stamps[b] - stamps[a],
                ),
            Source::Kept(k) => row.cells[j] == kept.cells[k],
            Source::Nothing => row.cells[j] is None,
        }
}

proof fn lemma_starts(gap: i64, stamps: Seq<i64>, ends: Seq<bool>, i: int)
    requires
        comparable(gap, stamps),
        0 <= i < stamps.len(),
    ensures
        begins(gap, stamps, ends, i) == starts(gap as int, stamps, ends, i),
{
    if i > 0 {
        let _ = stamps[i];
    }
}

proof fn lemma_counts(gap: i64, stamps: Seq<i64>, ends: Seq<bool>, i: int)
    requires
        comparable(gap, stamps),
        -1 <= i < stamps.len(),
    ensures
        session_number(gap, stamps, ends, i) as int == sessions_up_to(
            gap as int,
            stamps,
            ends,
            i,
        ),
    decreases i + 1,
{
    if i >= 0 {
        lemma_counts(gap, stamps, ends, i - 1);
        lemma_starts(gap, stamps, ends, i);
    }
}

proof fn lemma_first(gap: i64, stamps: Seq<i64>, ends: Seq<bool>, n: int, a: int, b: int, i: int)
    requires
        comparable(gap, stamps),
        n <= stamps.len(),
        spans(gap as int, stamps, ends, n, a, b),
        a <= i <= b,
    ensures
        first_row(gap, stamps, ends, i) == a,
    decreases i,
{
    lemma_starts(gap, stamps, ends, i);
    if i > a {
        assert(!starts(gap as int, stamps, ends, i));
        lemma_first(gap, stamps, ends, n, a, b, i - 1);
    }
}

proof fn lemma_last(gap: i64, stamps: Seq<i64>, ends: Seq<bool>, n: int, a: int, b: int, i: int)
    requires
        comparable(gap, stamps),
        n <= stamps.len(),
        spans(gap as int, stamps, ends, n, a, b),
        a <= i <= b,
    ensures
        last_row(gap, stamps, ends, i, n) == b,
    decreases b - i,
{
    if i + 1 < n {
        lemma_starts(gap, stamps, ends, i + 1);
    }
    if i < b {
        assert(!starts(gap as int, stamps, ends, i + 1));
        lemma_last(gap, stamps, ends, n, a, b, i + 1);
    }
}

proof fn lemma_shows_event(
    setup: SessionSetup,
    stamps: Seq<i64>,
    ends: Seq<bool>,
    rows: Seq<RowCells>,
    i: int,
    n: int,
)
    requires
        comparable(setup.gap, stamps),
        stamps.len() == ends.len() == rows.len() < i64::MAX,
        0 <= i < n <= rows.len(),
    ensures
        shows_event(
            expected_row(setup, stamps, ends, rows, i, n),
            setup.sources,
            setup.gap as int,
            stamps,
            ends,
            rows[i],
            i,
            n,
        ),
{
    let gap = setup.gap;
    let row = expected_row(setup, stamps, ends, rows, i, n);
    lemma_counts(gap, stamps, ends, i);
    lemma_number_bound(gap, stamps, ends, i);
    assert forall|j: int| 0 <= j < setup.sources.len() implies match #[trigger] setup.sources[j] {
        Source::SessionId => shows_number(
            row.cells[j],
            sessions_up_to(gap as int, stamps, ends, i),
        ),
        Source::Duration => forall|a: int, b: int|
            a <= i <= b && #[trigger] spans(gap as int, stamps, ends, n, a, b) ==> shows_time(
                row.cells[j],
                stamps[b] - stamps[a],
            ),
        Source::Kept(k) => row.cells[j] == rows[i].cells[k],
        Source::Nothing => row.cells[j] is None,
    } by {
        if setup.sources[j] is Duration {
            assert forall|a: int, b: int|
                a <= i <= b && #[trigger] spans(
                    gap as int,
                    stamps,
                    ends,
                    n,
                    a,
                    b,
                ) implies shows_time(row.cells[j], stamps[b] - stamps[a]) by {
                lemma_first(gap, stamps, ends, n, a, b, i);
                lemma_last(gap, stamps, ends, n, a, b, i);
                assert(session_time(gap, stamps, ends, i, n) == time_between(stamps[b], stamps[a]));
            }
        }
    }
}

/// Whether the first event that is one too many is event `e`.
pub open spec fn first_crowded(
    gap: int,
    limit: int,
    stamps: Seq<i64>,
    ends: Seq<bool>,
    e: int,
) -> bool {
    &&& 0 <= e
    &&& crowded(gap, limit, stamps, ends, e)
    &&& forall|i: int| 0 <= i < e ==> !#[trigger] crowded(gap, limit, stamps, ends, i)
}

/// Whether no event among the first `n` is one too many.
pub open spec fn none_crowded(
    gap: int,
    limit: int,
    stamps: Seq<i64>,
    ends: Seq<bool>,
    n: int,
) -> bool {
    forall|i: int| 0 <= i < n ==> !#[trigger] crowded(gap, limit, stamps, ends, i)
}

proof fn lemma_counted(
    setup: SessionSetup,
    stamps: Seq<i64>,
    ends: Seq<bool>,
    rows: Seq<RowCells>,
    n: int,
)
    requires
        0 <= n <= stamps.len() == ends.len() == rows.len(),
        setup.cap < usize::MAX || rows.len() <= usize::MAX,
        forall|i: int| 0 <= i < stamps.len() ==> (#[trigger] stamps[i]) > i64::MIN,
    ensures
        ({
            let m = after_events(setup, no_sessions(), stamps, ends, rows, n);
            &&& m.open.len() == m.count
            &&& m.open.len() <= n
            &&& m.open.len() > setup.cap ==> m.open.len() == 1
            &&& m.cap_exceeded == m.skipping
            &&& m.skipping ==> m.open.len() == 0 && m.start == i64::MIN
        }),
    decreases n,
{
    if n > 0 {
        lemma_counted(setup, stamps, ends, rows, n - 1);
    }
}

/// The state after some events: no event was one too many, or the first such event
/// ended what is shown.
proof fn lemma_limited(
    setup: SessionSetup,
    stamps: Seq<i64>,
    ends: Seq<bool>,
    rows: Seq<RowCells>,
    n: int,
)
    requires
        0 <= n <= stamps.len() == ends.len() == rows.len() < i64::MAX,
        setup.cap < usize::MAX || rows.len() <= usize::MAX,
        forall|i: int| 0 <= i < stamps.len() ==> (#[trigger] stamps[i]) > i64::MIN,
        comparable(setup.gap, stamps),
    ensures
        ({
            let m = after_events(setup, no_sessions(), stamps, ends, rows, n);
            let gap = setup.gap as int;
            let limit = setup.cap as int;
            if m.skipping {
                exists|e: int|
                    e < n && #[trigger] first_crowded(gap, limit, stamps, ends, e) && all_shown(
                        setup,
                        stamps,
                        ends,
                        rows,
                        m,
                        e + 1,
                    )
            } else {
                none_crowded(gap, limit, stamps, ends, n)
            }
        }),
    decreases n,
{
    let gap = setup.gap;
    let wide = gap as int;
    let limit = setup.cap as int;
    let m = after_events(setup, no_sessions(), stamps, ends, rows, n);
    if n > 0 {
        let m0 = after_events(setup, no_sessions(), stamps, ends, rows, n - 1);
        let row = rows[n - 1];
        let ts = stamps[n - 1];
        assert(m == after_event_row(setup, m0, ts, ends[n - 1], row));
        lemma_limited(setup, stamps, ends, rows, n - 1);
        lemma_counted(setup, stamps, ends, rows, n - 1);
        lemma_starts(gap, stamps, ends, n - 1);
        if m0.skipping {
            let e = choose|e: int|
                e < n - 1 && #[trigger] first_crowded(wide, limit, stamps, ends, e) && all_shown(
                    setup,
                    stamps,
                    ends,
                    rows,
                    m0,
                    e + 1,
                );
            assert(all_shown(setup, stamps, ends, rows, m, e + 1));
            assert(first_crowded(wide, limit, stamps, ends, e));
        } else {
            lemma_progress(setup, stamps, ends, rows, n - 1);
            let counted = SessionModel { events: one_event_more(m0.events), ..m0 };
            if m0.start == i64::MIN || time_between(ts, m0.last) > gap {
                assert(begins(gap, stamps, ends, n - 1));
                assert(!crowded(wide, limit, stamps, ends, n - 1)) by {
                    assert(starts(wide, stamps, ends, n - 1));
                }
                assert(!m.skipping);
            } else {
                let b0 = first_row(gap, stamps, ends, n - 2);
                assert(open_from(setup, stamps, ends, rows, counted, b0, n - 1));
                assert(!begins(gap, stamps, ends, n - 1));
                let more = continued(counted, ts, row);
                assert(more.open =~= rows.subrange(b0, n));
                lemma_in_session(gap, stamps, ends, b0, n - 1, n - 2);
                assert(one_session(gap, stamps, ends, b0, n));
                assert(open_from(setup, stamps, ends, rows, more, b0, n));
                assert forall|k: int| b0 < k <= n - 1 implies !#[trigger] starts(
                    wide,
                    stamps,
                    ends,
                    k,
                ) by {
                    lemma_starts(gap, stamps, ends, k);
                }
                lemma_starts(gap, stamps, ends, b0);
                assert(more.count == n - b0);
                if more.count > setup.cap {
                    lemma_close(setup, stamps, ends, rows, more, b0, n);
                    assert(crowded(wide, limit, stamps, ends, n - 1));
                    assert(first_crowded(wide, limit, stamps, ends, n - 1));
                    assert(all_shown(setup, stamps, ends, rows, m, n));
                } else {
                    assert(!crowded(wide, limit, stamps, ends, n - 1)) by {
                        assert(starts(wide, stamps, ends, b0));
                    }
                    assert(!m.skipping);
                }
            }
        }
    }
}

/// The rows shown of an entity are its events in their order, one row each, as long as
/// no event is one too many in its session, and else the events up to the first such
/// event. Every row shows its event among the events shown.
pub proof fn theorem_rows_shown(
    setup: SessionSetup,
    stamps: Seq<i64>,
    ends: Seq<bool>,
    rows: Seq<RowCells>,
)
    requires
        stamps.len() == ends.len() == rows.len() < i64::MAX,
        setup.cap < usize::MAX || rows.len() <= usize::MAX,
        forall|i: int| 0 <= i < stamps.len() ==> (#[trigger] stamps[i]) > i64::MIN,
        comparable(setup.gap, stamps),
    ensures
        ({
            let m = after_sub_batch(setup, no_sessions(), stamps, ends, rows);
            let done = after_entity(setup, m).done;
            let shown = flat_sessions(done, done.len() as int);
            let gap = setup.gap as int;
            let limit = setup.cap as int;
            let n = rows.len() as int;
            &&& if none_crowded(gap, limit, stamps, ends, n) {
                shown.len() == n && !m.cap_exceeded
            } else {
                &&& 0 < shown.len() <= n
                &&& first_crowded(gap, limit, stamps, ends, shown.len() - 1)
                &&& m.cap_exceeded
            }
            &&& forall|i: int|
                0 <= i < shown.len() ==> shows_event(
                    #[trigger] shown[i],
                    setup.sources,
                    gap,
                    stamps,
                    ends,
                    rows[i],
                    i,
                    shown.len() as int,
                )
        }),
{
    let n = rows.len() as int;
    let gap = setup.gap as int;
    let limit = setup.cap as int;
    let m = after_events(setup, no_sessions(), stamps, ends, rows, n);
    let done = after_entity(setup, m).done;
    let shown = flat_sessions(done, done.len() as int);
    lemma_limited(setup, stamps, ends, rows, n);
    lemma_counted(setup, stamps, ends, rows, n);
    let e = if m.skipping {
        (choose|e: int|
            e < n && #[trigger] first_crowded(gap, limit, stamps, ends, e) && all_shown(
                setup,
                stamps,
                ends,
                rows,
                m,
                e + 1,
            )) + 1
    } else {
        n
    };
    if m.skipping {
        assert(crowded(gap, limit, stamps, ends, e - 1));
        assert(!none_crowded(gap, limit, stamps, ends, n));
    } else {
        crate::session_laws::theorem_sessions(setup, stamps, ends, rows);
    }
    assert(shown == expected_rows(setup, stamps, ends, rows, e as nat));
    assert forall|i: int| 0 <= i < shown.len() implies shows_event(
        #[trigger] shown[i],
        setup.sources,
        gap,
        stamps,
        ends,
        rows[i],
        i,
        shown.len() as int,
    ) by {
        lemma_shows_event(setup, stamps, ends, rows, i, e);
    }
}

/// Whether a column is the first with a name.
pub open spec fn is_first(columns: Seq<ColumnView>, name: Seq<char>, c: int) -> bool {
    &&& 0 <= c < columns.len()
    &&& columns[c].name == name
    &&& forall|k: int| 0 <= k < c ==> (#[trigger] columns[k]).name != name
}

/// Whether a column of the result shows a column of the input that it may not leave
/// null: it is neither of the two that the operator adds nor one of the system.
pub open spec fn must_show(desc: &SessionizePhysical, j: int) -> bool {
    let c = desc.output_schema@[j];
    &&& !c.nullable
    &&& c.name != "session_id"@
    &&& c.name != "session_duration"@
    &&& !(c.name.len() >= 2 && c.name[0] == '_' && c.name[1] == '_')
    &&& exists|k: int|
        0 <= k < desc.input_schema@.len() && (#[trigger] desc.input_schema@[k]).name == c.name
}

/// Whether a column of the input is needed: it tells the entity, the time or, where there
/// are end types, the type of an event, it is wanted downstream, or the result may not
/// leave it null.
pub open spec fn is_needed(desc: &SessionizePhysical, name: Seq<char>) -> bool {
    ||| name == "entity_id"@
    ||| name == "ts"@
    ||| name == "event_type"@ && desc.end_events@.len() > 0
    ||| exists|k: int|
        0 <= k < desc.forwarded_columns@.len() && (#[trigger] desc.forwarded_columns@[k])@ == name
    ||| exists|j: int|
        0 <= j < desc.output_schema@.len() && #[trigger] must_show(desc, j)
            && desc.output_schema@[j].name == name
}

proof fn lemma_with_names(names: Seq<Seq<char>>, more: Seq<Seq<char>>, n: int, x: Seq<char>)
    requires
        0 <= n <= more.len(),
    ensures
        with_names(names, more, n).contains(x) == (names.contains(x) || exists|k: int|
            0 <= k < n && #[trigger] more[k] == x),
    decreases n,
{
    if n > 0 {
        lemma_with_names(names, more, n - 1, x);
        let before = with_names(names, more, n - 1);
        lemma_with_name(before, more[n - 1], x);
        let _ = more[n - 1];
    }
}

proof fn lemma_with_name(names: Seq<Seq<char>>, name: Seq<char>, x: Seq<char>)
    ensures
        with_name(names, name).contains(x) == (names.contains(x) || x == name),
{
    if !names.contains(name) {
        let all = names.push(name);
        assert(all[names.len() as int] == name);
        if names.contains(x) {
            let k = choose|k: int| 0 <= k < names.len() && names[k] == x;
            assert(all[k] == x);
        }
    }
}

proof fn lemma_must(desc: &SessionizePhysical, j: int)
    requires
        0 <= j < desc.output_schema@.len(),
    ensures
        crate::sessionize::must_keep(desc.input_schema@, desc.output_schema@[j]) == must_show(
            desc,
            j,
        ),
{
    let name = desc.output_schema@[j].name;
    reveal_strlit("__");
    lemma_column_position(desc.input_schema@, name, 0);
    if name.len() >= 2 && name[0] == '_' && name[1] == '_' {
        assert(name.take(2) =~= "__"@);
    }
    if crate::schema::is_system_name(name) {
        assert(name.take(2)[0] == "__"@[0]);
        assert(name.take(2)[1] == "__"@[1]);
    }
    if let Some(k) = column_position(desc.input_schema@, name, 0) {
        let _ = desc.input_schema@[k];
    }
}

proof fn lemma_with_kept(desc: &SessionizePhysical, names: Seq<Seq<char>>, n: int, x: Seq<char>)
    requires
        0 <= n <= desc.output_schema@.len(),
    ensures
        with_kept(names, desc.input_schema@, desc.output_schema@, n).contains(x) == (names.contains(
            x,
        ) || exists|j: int|
            0 <= j < n && #[trigger] must_show(desc, j) && desc.output_schema@[j].name == x),
    decreases n,
{
    if n > 0 {
        lemma_with_kept(desc, names, n - 1, x);
        lemma_must(desc, n - 1);
        let before = with_kept(names, desc.input_schema@, desc.output_schema@, n - 1);
        lemma_with_name(before, desc.output_schema@[n - 1].name, x);
        let _ = must_show(desc, n - 1);
    }
}

/// The columns that are kept are those that are needed.
pub proof fn theorem_kept(desc: &SessionizePhysical, name: Seq<char>)
    ensures
        kept_names(desc).contains(name) <==> is_needed(desc, name),
{
    let basic = if desc.end_events@.len() > 0 {
        seq!["entity_id"@, "ts"@, "event_type"@]
    } else {
        seq!["entity_id"@, "ts"@]
    };
    let more = text_views(desc.forwarded_columns@);
    let n = desc.forwarded_columns@.len() as int;
    let forwarded = with_names(basic, more, n);
    assert(basic[0] == "entity_id"@ && basic[1] == "ts"@);
    assert(desc.end_events@.len() > 0 ==> basic[2] == "event_type"@);
    lemma_with_names(basic, more, n, name);
    lemma_with_kept(desc, forwarded, desc.output_schema@.len() as int, name);
    assert forall|k: int| 0 <= k < n implies #[trigger] more[k] == desc.forwarded_columns@[k]@ by {}
    if exists|k: int| 0 <= k < n && #[trigger] more[k] == name {
        let k = choose|k: int| 0 <= k < n && #[trigger] more[k] == name;
        assert(desc.forwarded_columns@[k]@ == name);
    }
    if exists|k: int| 0 <= k < n && (#[trigger] desc.forwarded_columns@[k])@ == name {
        let k = choose|k: int| 0 <= k < n && (#[trigger] desc.forwarded_columns@[k])@ == name;
        assert(more[k] == name);
    }
}

proof fn lemma_name_position(names: Seq<Seq<char>>, name: Seq<char>, i: int)
    requires
        0 <= i,
    ensures
        match name_position(names, name, i) {
            Some(k) => i <= k < names.len() && names[k] == name,
            None => forall|k: int| i <= k < names.len() ==> #[trigger] names[k] != name,
        },
    decreases names.len() - i,
{
    if i < names.len() && names[i] != name {
        lemma_name_position(names, name, i + 1);
    }
}

proof fn lemma_first_position(columns: Seq<ColumnView>, name: Seq<char>, c: int)
    requires
        is_first(columns, name, c),
    ensures
        column_position(columns, name, 0) == Some(c),
{
    lemma_column_position(columns, name, 0);
    if let Some(k) = column_position(columns, name, 0) {
        let _ = columns[k];
        let _ = columns[c];
    }
}

/// Whether the operator reads names in a column of this type: text, or a dictionary of
/// text with 32-bit codes.
pub open spec fn has_names(t: DataType) -> bool {
    ||| type_kind(t) == DataKind::Utf8View
    ||| {
        &&& type_kind(t) == DataKind::DictInt32
        &&& entry_type(t) is Some
        &&& type_kind(entry_type(t)->0) == DataKind::Utf8View || type_kind(entry_type(t)->0)
            == DataKind::Utf8
    }
}

/// Whether a cell holds one of the end types.
pub open spec fn is_end(desc: &SessionizePhysical, cell: Option<CellView>) -> bool {
    cell matches Some(CellView::Str(s)) && exists|k: int|
        0 <= k < desc.end_events@.len() && (#[trigger] desc.end_events@[k])@ == s
}

/// Which events of a batch are end events, by the first column named `event_type`.
pub open spec fn end_events_of(desc: &SessionizePhysical, b: BatchView, types: int) -> Seq<bool> {
    Seq::new(
        b.rows,
        |i: int| desc.end_events@.len() > 0 && is_end(desc, b.columns[types].cells[i]),
    )
}

/// Whether a batch holds an entity's events: as many times as rows, all of them later
/// than the one that stands for "no event", and no more rows than can be counted.
pub open spec fn holds_events(b: BatchView, times: int) -> bool {
    &&& 0 <= times < b.columns.len()
    &&& b.columns[times].raw.len() == b.rows < i64::MAX
    &&& forall|i: int| 0 <= i < b.rows ==> (#[trigger] b.columns[times].raw[i]) > i64::MIN
}

/// Of the events of an entity, given in one batch, the operator shows in the first column
/// named `session_id` the number of the session, in the first one named
/// `session_duration` the time from the first to the last event of the session, in a
/// column whose name is needed the first column of the input with that name, where it
/// has the type of its schema, and nothing in every other column. The number of a session
/// grows with an event that follows an end event or comes more than the gap after the
/// event before. The rows are the events in their order, up to the first that is one too
/// many in its session.
pub proof fn theorem_entity_shown(
    op: SessionizeOperator,
    desc: &SessionizePhysical,
    cap: usize,
    b: BatchView,
    times: int,
    types: int,
)
    requires
        op.built_from(desc, cap),
        op.readable(b),
        is_first(desc.input_schema@, "ts"@, times),
        desc.end_events@.len() > 0 ==> is_first(desc.input_schema@, "event_type"@, types)
            && has_names(b.columns[types].data_type),
        holds_events(b, times),
        cap < usize::MAX || b.rows <= usize::MAX,
        comparable(desc.gap_ns, b.columns[times].raw),
    ensures
        ({
            let stamps = b.columns[times].raw;
            let ends = end_events_of(desc, b, types);
            let gap = desc.gap_ns as int;
            let output = desc.output_schema@;
            let input = desc.input_schema@;
            let m = after_sub_batch(
                op.setup(),
                no_sessions(),
                op.stamps(b),
                op.ends(b),
                op.kept_rows(b),
            );
            let shown = op.shown_rows(m);
            let n = shown.len() as int;
            &&& if none_crowded(gap, cap as int, stamps, ends, b.rows as int) {
                n == b.rows && !m.cap_exceeded
            } else {
                &&& 0 < n <= b.rows
                &&& first_crowded(gap, cap as int, stamps, ends, n - 1)
                &&& m.cap_exceeded
            }
            &&& forall|i: int, j: int|
                #![trigger shown[i].cells[j]]
                0 <= i < n && 0 <= j < output.len() ==> {
                    let cell = shown[i].cells[j];
                    if is_first(output, "session_id"@, j) {
                        shows_number(cell, sessions_up_to(gap, stamps, ends, i))
                    } else if is_first(output, "session_duration"@, j) {
                        forall|a: int, z: int|
                            a <= i <= z && #[trigger] spans(gap, stamps, ends, n, a, z)
                                ==> shows_time(cell, stamps[z] - stamps[a])
                    } else if is_needed(desc, output[j].name) {
                        forall|c: int| #[trigger]
                            is_first(input, output[j].name, c) && b.columns[c].data_type
                                == physical_type(input[c].bql_type) ==> cell
                                == b.columns[c].cells[i]
                    } else {
                        cell is None
                    }
                }
        }),
{
    let stamps = b.columns[times].raw;
    let ends = end_events_of(desc, b, types);
    let gap = desc.gap_ns as int;
    let output = desc.output_schema@;
    let input = desc.input_schema@;
    let names = kept_names(desc);
    let setup = op.setup();
    lemma_first_position(input, "ts"@, times);
    assert(op.stamps(b) == stamps);
    if desc.end_events@.len() > 0 {
        lemma_first_position(input, "event_type"@, types);
        assert forall|i: int| 0 <= i < b.rows implies #[trigger] ends[i] == op.ends(b)[i] by {
            lemma_end_cell(op, desc, b.columns[types].cells[i]);
        }
    }
    assert(op.ends(b) =~= ends);
    let rows = op.kept_rows(b);
    theorem_rows_shown(setup, stamps, ends, rows);
    let m = after_sub_batch(setup, no_sessions(), stamps, ends, rows);
    let shown = op.shown_rows(m);
    let n = shown.len() as int;
    assert forall|i: int, j: int|
        #![trigger shown[i].cells[j]]
        0 <= i < n && 0 <= j < output.len() implies {
        let cell = shown[i].cells[j];
        if is_first(output, "session_id"@, j) {
            shows_number(cell, sessions_up_to(gap, stamps, ends, i))
        } else if is_first(output, "session_duration"@, j) {
            forall|a: int, z: int|
                a <= i <= z && #[trigger] spans(gap, stamps, ends, n, a, z) ==> shows_time(
                    cell,
                    stamps[z] - stamps[a],
                )
        } else if is_needed(desc, output[j].name) {
            forall|c: int| #[trigger]
                is_first(input, output[j].name, c) && b.columns[c].data_type == physical_type(
                    input[c].bql_type,
                ) ==> cell == b.columns[c].cells[i]
        } else {
            cell is None
        }
    } by {
        let cell = shown[i].cells[j];
        assert(shows_event(shown[i], setup.sources, gap, stamps, ends, rows[i], i, n));
        assert(setup.sources[j] == source_of(desc, j));
        lemma_column_position(output, "session_id"@, 0);
        lemma_column_position(output, "session_duration"@, 0);
        if is_first(output, "session_id"@, j) {
            lemma_first_position(output, "session_id"@, j);
        } else if is_first(output, "session_duration"@, j) {
            lemma_first_position(output, "session_duration"@, j);
            reveal_strlit("session_id");
            reveal_strlit("session_duration");
            assert("session_id"@.len() != "session_duration"@.len());
        } else {
            let name = output[j].name;
            theorem_kept(desc, name);
            lemma_name_position(names, name, 0);
            assert(column_position(output, "session_id"@, 0) != Some(j));
            assert(column_position(output, "session_duration"@, 0) != Some(j));
            if is_needed(desc, name) {
                let k = name_position(names, name, 0)->0;
                assert(setup.sources[j] == Source::Kept(k));
                assert forall|c: int| #[trigger]
                    is_first(input, name, c) && b.columns[c].data_type == physical_type(
                        input[c].bql_type,
                    ) implies cell == b.columns[c].cells[i] by {
                    lemma_first_position(input, name, c);
                    assert(Some(op.buffered_indices@[k] as int) == Some(c));
                    assert(op.buffered_fields@[k] == kept_field(input, names[k]));
                    assert(op.kept_cells(b, k) == Some(b.columns[c].cells));
                    assert(rows[i].cells[k] == op.kept_columns(b)[k][i]);
                }
            }
        }
    }
}

proof fn lemma_end_cell(op: SessionizeOperator, desc: &SessionizePhysical, cell: Option<CellView>)
    requires
        forall|s: Seq<char>|
            text_views(op.end_events_list@).contains(s) <==> #[trigger] text_views(
                desc.end_events@,
            ).contains(s),
    ensures
        crate::sessionize::is_end_cell(cell, text_views(op.end_events_list@)) == is_end(desc, cell),
{
    let views = text_views(desc.end_events@);
    if let Some(CellView::Str(s)) = cell {
        if views.contains(s) {
            let k = choose|k: int| 0 <= k < views.len() && views[k] == s;
            assert(desc.end_events@[k]@ == s);
        }
        if is_end(desc, cell) {
            let k = choose|k: int|
                0 <= k < desc.end_events@.len() && (#[trigger] desc.end_events@[k])@ == s;
            assert(views[k] == s);
        }
    }
}

/// The operator keeps a column of the input for each needed name: the first of that name,
/// with its type, and null where the column may be. It reads times in the first column
/// named `ts` and, where there are end events, types in the first named `event_type`.
pub proof fn theorem_buffered(
    op: SessionizeOperator,
    desc: &SessionizePhysical,
    cap: usize,
    k: int,
    c: int,
)
    requires
        op.built_from(desc, cap),
        0 <= k < op.required_column_names@.len(),
    ensures
        op.buffered_fields@.len() == op.required_column_names@.len(),
        is_first(desc.input_schema@, op.required_column_names@[k]@, c) ==> {
            let f = op.buffered_fields@[k];
            &&& op.buffered_indices@[k] == c
            &&& f.name == op.required_column_names@[k]@
            &&& f.data_type == physical_type(desc.input_schema@[c].bql_type)
            &&& f.nullable == desc.input_schema@[c].nullable
        },
        is_first(desc.input_schema@, "ts"@, c) ==> op.ts_idx == c,
        is_first(desc.input_schema@, "event_type"@, c) && desc.end_events@.len() > 0
            ==> op.event_type_idx == Some(c as usize),
        desc.end_events@.len() == 0 ==> op.event_type_idx is None,
        op.gap_ns == desc.gap_ns,
        op.session_event_cap == cap,
        is_needed(desc, op.required_column_names@[k]@),
{
    let names = kept_names(desc);
    let name = op.required_column_names@[k]@;
    assert(text_views(op.required_column_names@)[k] == name);
    assert(names[k] == name);
    theorem_kept(desc, name);
    assert(names.contains(name));
    assert(op.buffered_fields@[k] == kept_field(desc.input_schema@, names[k]));
    assert(op.setup().gap == desc.gap_ns && op.setup().cap == cap);
    if is_first(desc.input_schema@, name, c) {
        lemma_first_position(desc.input_schema@, name, c);
        assert(Some(op.buffered_indices@[k] as int) == column_position(
            desc.input_schema@,
            names[k],
            0,
        ));
    }
    if is_first(desc.input_schema@, "ts"@, c) {
        lemma_first_position(desc.input_schema@, "ts"@, c);
    }
    if is_first(desc.input_schema@, "event_type"@, c) {
        lemma_first_position(desc.input_schema@, "event_type"@, c);
    }
}

} // verus!
