//! What holds of the sessions of an entity.
//!
//! The events of an entity fall into sessions at the rows where one begins: the
//! first row, a row after an end event, and a row after a gap. The theorems
//! below say that the sessionize operator shows every event once, in order, with
//! the number of its session and the session's duration. They are about events
//! later than `i64::MIN`, the time that stands for "no event".

use arrow::datatypes::DataType;
use vstd::prelude::*;

use crate::columnar::{ArrayView, BatchView, DataKind, cast_cell, cast_cells, is_sure, type_kind,
    unpacked_view};
use crate::sessionize::{RowCells, SessionModel, SessionSetup, SessionizeOperator, after_entity,
    after_event_row, after_events, after_sub_batch, begun, closed, continued, flat_sessions,
    more_events, no_sessions, one_event_more, shown_row, shown_session, time_between};

verus! {

/// Whether a session begins at row `i`.
pub open spec fn begins(gap: i64, stamps: Seq<i64>, ends: Seq<bool>, i: int) -> bool {
    i == 0 || ends[i - 1] || time_between(stamps[i], stamps[i - 1]) > gap
}

/// The number of the session of row `i`, counted from 1.
pub open spec fn session_number(gap: i64, stamps: Seq<i64>, ends: Seq<bool>, i: int) -> nat
    decreases i + 1,
{
    if i < 0 {
        0
    } else if begins(gap, stamps, ends, i) {
        session_number(gap, stamps, ends, i - 1) + 1
    } else {
        session_number(gap, stamps, ends, i - 1)
    }
}

/// The first row of the session of row `i`.
pub open spec fn first_row(gap: i64, stamps: Seq<i64>, ends: Seq<bool>, i: int) -> int
    decreases i,
{
    if i <= 0 || begins(gap, stamps, ends, i) {
        i
    } else {
        first_row(gap, stamps, ends, i - 1)
    }
}

/// The last row, among the first `n`, of the session of row `i`.
pub open spec fn last_row(gap: i64, stamps: Seq<i64>, ends: Seq<bool>, i: int, n: int) -> int
    decreases n - i,
{
    if i + 1 >= n || begins(gap, stamps, ends, i + 1) {
        i
    } else {
        last_row(gap, stamps, ends, i + 1, n)
    }
}

/// The duration of the session of row `i` among the first `n` rows.
pub open spec fn session_time(gap: i64, stamps: Seq<i64>, ends: Seq<bool>, i: int, n: int) -> i64 {
    time_between(
        stamps[last_row(gap, stamps, ends, i, n)],
        stamps[first_row(gap, stamps, ends, i)],
    )
}

/// How row `i` of `n` is shown.
pub open spec fn expected_row(
    setup: SessionSetup,
    stamps: Seq<i64>,
    ends: Seq<bool>,
    rows: Seq<RowCells>,
    i: int,
    n: int,
) -> RowCells {
    shown_row(
        setup.sources,
        session_number(setup.gap, stamps, ends, i) as i64,
        session_time(setup.gap, stamps, ends, i, n),
        rows[i],
    )
}

/// How `n` rows are shown.
pub open spec fn expected_rows(
    setup: SessionSetup,
    stamps: Seq<i64>,
    ends: Seq<bool>,
    rows: Seq<RowCells>,
    n: nat,
) -> Seq<RowCells> {
    Seq::new(n, |i: int| expected_row(setup, stamps, ends, rows, i, n as int))
}

/// The rows from `b` to before `e` are one session.
pub open spec fn one_session(gap: i64, stamps: Seq<i64>, ends: Seq<bool>, b: int, e: int) -> bool {
    &&& 0 <= b < e
    &&& begins(gap, stamps, ends, b)
    &&& forall|i: int| b < i < e ==> !#[trigger] begins(gap, stamps, ends, i)
}

proof fn lemma_first_row(gap: i64, stamps: Seq<i64>, ends: Seq<bool>, i: int)
    requires
        0 <= i,
    ensures
        one_session(gap, stamps, ends, first_row(gap, stamps, ends, i), i + 1),
    decreases i,
{
    if !begins(gap, stamps, ends, i) {
        lemma_first_row(gap, stamps, ends, i - 1);
    }
}

pub proof fn lemma_in_session(gap: i64, stamps: Seq<i64>, ends: Seq<bool>, b: int, e: int, i: int)
    requires
        one_session(gap, stamps, ends, b, e),
        b <= i < e,
    ensures
        first_row(gap, stamps, ends, i) == b,
        session_number(gap, stamps, ends, i) == session_number(gap, stamps, ends, b),
    decreases i,
{
    if i > b {
        assert(!begins(gap, stamps, ends, i));
        lemma_in_session(gap, stamps, ends, b, e, i - 1);
    }
}

proof fn lemma_last_in_session(
    gap: i64,
    stamps: Seq<i64>,
    ends: Seq<bool>,
    b: int,
    e: int,
    i: int,
)
    requires
        one_session(gap, stamps, ends, b, e),
        b <= i < e,
    ensures
        last_row(gap, stamps, ends, i, e) == e - 1,
    decreases e - i,
{
    if i + 1 < e {
        assert(!begins(gap, stamps, ends, i + 1));
        lemma_last_in_session(gap, stamps, ends, b, e, i + 1);
    }
}

proof fn lemma_last_row_stable(
    gap: i64,
    stamps: Seq<i64>,
    ends: Seq<bool>,
    i: int,
    b: int,
    e: int,
)
    requires
        0 <= i < b <= e,
        begins(gap, stamps, ends, b),
    ensures
        last_row(gap, stamps, ends, i, b) == last_row(gap, stamps, ends, i, e),
    decreases b - i,
{
    if i + 1 < b && !begins(gap, stamps, ends, i + 1) {
        lemma_last_row_stable(gap, stamps, ends, i + 1, b, e);
    }
}

pub proof fn lemma_number_bound(gap: i64, stamps: Seq<i64>, ends: Seq<bool>, i: int)
    requires
        -1 <= i,
    ensures
        session_number(gap, stamps, ends, i) <= i + 1,
        i >= 0 ==> session_number(gap, stamps, ends, i) >= 1,
    decreases i + 1,
{
    if i >= 0 {
        lemma_number_bound(gap, stamps, ends, i - 1);
    }
}

/// The open session of an entity reaches from row `b` to before row `e`.
pub open spec fn open_from(
    setup: SessionSetup,
    stamps: Seq<i64>,
    ends: Seq<bool>,
    rows: Seq<RowCells>,
    m: SessionModel,
    b: int,
    e: int,
) -> bool {
    &&& one_session(setup.gap, stamps, ends, b, e)
    &&& m.open == rows.subrange(b, e)
    &&& m.start == stamps[b]
    &&& m.last == stamps[e - 1]
    &&& m.session_id == session_number(setup.gap, stamps, ends, b)
    &&& flat_sessions(m.done, m.done.len() as int) == expected_rows(
        setup,
        stamps,
        ends,
        rows,
        b as nat,
    )
}

/// Every row before row `e` is shown.
pub open spec fn all_shown(
    setup: SessionSetup,
    stamps: Seq<i64>,
    ends: Seq<bool>,
    rows: Seq<RowCells>,
    m: SessionModel,
    e: int,
) -> bool {
    &&& m.open.len() == 0
    &&& m.session_id == session_number(setup.gap, stamps, ends, e - 1) + 1
    &&& flat_sessions(m.done, m.done.len() as int) == expected_rows(
        setup,
        stamps,
        ends,
        rows,
        e as nat,
    )
}

proof fn lemma_flat_push(sessions: Seq<Seq<RowCells>>, s: Seq<RowCells>)
    ensures
        flat_sessions(sessions.push(s), sessions.len() as int + 1) == flat_sessions(
            sessions,
            sessions.len() as int,
        ) + s,
{
    lemma_flat_prefix(sessions.push(s), sessions, sessions.len() as int);
}

proof fn lemma_flat_prefix(a: Seq<Seq<RowCells>>, b: Seq<Seq<RowCells>>, n: int)
    requires
        n <= a.len(),
        n <= b.len(),
        forall|i: int| 0 <= i < n ==> #[trigger] a[i] == b[i],
    ensures
        flat_sessions(a, n) == flat_sessions(b, n),
    decreases n,
{
    if n > 0 {
        lemma_flat_prefix(a, b, n - 1);
        assert(a[n - 1] == b[n - 1]);
    }
}

pub proof fn lemma_close(
    setup: SessionSetup,
    stamps: Seq<i64>,
    ends: Seq<bool>,
    rows: Seq<RowCells>,
    m: SessionModel,
    b: int,
    e: int,
)
    requires
        open_from(setup, stamps, ends, rows, m, b, e),
        e <= stamps.len() == ends.len() == rows.len() < i64::MAX,
    ensures
        all_shown(setup, stamps, ends, rows, closed(setup, m), e),
{
    let gap = setup.gap;
    let d = time_between(m.last, m.start);
    let shown = shown_session(setup.sources, m.session_id, d, m.open);
    let before = expected_rows(setup, stamps, ends, rows, b as nat);
    let after = expected_rows(setup, stamps, ends, rows, e as nat);
    lemma_number_bound(gap, stamps, ends, b);
    lemma_in_session(gap, stamps, ends, b, e, e - 1);
    lemma_flat_push(m.done, shown);
    assert(closed(setup, m).done == m.done.push(shown));
    assert forall|i: int| 0 <= i < e implies after[i] == (before + shown)[i] by {
        if i < b {
            lemma_last_row_stable(gap, stamps, ends, i, b, e);
            assert(before[i] == expected_row(setup, stamps, ends, rows, i, b));
        } else {
            lemma_in_session(gap, stamps, ends, b, e, i);
            lemma_last_in_session(gap, stamps, ends, b, e, i);
            assert(m.open[i - b] == rows[i]);
            assert(shown[i - b] == shown_row(setup.sources, m.session_id, d, rows[i]));
        }
    }
    assert(after =~= before + shown);
}

/// The state after some rows: every row is shown, or the open session reaches to
/// the last row.
pub proof fn lemma_progress(
    setup: SessionSetup,
    stamps: Seq<i64>,
    ends: Seq<bool>,
    rows: Seq<RowCells>,
    n: int,
)
    requires
        0 <= n <= stamps.len() == ends.len() == rows.len() < i64::MAX,
        forall|i: int| 0 <= i < stamps.len() ==> (#[trigger] stamps[i]) > i64::MIN,
        !after_events(setup, no_sessions(), stamps, ends, rows, n).skipping,
    ensures
        ({
            let m = after_events(setup, no_sessions(), stamps, ends, rows, n);
            if n == 0 || ends[n - 1] {
                m.start == i64::MIN && all_shown(setup, stamps, ends, rows, m, n)
            } else {
                m.start != i64::MIN && open_from(
                    setup,
                    stamps,
                    ends,
                    rows,
                    m,
                    first_row(setup.gap, stamps, ends, n - 1),
                    n,
                )
            }
        }),
    decreases n,
{
    let gap = setup.gap;
    let m = after_events(setup, no_sessions(), stamps, ends, rows, n);
    if n == 0 {
        assert(flat_sessions(m.done, 0) =~= expected_rows(setup, stamps, ends, rows, 0));
    } else {
        let m0 = after_events(setup, no_sessions(), stamps, ends, rows, n - 1);
        let row = rows[n - 1];
        let ts = stamps[n - 1];
        assert(m == after_event_row(setup, m0, ts, ends[n - 1], row));
        assert(!m0.skipping);
        lemma_progress(setup, stamps, ends, rows, n - 1);
        lemma_first_row(gap, stamps, ends, n - 1);
        lemma_number_bound(gap, stamps, ends, n - 1);
        lemma_number_bound(gap, stamps, ends, n - 2);
        let counted = SessionModel { events: one_event_more(m0.events), ..m0 };
        let b = first_row(gap, stamps, ends, n - 1);
        let opened = if m0.start == i64::MIN {
            begun(counted, ts, row)
        } else if time_between(ts, m0.last) > gap {
            begun(closed(setup, counted), ts, row)
        } else {
            continued(counted, ts, row)
        };
        if m0.start == i64::MIN {
            assert(begins(gap, stamps, ends, n - 1));
            assert(opened.open =~= rows.subrange(n - 1, n));
        } else {
            let b0 = first_row(gap, stamps, ends, n - 2);
            assert(open_from(setup, stamps, ends, rows, counted, b0, n - 1));
            lemma_in_session(gap, stamps, ends, b0, n - 1, n - 2);
            if time_between(ts, m0.last) > gap {
                lemma_close(setup, stamps, ends, rows, counted, b0, n - 1);
                assert(begins(gap, stamps, ends, n - 1));
                assert(opened.open =~= rows.subrange(n - 1, n));
            } else {
                assert(!begins(gap, stamps, ends, n - 1));
                assert(b == b0);
                assert(opened.open =~= rows.subrange(b, n));
            }
        }
        assert(open_from(setup, stamps, ends, rows, opened, b, n));
        if ends[n - 1] {
            lemma_close(setup, stamps, ends, rows, opened, b, n);
        }
    }
}

/// Every event of an entity is shown exactly once and in order, with the number
/// of its session and the session's duration, as long as no session has too many
/// events.
pub proof fn theorem_sessions(
    setup: SessionSetup,
    stamps: Seq<i64>,
    ends: Seq<bool>,
    rows: Seq<RowCells>,
)
    requires
        stamps.len() == ends.len() == rows.len() < i64::MAX,
        forall|i: int| 0 <= i < stamps.len() ==> (#[trigger] stamps[i]) > i64::MIN,
        !after_sub_batch(setup, no_sessions(), stamps, ends, rows).skipping,
    ensures
        ({
            let done = after_entity(
                setup,
                after_sub_batch(setup, no_sessions(), stamps, ends, rows),
            ).done;
            flat_sessions(done, done.len() as int) == expected_rows(
                setup,
                stamps,
                ends,
                rows,
                rows.len(),
            )
        }),
{
    let n = rows.len() as int;
    let m = after_events(setup, no_sessions(), stamps, ends, rows, n);
    lemma_progress(setup, stamps, ends, rows, n);
    if n > 0 && !ends[n - 1] {
        lemma_close(
            setup,
            stamps,
            ends,
            rows,
            m,
            first_row(setup.gap, stamps, ends, n - 1),
            n,
        );
    }
}

/// Session numbers start at 1 and grow by 1, at the rows after an end event and
/// after a gap. Two neighbouring events of one session are not farther apart than
/// the gap, and an end event is the last of its session.
pub proof fn theorem_session_numbers(gap: i64, stamps: Seq<i64>, ends: Seq<bool>)
    ensures
        session_number(gap, stamps, ends, 0) == 1,
        forall|i: int|
            0 <= i ==> #[trigger] session_number(gap, stamps, ends, i + 1) == session_number(
                gap,
                stamps,
                ends,
                i,
            ) + (if ends[i] || time_between(stamps[i + 1], stamps[i]) > gap {
                1int
            } else {
                0int
            }),
{
    assert(session_number(gap, stamps, ends, -1) == 0);
    assert(begins(gap, stamps, ends, 0));
    assert forall|i: int| 0 <= i implies #[trigger] session_number(gap, stamps, ends, i + 1)
        == session_number(gap, stamps, ends, i) + (if ends[i] || time_between(
        stamps[i + 1],
        stamps[i],
    ) > gap {
        1int
    } else {
        0int
    }) by {
        assert(begins(gap, stamps, ends, i + 1) == (ends[i] || time_between(
            stamps[i + 1],
            stamps[i],
        ) > gap));
    }
}

/// The events of one session share its first and its last row, and so its
/// duration.
pub proof fn theorem_one_duration(
    gap: i64,
    stamps: Seq<i64>,
    ends: Seq<bool>,
    i: int,
    j: int,
    n: int,
)
    requires
        0 <= i <= j < n,
        session_number(gap, stamps, ends, i) == session_number(gap, stamps, ends, j),
    ensures
        first_row(gap, stamps, ends, i) == first_row(gap, stamps, ends, j),
        last_row(gap, stamps, ends, i, n) == last_row(gap, stamps, ends, j, n),
        session_time(gap, stamps, ends, i, n) == session_time(gap, stamps, ends, j, n),
    decreases j - i,
{
    if i < j {
        lemma_number_monotone(gap, stamps, ends, i + 1, j);
        lemma_number_monotone(gap, stamps, ends, i, i + 1);
        assert(!begins(gap, stamps, ends, i + 1));
        theorem_one_duration(gap, stamps, ends, i + 1, j, n);
    }
}

proof fn lemma_number_monotone(gap: i64, stamps: Seq<i64>, ends: Seq<bool>, i: int, j: int)
    requires
        -1 <= i <= j,
    ensures
        session_number(gap, stamps, ends, i) <= session_number(gap, stamps, ends, j),
    decreases j - i,
{
    if i < j {
        lemma_number_monotone(gap, stamps, ends, i, j - 1);
    }
}

proof fn lemma_events_append(
    setup: SessionSetup,
    m: SessionModel,
    stamps: Seq<i64>,
    ends: Seq<bool>,
    rows: Seq<RowCells>,
    more_stamps: Seq<i64>,
    more_ends: Seq<bool>,
    more_rows: Seq<RowCells>,
    n: int,
)
    requires
        stamps.len() == ends.len() == rows.len(),
        more_stamps.len() == more_ends.len() == more_rows.len(),
        0 <= n <= rows.len() + more_rows.len(),
    ensures
        after_events(
            setup,
            m,
            stamps + more_stamps,
            ends + more_ends,
            rows + more_rows,
            n,
        ) == (if n <= rows.len() {
            after_events(setup, m, stamps, ends, rows, n)
        } else {
            after_events(
                setup,
                after_events(setup, m, stamps, ends, rows, rows.len() as int),
                more_stamps,
                more_ends,
                more_rows,
                n - rows.len(),
            )
        }),
    decreases n,
{
    if n > 0 {
        lemma_events_append(
            setup,
            m,
            stamps,
            ends,
            rows,
            more_stamps,
            more_ends,
            more_rows,
            n - 1,
        );
        let k = rows.len() as int;
        if n <= k {
            assert((stamps + more_stamps)[n - 1] == stamps[n - 1]);
            assert((ends + more_ends)[n - 1] == ends[n - 1]);
            assert((rows + more_rows)[n - 1] == rows[n - 1]);
        } else {
            let middle = after_events(setup, m, stamps, ends, rows, k);
            assert((stamps + more_stamps)[n - 1] == more_stamps[n - k - 1]);
            assert((ends + more_ends)[n - 1] == more_ends[n - k - 1]);
            assert((rows + more_rows)[n - 1] == more_rows[n - k - 1]);
            assert(after_events(setup, middle, more_stamps, more_ends, more_rows, 0) == middle);
        }
    }
}

/// It makes no difference how the events of an entity are divided into
/// sub-batches.
pub proof fn theorem_split(
    setup: SessionSetup,
    m: SessionModel,
    stamps: Seq<i64>,
    ends: Seq<bool>,
    rows: Seq<RowCells>,
    more_stamps: Seq<i64>,
    more_ends: Seq<bool>,
    more_rows: Seq<RowCells>,
)
    requires
        stamps.len() == ends.len() == rows.len(),
        more_stamps.len() == more_ends.len() == more_rows.len(),
    ensures
        after_sub_batch(
            setup,
            after_sub_batch(setup, m, stamps, ends, rows),
            more_stamps,
            more_ends,
            more_rows,
        ) == after_sub_batch(
            setup,
            m,
            stamps + more_stamps,
            ends + more_ends,
            rows + more_rows,
        ),
{
    lemma_events_append(
        setup,
        m,
        stamps,
        ends,
        rows,
        more_stamps,
        more_ends,
        more_rows,
        (rows + more_rows).len() as int,
    );
    if more_rows.len() == 0 {
        assert(rows + more_rows =~= rows);
    }
}

/// Whether a batch is two others, one after the other.
pub open spec fn is_split(b: BatchView, first: BatchView, second: BatchView) -> bool {
    &&& b.columns.len() == first.columns.len() == second.columns.len()
    &&& b.rows == first.rows + second.rows
    &&& forall|c: int|
        0 <= c < b.columns.len() ==> is_column_split(
            #[trigger] b.columns[c],
            first.columns[c],
            first.rows,
            second.columns[c],
            second.rows,
        )
}

/// Whether a column is two others, one after the other.
pub open spec fn is_column_split(
    a: ArrayView,
    first: ArrayView,
    first_rows: nat,
    second: ArrayView,
    second_rows: nat,
) -> bool {
    &&& first.data_type == a.data_type
    &&& second.data_type == a.data_type
    &&& first.cells.len() == first_rows
    &&& second.cells.len() == second_rows
    &&& a.cells == first.cells + second.cells
    &&& type_kind(a.data_type) == DataKind::TimestampNs ==> {
        &&& first.raw.len() == first_rows
        &&& second.raw.len() == second_rows
        &&& a.raw == first.raw + second.raw
    }
}

/// The entity after a sub-batch.
pub open spec fn after_batch(
    op: SessionizeOperator,
    m: SessionModel,
    b: BatchView,
) -> SessionModel {
    after_sub_batch(op.setup(), m, op.stamps(b), op.ends(b), op.kept_rows(b))
}

/// The conversion of two parts is that of the whole.
proof fn lemma_cast_split(a: ArrayView, x: ArrayView, y: ArrayView, t: DataType)
    requires
        x.data_type == a.data_type,
        y.data_type == a.data_type,
        a.cells == x.cells + y.cells,
        cast_cells(a, t) is Some,
    ensures
        cast_cells(x, t) is Some,
        cast_cells(y, t) is Some,
        cast_cells(x, t)->0.len() == x.cells.len(),
        cast_cells(y, t)->0.len() == y.cells.len(),
        cast_cells(a, t)->0 == cast_cells(x, t)->0 + cast_cells(y, t)->0,
{
    let n = x.cells.len() as int;
    assert forall|i: int| 0 <= i < x.cells.len() implies cast_cell(
        a.data_type,
        #[trigger] x.cells[i],
        t,
    ) is Some && cast_cell(a.data_type, x.cells[i], t) == cast_cell(
        a.data_type,
        a.cells[i],
        t,
    ) by {
        assert(a.cells[i] == x.cells[i]);
    }
    assert forall|i: int| 0 <= i < y.cells.len() implies cast_cell(
        a.data_type,
        #[trigger] y.cells[i],
        t,
    ) is Some && cast_cell(a.data_type, y.cells[i], t) == cast_cell(
        a.data_type,
        a.cells[n + i],
        t,
    ) by {
        assert(a.cells[n + i] == y.cells[i]);
    }
    assert(cast_cells(a, t)->0 =~= cast_cells(x, t)->0 + cast_cells(y, t)->0);
}

/// A kept column of a batch is kept of its two parts.
proof fn lemma_kept_split(
    op: SessionizeOperator,
    b: BatchView,
    first: BatchView,
    second: BatchView,
    k: int,
)
    requires
        is_split(b, first, second),
        0 <= k < op.buffered_indices@.len(),
        op.buffered_indices@[k] < b.columns.len(),
        op.kept_cells(b, k) is Some,
    ensures
        op.kept_cells(first, k) is Some,
        op.kept_cells(second, k) is Some,
        op.kept_cells(first, k)->0.len() == first.rows,
        op.kept_cells(second, k)->0.len() == second.rows,
        op.kept_cells(b, k)->0 == op.kept_cells(first, k)->0 + op.kept_cells(second, k)->0,
{
    let c = op.buffered_indices@[k] as int;
    let t = op.buffered_fields@[k].data_type;
    let a = b.columns[c];
    let x = first.columns[c];
    let y = second.columns[c];
    if a.data_type != t {
        if is_sure(a.data_type, t) {
            lemma_cast_split(a, x, y, t);
        } else {
            let (p, q, r) = (unpacked_view(a), unpacked_view(x), unpacked_view(y));
            assert(p.cells =~= q.cells + r.cells);
            lemma_cast_split(p, q, r, t);
        }
    }
}

/// It makes no difference how a batch of an entity's events is divided into
/// sub-batches, either of which may be empty: the entity is the same after the parts as
/// after the whole, and so are the rows that are shown of it.
pub proof fn theorem_batch_split(
    op: SessionizeOperator,
    m: SessionModel,
    b: BatchView,
    first: BatchView,
    second: BatchView,
)
    requires
        op.wf(),
        b.rows == 0 || op.readable(b),
        is_split(b, first, second),
    ensures
        after_batch(op, after_batch(op, m, first), second) == after_batch(op, m, b),
{
    let rows = op.kept_rows(first);
    let more = op.kept_rows(second);
    let whole = op.kept_rows(b);
    if b.rows > 0 {
        assert forall|i: int| 0 <= i < b.rows implies whole[i] == (rows + more)[i] by {
            let part = (rows + more)[i];
            assert forall|k: int| 0 <= k < op.buffered_fields@.len() implies whole[i].cells[k]
                == part.cells[k] by {
                let _ = op.buffered_indices@[k];
                lemma_kept_split(op, b, first, second, k);
            }
            assert(whole[i].cells =~= part.cells);
        }
        assert(whole =~= rows + more);
        assert(op.ends(b) =~= op.ends(first) + op.ends(second)) by {
            if let Some(c) = op.event_type_idx {
                let a = b.columns[c as int];
                assert(a.cells == first.columns[c as int].cells + second.columns[c as int].cells);
            }
        }
        let _ = b.columns[op.ts_idx as int];
        assert(op.stamps(b) == op.stamps(first) + op.stamps(second));
        theorem_split(
            op.setup(),
            m,
            op.stamps(first),
            op.ends(first),
            rows,
            op.stamps(second),
            op.ends(second),
            more,
        );
    }
}

/// The largest number of events that a session is shown with.
pub open spec fn largest_session(cap: usize) -> nat {
    if cap == 0 {
        2
    } else {
        (cap + 1) as nat
    }
}

proof fn lemma_sizes(
    setup: SessionSetup,
    stamps: Seq<i64>,
    ends: Seq<bool>,
    rows: Seq<RowCells>,
    n: int,
)
    requires
        0 <= n <= stamps.len() == ends.len() == rows.len(),
        setup.cap < usize::MAX,
        forall|i: int| 0 <= i < stamps.len() ==> (#[trigger] stamps[i]) > i64::MIN,
    ensures
        ({
            let m = after_events(setup, no_sessions(), stamps, ends, rows, n);
            &&& m.open.len() == m.count
            &&& m.start == i64::MIN <==> m.open.len() == 0
            &&& m.open.len() < largest_session(setup.cap)
            &&& forall|k: int|
                0 <= k < m.done.len() ==> 1 <= (#[trigger] m.done[k]).len() <= largest_session(
                    setup.cap,
                )
        }),
    decreases n,
{
    if n > 0 {
        lemma_sizes(setup, stamps, ends, rows, n - 1);
    }
}

/// No session is shown with more than one event over the limit (or two, where the
/// limit is 0), and none without events.
pub proof fn theorem_session_sizes(
    setup: SessionSetup,
    stamps: Seq<i64>,
    ends: Seq<bool>,
    rows: Seq<RowCells>,
)
    requires
        stamps.len() == ends.len() == rows.len(),
        setup.cap < usize::MAX,
        forall|i: int| 0 <= i < stamps.len() ==> (#[trigger] stamps[i]) > i64::MIN,
    ensures
        ({
            let done = after_entity(
                setup,
                after_sub_batch(setup, no_sessions(), stamps, ends, rows),
            ).done;
            forall|k: int|
                0 <= k < done.len() ==> 1 <= (#[trigger] done[k]).len() <= largest_session(
                    setup.cap,
                )
        }),
{
    lemma_sizes(setup, stamps, ends, rows, rows.len() as int);
}

/// Every event of an entity is counted, up to the largest number, also after a session
/// had too many events.
pub proof fn theorem_every_event_counted(
    setup: SessionSetup,
    m: SessionModel,
    stamps: Seq<i64>,
    ends: Seq<bool>,
    rows: Seq<RowCells>,
    n: int,
)
    requires
        0 <= n <= rows.len(),
    ensures
        after_events(setup, m, stamps, ends, rows, n).events == more_events(m.events, n as nat),
    decreases n,
{
    if n > 0 {
        theorem_every_event_counted(setup, m, stamps, ends, rows, n - 1);
    }
}

} // verus!
