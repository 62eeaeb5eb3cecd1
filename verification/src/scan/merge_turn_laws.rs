//! When a merge pulls, returns a batch and ends, and which sources it accepts.

use vstd::prelude::*;

use super::merge_order::{RowKey, has_head, least, lemma_least};
use super::merge_sources::{MergeAction, MergeSourcesOperator, SetupFault, SetupView, SubSource,
    all_ready, first_failure, first_missing, first_needing, first_unordered, pick_views, settled,
    setup_fault, stepped};
use crate::error::BqliteError;
use crate::schema::{BqlType, ColumnView, column_position, lemma_column_position};

verus! {

/// Whether a source has come to its end and all its rows have been taken.
pub open spec fn is_spent(s: SubSource) -> bool {
    s.exhausted && s.cursor >= s.rows().len()
}

proof fn lemma_settled(
    tables: Seq<Seq<RowKey>>,
    done: Seq<bool>,
    pos: Seq<int>,
    picks: Seq<(int, int)>,
    target: nat,
)
    ensures
        ({
            let (p, more) = settled(tables, done, pos, picks, target);
            ||| more.len() >= target
            ||| !all_ready(tables, done, p)
            ||| least(tables, p, tables.len() as int) is None
        }),
    decreases target - picks.len(),
{
    if picks.len() < target && all_ready(tables, done, pos) {
        match least(tables, pos, tables.len() as int) {
            Some(k) => {
                lemma_settled(
                    tables,
                    done,
                    pos.update(k, pos[k] + 1),
                    picks.push((k, pos[k])),
                    target,
                );
            },
            None => {},
        }
    }
}

proof fn lemma_first_needing(subs: Seq<SubSource>, i: int)
    requires
        0 <= i,
    ensures
        match first_needing(subs, i) {
            Some(k) => i <= k < subs.len() && subs[k].needs_batch() && forall|j: int|
                i <= j < k ==> !(#[trigger] subs[j]).needs_batch(),
            None => forall|j: int| i <= j < subs.len() ==> !(#[trigger] subs[j]).needs_batch(),
        },
    decreases subs.len() - i,
{
    if i < subs.len() && !subs[i].needs_batch() {
        lemma_first_needing(subs, i + 1);
    }
}

/// A merge returns a batch only where the batch is full, where a source has run out of rows
/// and its next batch waits, or where every source has come to its end. It asks a source
/// for a batch only where the source has run out of rows, is not at its end and has no batch
/// waiting, while the batch to return is not full. It ends only where nothing is left to
/// return and every source has come to its end.
pub proof fn theorem_turn(
    before: MergeSourcesOperator,
    after: MergeSourcesOperator,
    action: MergeAction,
)
    requires
        before.wf(),
        stepped(before, after, action),
    ensures
        after.picks@.len() <= after.batch_target_rows,
        match action {
            MergeAction::Pull(i) => {
                let s = after.subs@[i as int];
                &&& i < after.subs@.len()
                &&& after.picks@.len() < after.batch_target_rows
                &&& !s.exhausted && s.pending is None && s.cursor == s.rows().len()
            },
            MergeAction::Emit => {
                &&& after.picks@.len() > 0
                &&& {
                    ||| after.picks@.len() == after.batch_target_rows
                    ||| exists|i: int|
                        0 <= i < after.subs@.len() && (#[trigger] after.subs@[i]).pending is Some
                            && after.subs@[i].cursor >= after.subs@[i].rows().len()
                    ||| forall|i: int| 0 <= i < after.subs@.len() ==> is_spent(#[trigger] after.subs@[i])
                }
            },
            MergeAction::Done => after.picks@.len() == 0 && forall|i: int|
                0 <= i < after.subs@.len() ==> is_spent(#[trigger] after.subs@[i]),
        },
{
    let tables = before.tables();
    let done = before.done();
    let n = tables.len() as int;
    lemma_settled(
        tables,
        done,
        before.pos(),
        pick_views(before.picks@),
        before.batch_target_rows as nat,
    );
    assert(pick_views(after.picks@).len() == after.picks@.len());
    lemma_first_needing(after.subs@, 0);
    assert(after.subs.len() == after.subs@.len());
    assert forall|i: int| 0 <= i < n implies after.subs@[i].rows() == #[trigger] tables[i]
        && after.subs@[i].exhausted == done[i] && after.pos()[i] == after.subs@[i].cursor by {
        assert(after.subs@[i] == (SubSource { cursor: after.subs@[i].cursor, ..before.subs@[i] }));
    }
    if first_needing(after.subs@, 0) is None && after.picks@.len() < after.batch_target_rows {
        if forall|i: int|
            0 <= i < after.subs@.len() && (#[trigger] after.subs@[i]).pending is Some
                ==> after.subs@[i].cursor < after.subs@[i].rows().len() {
            assert forall|i: int| 0 <= i < n implies #[trigger] done[i] || has_head(
                tables,
                after.pos(),
                i,
            ) by {
                assert(!after.subs@[i].needs_batch());
                assert(tables[i] == after.subs@[i].rows());
            }
            assert(all_ready(tables, done, after.pos()));
            assert(least(tables, after.pos(), n) is None);
            lemma_least(tables, after.pos(), n);
            assert forall|i: int| 0 <= i < after.subs@.len() implies is_spent(
                #[trigger] after.subs@[i],
            ) by {
                assert(tables[i] == after.subs@[i].rows());
                assert(!has_head(tables, after.pos(), i));
                assert(done[i] || has_head(tables, after.pos(), i));
            }
        }
    }
}

/// Whether the first column of a name has one of two types.
pub open spec fn is_column_of(
    columns: Seq<ColumnView>,
    name: Seq<char>,
    a: BqlType,
    b: BqlType,
) -> bool {
    exists|k: int|
        {
            &&& 0 <= k < columns.len()
            &&& (#[trigger] columns[k]).name == name
            &&& no_such_before(columns, name, k)
            &&& columns[k].bql_type == a || columns[k].bql_type == b
        }
}

/// Whether no column before a position has a name.
pub open spec fn no_such_before(columns: Seq<ColumnView>, name: Seq<char>, k: int) -> bool {
    forall|j: int| 0 <= j < k ==> (#[trigger] columns[j]).name != name
}

/// Whether there is a column of a name.
pub open spec fn has_column(columns: Seq<ColumnView>, name: Seq<char>) -> bool {
    exists|k: int| 0 <= k < columns.len() && (#[trigger] columns[k]).name == name
}

/// Whether the rows of a source can be merged: it has an entity column of texts or integers,
/// and a column of times.
pub open spec fn is_mergeable(v: SetupView, i: int) -> bool {
    &&& is_column_of(v.sources[i], v.entities[i], BqlType::String, BqlType::Int)
    &&& is_column_of(v.sources[i], v.times[i], BqlType::Timestamp, BqlType::Timestamp)
}

proof fn lemma_column_of(columns: Seq<ColumnView>, name: Seq<char>, a: BqlType, b: BqlType)
    ensures
        column_position(columns, name, 0) is Some <==> has_column(columns, name),
        is_column_of(columns, name, a, b) <==> (column_position(columns, name, 0)
            matches Some(k) && (columns[k].bql_type == a || columns[k].bql_type == b)),
{
    lemma_column_position(columns, name, 0);
    match column_position(columns, name, 0) {
        Some(k) => {
            assert(columns[k].name == name && no_such_before(columns, name, k));
            if is_column_of(columns, name, a, b) {
                let x = choose|x: int|
                    {
                        &&& 0 <= x < columns.len()
                        &&& (#[trigger] columns[x]).name == name
                        &&& no_such_before(columns, name, x)
                        &&& columns[x].bql_type == a || columns[x].bql_type == b
                    };
                if x < k {
                    assert(columns[x].name != name);
                }
                if k < x {
                    assert(columns[k].name != name);
                }
            }
        },
        None => {},
    }
}

proof fn lemma_first_missing(v: SetupView, i: int)
    requires
        0 <= i,
    ensures
        match first_missing(v, i) {
            Some(SetupFault::NoEntity(k)) => i <= k < v.sources.len() && !has_column(
                v.sources[k],
                v.entities[k],
            ),
            Some(SetupFault::NoTime(k)) => i <= k < v.sources.len() && has_column(
                v.sources[k],
                v.entities[k],
            ) && !has_column(v.sources[k], v.times[k]),
            Some(_) => false,
            None => forall|k: int|
                i <= k < v.sources.len() ==> has_column(#[trigger] v.sources[k], v.entities[k])
                    && has_column(v.sources[k], v.times[k]),
        },
    decreases v.sources.len() - i,
{
    if i < v.sources.len() {
        lemma_column_of(v.sources[i], v.entities[i], BqlType::Int, BqlType::Int);
        lemma_column_of(v.sources[i], v.times[i], BqlType::Int, BqlType::Int);
        lemma_first_missing(v, i + 1);
    }
}

proof fn lemma_first_unordered(v: SetupView, i: int)
    requires
        0 <= i,
        forall|k: int|
            i <= k < v.sources.len() ==> has_column(#[trigger] v.sources[k], v.entities[k])
                && has_column(v.sources[k], v.times[k]),
    ensures
        match first_unordered(v, i) {
            Some(SetupFault::Keys(k)) => i <= k < v.sources.len() && !is_mergeable(v, k)
                && forall|j: int| i <= j < k ==> #[trigger] is_mergeable(v, j),
            Some(_) => false,
            None => forall|k: int| i <= k < v.sources.len() ==> #[trigger] is_mergeable(v, k),
        },
    decreases v.sources.len() - i,
{
    if i < v.sources.len() {
        assert(has_column(v.sources[i], v.entities[i]));
        lemma_column_of(v.sources[i], v.entities[i], BqlType::String, BqlType::Int);
        lemma_column_of(v.sources[i], v.times[i], BqlType::Timestamp, BqlType::Timestamp);
        lemma_first_unordered(v, i + 1);
    }
}

/// A merge is set up exactly where it has a source, each source is fully described and can
/// be merged, and the column for the number of the source holds integers where there is one.
/// Else the fault is one that is there.
pub proof fn theorem_set_up(v: SetupView)
    ensures
        setup_fault(v) is None <==> {
            &&& v.sources.len() > 0
            &&& v.entities.len() == v.sources.len()
            &&& v.times.len() == v.sources.len()
            &&& v.tables.len() == v.sources.len()
            &&& forall|i: int| 0 <= i < v.sources.len() ==> #[trigger] is_mergeable(v, i)
            &&& has_column(v.output, "__source_table_id"@) ==> is_column_of(
                v.output,
                "__source_table_id"@,
                BqlType::Int,
                BqlType::Int,
            )
        },
        match setup_fault(v) {
            Some(SetupFault::NoSources) => v.sources.len() == 0,
            Some(SetupFault::Lengths) => v.entities.len() != v.sources.len() || v.times.len()
                != v.sources.len() || v.tables.len() != v.sources.len(),
            Some(SetupFault::NoEntity(i)) => 0 <= i < v.sources.len() && !has_column(
                v.sources[i],
                v.entities[i],
            ),
            Some(SetupFault::NoTime(i)) => 0 <= i < v.sources.len() && !has_column(
                v.sources[i],
                v.times[i],
            ),
            Some(SetupFault::SourceId(t)) => t != BqlType::Int && is_column_of(
                v.output,
                "__source_table_id"@,
                t,
                t,
            ),
            Some(SetupFault::Keys(i)) => 0 <= i < v.sources.len() && !is_mergeable(v, i),
            None => true,
        },
{
    lemma_first_missing(v, 0);
    lemma_column_of(v.output, "__source_table_id"@, BqlType::Int, BqlType::Int);
    if let Some(SetupFault::SourceId(t)) = setup_fault(v) {
        lemma_column_of(v.output, "__source_table_id"@, t, t);
    }
    if first_missing(v, 0) is None {
        lemma_first_unordered(v, 0);
    } else {
        let k = match first_missing(v, 0) {
            Some(SetupFault::NoEntity(k)) => k,
            Some(SetupFault::NoTime(k)) => k,
            _ => 0,
        };
        lemma_column_of(v.sources[k], v.entities[k], BqlType::String, BqlType::Int);
        lemma_column_of(v.sources[k], v.times[k], BqlType::Timestamp, BqlType::Timestamp);
        assert(!is_mergeable(v, k));
    }
}

/// The failure that is reported is one, and no source before it failed. None is reported
/// only where none failed.
pub proof fn theorem_first_failure(failures: Seq<Option<BqliteError>>, i: int)
    requires
        0 <= i,
    ensures
        match first_failure(failures, i) {
            Some(k) => i <= k < failures.len() && failures[k] is Some && forall|j: int|
                i <= j < k ==> (#[trigger] failures[j]) is None,
            None => forall|j: int| i <= j < failures.len() ==> (#[trigger] failures[j]) is None,
        },
    decreases failures.len() - i,
{
    if i < failures.len() && failures[i] is None {
        theorem_first_failure(failures, i + 1);
    }
}

} // verus!
