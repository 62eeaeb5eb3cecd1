//! What a scan returns and what it hands to the storage layer.

use vstd::prelude::*;

use super::operator::{FilterList, SampleKind, ScanAction, ScanEvent, ScanHolder, ScanOperator,
    SegmentWrap, TombstoneSnapshot, ZonePredicate, columns_ok, first_unknown, holder_of,
    is_table_system, named_columns, named_system, scan_columns, wrap_of, zone_of};
use super::path::ScanPath;
use crate::schema::{BqlType, ColumnView, TableSchema, lemma_column_position};

verus! {

/// Whether a name is that of a system column of every table.
pub open spec fn is_hidden(name: Seq<char>) -> bool {
    name == "__seq_id"@ || name == "__batch_id"@
}

proof fn lemma_named(declared: Seq<ColumnView>, names: Seq<Seq<char>>, n: int)
    requires
        0 <= n <= declared.len(),
    ensures
        named_columns(declared, names, n) == declared.take(n).filter(
            |c: ColumnView| names.contains(c.name),
        ),
    decreases n,
{
    reveal(Seq::filter);
    if n > 0 {
        lemma_named(declared, names, n - 1);
        assert(declared.take(n).drop_last() =~= declared.take(n - 1));
    }
}

proof fn lemma_system(names: Seq<Seq<char>>, n: int)
    requires
        0 <= n <= names.len(),
    ensures
        ({
            let hidden = names.take(n).filter(|s: Seq<char>| is_hidden(s));
            let columns = named_system(names, n);
            &&& columns.len() == hidden.len()
            &&& forall|i: int|
                0 <= i < columns.len() ==> {
                    &&& (#[trigger] columns[i]).name == hidden[i]
                    &&& columns[i].bql_type == BqlType::Int
                    &&& !columns[i].nullable
                }
        }),
    decreases n,
{
    reveal(Seq::filter);
    if n > 0 {
        lemma_system(names, n - 1);
        assert(names.take(n).drop_last() =~= names.take(n - 1));
        assert(is_table_system(names[n - 1]) == is_hidden(names[n - 1]));
    }
}

/// A scan with named columns returns the declared columns that are named, in the order of
/// the table, and behind them the system columns that are named, in the order of the
/// names, as integers that are never null. A scan without names returns all declared
/// columns, and behind them both system columns.
pub proof fn theorem_scan_columns(declared: Seq<ColumnView>, names: Seq<Seq<char>>)
    ensures
        ({
            let out = scan_columns(declared, names);
            let shown = if names.len() == 0 {
                declared
            } else {
                declared.filter(|c: ColumnView| names.contains(c.name))
            };
            let hidden = if names.len() == 0 {
                seq!["__seq_id"@, "__batch_id"@]
            } else {
                names.filter(|s: Seq<char>| is_hidden(s))
            };
            &&& out.len() == shown.len() + hidden.len()
            &&& out.take(shown.len() as int) == shown
            &&& forall|i: int|
                0 <= i < hidden.len() ==> {
                    let c = #[trigger] out[shown.len() + i];
                    &&& c.name == hidden[i]
                    &&& c.bql_type == BqlType::Int
                    &&& !c.nullable
                }
        }),
{
    let out = scan_columns(declared, names);
    lemma_named(declared, names, declared.len() as int);
    lemma_system(names, names.len() as int);
    assert(declared.take(declared.len() as int) =~= declared);
    assert(names.take(names.len() as int) =~= names);
    if names.len() == 0 {
        assert(out.take(declared.len() as int) =~= declared);
    } else {
        let shown = declared.filter(|c: ColumnView| names.contains(c.name));
        let columns = named_system(names, names.len() as int);
        assert(out.take(shown.len() as int) =~= shown);
        assert forall|i: int| 0 <= i < columns.len() implies #[trigger] out[shown.len() + i]
            == columns[i] by {}
    }
}

proof fn lemma_unknown(declared: Seq<ColumnView>, names: Seq<Seq<char>>, i: int)
    requires
        0 <= i,
    ensures
        first_unknown(declared, names, i) is None <==> forall|k: int|
            i <= k < names.len() ==> is_readable(declared, #[trigger] names[k]),
    decreases names.len() - i,
{
    if i < names.len() {
        lemma_unknown(declared, names, i + 1);
        lemma_column_position(declared, names[i], 0);
        let found = crate::schema::column_position(declared, names[i], 0);
        if let Some(k) = found {
            assert(declared[k].name == names[i]);
        }
    }
}

/// Whether a name is that of a declared column or of a system column.
pub open spec fn is_readable(declared: Seq<ColumnView>, name: Seq<char>) -> bool {
    is_hidden(name) || exists|k: int|
        0 <= k < declared.len() && (#[trigger] declared[k]).name == name
}

/// A scan can return named columns if every name is that of a declared column or of a
/// system column, and no two columns that it returns have the same name.
pub proof fn theorem_columns_ok(table: &TableSchema, names: Seq<Seq<char>>)
    ensures
        columns_ok(table, names) <==> {
            let out = scan_columns(table.declared(), names);
            &&& forall|k: int|
                0 <= k < names.len() ==> is_readable(table.declared(), #[trigger] names[k])
            &&& forall|i: int, j: int|
                0 <= i < j < out.len() ==> (#[trigger] out[i]).name != (#[trigger] out[j]).name
        },
{
    lemma_unknown(table.declared(), names, 0);
}

/// The storage layer is given the tests if there are any, and the sample if it does not
/// keep every entity.
pub proof fn theorem_zone(has_tests: bool, sample: Option<SampleKind>)
    ensures
        (zone_of(has_tests, sample) == ZonePredicate::Tests || zone_of(has_tests, sample)
            == ZonePredicate::Both) <==> has_tests,
        (zone_of(has_tests, sample) == ZonePredicate::Sample || zone_of(has_tests, sample)
            == ZonePredicate::Both) <==> (sample == Some(SampleKind::Partial) || sample == Some(
            SampleKind::EmptySet,
        )),
{
}

/// What was pulled goes its way: an encoded row group is reduced to the selected rows, what
/// is selected is decoded, decoded rows are tested, and what is kept is returned. Without
/// rows the scan pulls again, but that a merge of decoded segments hands on what it
/// returns. Decoded rows are tested against all predicates, unless some were applied to
/// the encoded rows: then against the others.
pub proof fn theorem_scan_order(op: ScanOperator, n: usize)
    ensures
        op.action_on(ScanEvent::End) == ScanAction::Finish,
        n > 0 ==> op.action_on(ScanEvent::RowGroup(n)) == ScanAction::Select,
        n > 0 ==> op.action_on(ScanEvent::Selected(n)) == ScanAction::Decode,
        n > 0 ==> op.action_on(ScanEvent::Filtered(n)) == ScanAction::Emit,
        n > 0 ==> (op.action_on(ScanEvent::Decoded(n)) matches ScanAction::Filter(list) && {
            let before = op.holder != ScanHolder::Merge && op.encoded_shapes@.len() > 0;
            &&& !before <==> list == FilterList::All
            &&& before && op.encoded_residual@.len() > 0 <==> list == FilterList::Residual
        }),
        ({
            let again = if op.holder == ScanHolder::EncodedMerge {
                ScanAction::PullUnlessCancelled
            } else {
                ScanAction::Pull
            };
            &&& op.action_on(ScanEvent::RowGroup(0)) == again
            &&& op.action_on(ScanEvent::Selected(0)) == again
            &&& op.action_on(ScanEvent::Filtered(0)) == again
            &&& op.holder == ScanHolder::EncodedMerge ==> op.action_on(ScanEvent::Decoded(0))
                == again
            &&& op.holder == ScanHolder::Merge ==> op.action_on(ScanEvent::Decoded(0))
                == ScanAction::Emit
        }),
{
}

/// A segment has deletes where the snapshot lists its window and its shard together.
pub proof fn theorem_deletes(snapshot: TombstoneSnapshot, window_id: u64, shard_id: u32)
    ensures
        snapshot.covers(window_id, shard_id) <==> window_id <= 0xffff_ffff && shard_id <= 0xffff
            && snapshot.shards@.contains((window_id as u32, shard_id as u16)),
{
    if snapshot.covers(window_id, shard_id) {
        let i = choose|i: int|
            0 <= i < snapshot.shards@.len() && (#[trigger] snapshot.shards@[i]).0 == window_id
                && snapshot.shards@[i].1 == shard_id;
        assert(snapshot.shards@[i] == (window_id as u32, shard_id as u16));
    }
    if window_id <= 0xffff_ffff && shard_id <= 0xffff && snapshot.shards@.contains(
        (window_id as u32, shard_id as u16),
    ) {
        let i = choose|i: int|
            0 <= i < snapshot.shards@.len() && snapshot.shards@[i] == (
                window_id as u32,
                shard_id as u16,
            );
        assert(snapshot.shards@[i].0 == window_id && snapshot.shards@[i].1 == shard_id);
    }
}

/// A scan of decoded rows pulls from a merge of decoded segments. An encoded scan pulls from
/// its segment where there is just one and it has no deletes, and else from a merge of
/// encoded segments. It is never closed by opening it. Deletes are applied to encoded
/// segments in an encoded scan, and to decoded ones in the other.
pub proof fn theorem_pulled_from(path: ScanPath, tombstoned: Seq<bool>)
    ensures
        holder_of(path, tombstoned) == ScanHolder::Merge <==> path == ScanPath::Materialized,
        holder_of(path, tombstoned) == ScanHolder::EncodedScan <==> path != ScanPath::Materialized
            && tombstoned == seq![false],
        holder_of(path, tombstoned) != ScanHolder::Closed,
        wrap_of(path, false) == SegmentWrap::Plain,
        wrap_of(path, true) == (if path == ScanPath::Materialized {
            SegmentWrap::Materialized
        } else {
            SegmentWrap::Encoded
        }),
{
    assert(tombstoned == seq![false] <==> tombstoned.len() == 1 && !tombstoned[0]) by {
        if tombstoned.len() == 1 && !tombstoned[0] {
            assert(tombstoned =~= seq![false]);
        }
    }
}

} // verus!
