//! What a scan has returned once it has come to its end.
//!
//! A scan pulls the rows of its segments, without those that are deleted, merged into
//! one stream. It can pull them decoded and apply all predicates to them, or have some
//! predicates select the rows of each segment while they are encoded and apply the rest
//! to what was selected and merged. The theorem at the end is about both ways, however
//! the rows are divided into row groups and batches.

use vstd::prelude::*;

use super::merge_laws::{SourceRow, beginning, keys_of, stream_keys};
use super::merge_order::{KeyView, RowKey, has_head, head, in_order, least, lemma_least,
    lemma_row_le_trans, row_le, rows_left, taken_n, theorem_merge_complete, within};
use super::operator::{FilterList, ScanAction, ScanEvent, ScanHolder, ScanOperator};
use crate::text::lemma_text_le_antisymmetric;

verus! {

/// On which rows the predicates of a scan hold. They hold on a row whatever rows stand
/// around it.
pub struct RowTests {
    /// The predicates that can be applied to encoded rows.
    pub shapes: spec_fn(SourceRow) -> bool,
    /// The other predicates.
    pub rest: spec_fn(SourceRow) -> bool,
    /// The sample.
    pub sample: spec_fn(SourceRow) -> bool,
}

impl RowTests {
    /// The rows on which some predicates and the sample hold.
    pub open spec fn of(self, list: FilterList) -> spec_fn(SourceRow) -> bool {
        |r: SourceRow|
            (self.sample)(r) && match list {
                FilterList::All => (self.shapes)(r) && (self.rest)(r),
                FilterList::Residual => (self.rest)(r),
                FilterList::Nothing => true,
            }
    }

    /// Whether these are the predicates of a scan: where it has none of a kind, all rows
    /// pass.
    pub open spec fn belong_to(self, op: ScanOperator) -> bool {
        &&& op.encoded_shapes@.len() == 0 ==> forall|r: SourceRow| #[trigger] (self.shapes)(r)
        &&& op.encoded_shapes@.len() > 0 && op.encoded_residual@.len() == 0 ==> forall|
            r: SourceRow,
        | #[trigger]
            (self.rest)(r)
    }
}

/// The rows of the first `n` batches, one batch after another.
pub open spec fn rows_in(batches: Seq<Seq<SourceRow>>, n: int) -> Seq<SourceRow>
    decreases n,
{
    if n <= 0 {
        Seq::empty()
    } else {
        rows_in(batches, n - 1) + batches[n - 1]
    }
}

/// Whether the rows of each batch can be counted.
pub open spec fn countable(batches: Seq<Seq<SourceRow>>) -> bool {
    forall|i: int| 0 <= i < batches.len() ==> (#[trigger] batches[i]).len() <= usize::MAX
}

/// What a scan returns of a decoded batch.
pub open spec fn returned_of(op: ScanOperator, tests: RowTests, batch: Seq<SourceRow>) -> Seq<
    SourceRow,
> {
    match op.action_on(ScanEvent::Decoded(batch.len() as usize)) {
        ScanAction::Emit => batch,
        ScanAction::Filter(list) => {
            let kept = batch.filter(tests.of(list));
            if op.action_on(ScanEvent::Filtered(kept.len() as usize)) == ScanAction::Emit {
                kept
            } else {
                Seq::empty()
            }
        },
        _ => Seq::empty(),
    }
}

/// What a scan returns of the first `n` decoded batches.
pub open spec fn returned(
    op: ScanOperator,
    tests: RowTests,
    batches: Seq<Seq<SourceRow>>,
    n: int,
) -> Seq<SourceRow>
    decreases n,
{
    if n <= 0 {
        Seq::empty()
    } else {
        returned(op, tests, batches, n - 1) + returned_of(op, tests, batches[n - 1])
    }
}

/// What a scan has decoded of an encoded row group.
pub open spec fn selected_of(op: ScanOperator, tests: RowTests, group: Seq<SourceRow>) -> Seq<
    SourceRow,
> {
    let kept = group.filter(tests.shapes);
    if op.action_on(ScanEvent::RowGroup(group.len() as usize)) == ScanAction::Select
        && op.action_on(ScanEvent::Selected(kept.len() as usize)) == ScanAction::Decode {
        kept
    } else {
        Seq::empty()
    }
}

/// What a scan has decoded of the first `n` encoded row groups of a segment.
pub open spec fn selected(
    op: ScanOperator,
    tests: RowTests,
    groups: Seq<Seq<SourceRow>>,
    n: int,
) -> Seq<SourceRow>
    decreases n,
{
    if n <= 0 {
        Seq::empty()
    } else {
        selected(op, tests, groups, n - 1) + selected_of(op, tests, groups[n - 1])
    }
}

/// The rows of segments, from the given positions on, in merge order.
pub open spec fn merged(segments: Seq<Seq<SourceRow>>, pos: Seq<int>) -> Seq<SourceRow>
    decreases rows_left(stream_keys(segments), pos, segments.len() as int),
    when within(stream_keys(segments), pos)
    via merged_decreases
{
    match least(stream_keys(segments), pos, segments.len() as int) {
        Some(k) => seq![segments[k][pos[k]]] + merged(segments, pos.update(k, pos[k] + 1)),
        None => Seq::empty(),
    }
}

#[via_fn]
proof fn merged_decreases(segments: Seq<Seq<SourceRow>>, pos: Seq<int>) {
    let keys = stream_keys(segments);
    assert(keys.len() == segments.len());
    theorem_merge_complete(keys, pos);
    assert(taken_n(keys, pos, 0) == pos);
}

/// All rows of segments in merge order.
pub open spec fn all_merged(segments: Seq<Seq<SourceRow>>) -> Seq<SourceRow> {
    merged(segments, beginning(segments.len()))
}

/// Segments reduced to the rows on which a predicate holds.
pub open spec fn reduced(segments: Seq<Seq<SourceRow>>, keep: spec_fn(SourceRow) -> bool) -> Seq<
    Seq<SourceRow>,
> {
    Seq::new(segments.len(), |i: int| segments[i].filter(keep))
}

/// Whether the rows of every segment are in order.
pub open spec fn all_in_order(segments: Seq<Seq<SourceRow>>) -> bool {
    forall|i: int| 0 <= i < segments.len() ==> in_order(keys_of(#[trigger] segments[i]))
}

/// Two predicates that hold on the same rows keep the same rows.
proof fn lemma_same_filter(
    rows: Seq<SourceRow>,
    p: spec_fn(SourceRow) -> bool,
    q: spec_fn(SourceRow) -> bool,
)
    requires
        forall|r: SourceRow| #[trigger] p(r) == q(r),
    ensures
        rows.filter(p) == rows.filter(q),
    decreases rows.len(),
{
    reveal(Seq::filter);
    if rows.len() > 0 {
        lemma_same_filter(rows.drop_last(), p, q);
        assert(p(rows.last()) == q(rows.last()));
    }
}

/// To apply two predicates one after the other is to apply both.
proof fn lemma_filter_twice(
    rows: Seq<SourceRow>,
    p: spec_fn(SourceRow) -> bool,
    q: spec_fn(SourceRow) -> bool,
)
    ensures
        rows.filter(p).filter(q) == rows.filter(|r: SourceRow| p(r) && q(r)),
    decreases rows.len(),
{
    reveal(Seq::filter);
    if rows.len() > 0 {
        lemma_filter_twice(rows.drop_last(), p, q);
        let before = rows.drop_last().filter(p);
        if p(rows.last()) {
            assert(before.push(rows.last()).drop_last() =~= before);
        }
    }
}

/// A drained scan has returned the rows of what it pulled on which the predicates hold,
/// in the order in which it pulled them.
pub proof fn theorem_returned(
    op: ScanOperator,
    tests: RowTests,
    batches: Seq<Seq<SourceRow>>,
    n: int,
)
    requires
        countable(batches),
        0 <= n <= batches.len(),
    ensures
        returned(op, tests, batches, n) == rows_in(batches, n).filter(tests.of(op.filters())),
    decreases n,
{
    let p = tests.of(op.filters());
    if n > 0 {
        theorem_returned(op, tests, batches, n - 1);
        let batch = batches[n - 1];
        batch.lemma_filter_len(p);
        Seq::filter_distributes_over_add(rows_in(batches, n - 1), batch, p);
        assert(returned_of(op, tests, batch) =~= batch.filter(p)) by {
            if batch.len() == 0 {
                assert(batch.filter(p) =~= batch);
            }
        }
    } else {
        reveal(Seq::filter);
        assert(rows_in(batches, n).filter(p) =~= Seq::empty());
    }
}

/// What a scan has decoded of a segment are the rows on which the predicates hold that
/// can be applied to encoded rows.
pub proof fn theorem_selected(
    op: ScanOperator,
    tests: RowTests,
    groups: Seq<Seq<SourceRow>>,
    n: int,
)
    requires
        countable(groups),
        0 <= n <= groups.len(),
    ensures
        selected(op, tests, groups, n) == rows_in(groups, n).filter(tests.shapes),
    decreases n,
{
    let p = tests.shapes;
    if n > 0 {
        theorem_selected(op, tests, groups, n - 1);
        let group = groups[n - 1];
        group.lemma_filter_len(p);
        Seq::filter_distributes_over_add(rows_in(groups, n - 1), group, p);
        assert(selected_of(op, tests, group) =~= group.filter(p));
    } else {
        reveal(Seq::filter);
        assert(rows_in(groups, n).filter(p) =~= Seq::empty());
    }
}

/// Two rows of different streams do not both come before each other.
proof fn lemma_row_le_strict(a: RowKey, i: int, b: RowKey, j: int)
    requires
        row_le(a, i, b, j),
        row_le(b, j, a, i),
    ensures
        i == j,
{
    if a.key != b.key {
        match (a.key, b.key) {
            (KeyView::Text(x), KeyView::Text(y)) => {
                lemma_text_le_antisymmetric(x, y);
            },
            _ => {},
        }
    }
}

/// A stream whose next row comes before the next rows of all is the one that is next.
proof fn lemma_least_is(streams: Seq<Seq<RowKey>>, pos: Seq<int>, k: int)
    requires
        0 <= k < streams.len(),
        has_head(streams, pos, k),
        forall|j: int|
            0 <= j < streams.len() && #[trigger] has_head(streams, pos, j) ==> row_le(
                head(streams, pos, k),
                k,
                head(streams, pos, j),
                j,
            ),
    ensures
        least(streams, pos, streams.len() as int) == Some(k),
{
    lemma_least(streams, pos, streams.len() as int);
    let l = least(streams, pos, streams.len() as int)->0;
    assert(has_head(streams, pos, l));
    lemma_row_le_strict(head(streams, pos, k), k, head(streams, pos, l), l);
}

/// Where reduced segments stand when the segments stand at some positions.
spec fn reduced_pos(
    segments: Seq<Seq<SourceRow>>,
    keep: spec_fn(SourceRow) -> bool,
    pos: Seq<int>,
) -> Seq<int> {
    Seq::new(segments.len(), |i: int| segments[i].take(pos[i]).filter(keep).len() as int)
}

/// What a reduced segment has at such a position.
proof fn lemma_reduced_head(rows: Seq<SourceRow>, keep: spec_fn(SourceRow) -> bool, n: int)
    requires
        0 <= n <= rows.len(),
    ensures
        rows.take(n).filter(keep).len() <= rows.filter(keep).len(),
        n == rows.len() ==> rows.take(n).filter(keep).len() == rows.filter(keep).len(),
        n < rows.len() ==> rows.take(n + 1).filter(keep).len() == rows.take(n).filter(keep).len()
            + (if keep(rows[n]) {
            1int
        } else {
            0int
        }),
        n < rows.len() && keep(rows[n]) ==> rows.take(n).filter(keep).len() < rows.filter(
            keep,
        ).len() && rows.filter(keep)[rows.take(n).filter(keep).len() as int] == rows[n],
        rows.take(n).filter(keep).len() < rows.filter(keep).len() ==> exists|y: int|
            n <= y < rows.len() && #[trigger] rows[y] == rows.filter(keep)[rows.take(n).filter(
                keep,
            ).len() as int],
{
    let first = rows.take(n);
    let last = rows.skip(n);
    assert(rows =~= first + last);
    Seq::filter_distributes_over_add(first, last, keep);
    let m = first.filter(keep).len() as int;
    if n == rows.len() {
        assert(first =~= rows);
    }
    if n < rows.len() {
        reveal(Seq::filter);
        assert(rows.take(n + 1).drop_last() =~= first);
        assert(rows.take(n + 1).last() == rows[n]);
        if keep(rows[n]) {
            let more = rows.skip(n + 1);
            assert(rows =~= rows.take(n + 1) + more);
            Seq::filter_distributes_over_add(rows.take(n + 1), more, keep);
            assert(rows.filter(keep)[m] == rows.take(n + 1).filter(keep)[m]);
        }
    }
    if m < rows.filter(keep).len() {
        let x = last.filter(keep)[0];
        assert(rows.filter(keep)[m] == x);
        assert(last.filter(keep).contains(x));
        last.lemma_filter_contains_rev(keep, x);
        assert(last.contains(x));
        let z = choose|z: int| 0 <= z < last.len() && last[z] == x;
        assert(rows[n + z] == x);
    }
}

/// To merge the rows on which a predicate holds is to keep those of the merged rows.
proof fn lemma_merge_reduced(
    segments: Seq<Seq<SourceRow>>,
    keep: spec_fn(SourceRow) -> bool,
    pos: Seq<int>,
)
    requires
        all_in_order(segments),
        within(stream_keys(segments), pos),
    ensures
        within(stream_keys(reduced(segments, keep)), reduced_pos(segments, keep, pos)),
        merged(reduced(segments, keep), reduced_pos(segments, keep, pos)) == merged(
            segments,
            pos,
        ).filter(keep),
    decreases rows_left(stream_keys(segments), pos, segments.len() as int),
{
    let keys = stream_keys(segments);
    let few = reduced(segments, keep);
    let few_keys = stream_keys(few);
    let at = reduced_pos(segments, keep, pos);
    let n = segments.len() as int;
    assert forall|i: int| 0 <= i < at.len() implies 0 <= #[trigger] at[i] <= few_keys[i].len() by {
        assert(0 <= pos[i] <= keys[i].len());
        lemma_reduced_head(segments[i], keep, pos[i]);
    }
    lemma_least(keys, pos, n);
    theorem_merge_complete(keys, pos);
    assert(taken_n(keys, pos, 0) == pos);
    match least(keys, pos, n) {
        None => {
            assert forall|j: int| 0 <= j < n implies !#[trigger] has_head(few_keys, at, j) by {
                assert(!has_head(keys, pos, j));
                assert(0 <= pos[j] <= keys[j].len());
                lemma_reduced_head(segments[j], keep, pos[j]);
            }
            lemma_least(few_keys, at, n);
            reveal(Seq::filter);
            assert(merged(few, at) =~= Seq::empty());
            assert(merged(segments, pos).filter(keep) =~= Seq::empty());
        },
        Some(k) => {
            let row = segments[k][pos[k]];
            let next = pos.update(k, pos[k] + 1);
            assert(within(keys, next)) by {
                assert forall|i: int| 0 <= i < next.len() implies 0 <= #[trigger] next[i]
                    <= keys[i].len() by {
                    let _ = pos[i];
                }
            }
            lemma_merge_reduced(segments, keep, next);
            let after = reduced_pos(segments, keep, next);
            lemma_reduced_head(segments[k], keep, pos[k]);
            let later = merged(segments, next);
            later.lemma_filter_prepend(row, keep);
            if keep(row) {
                assert(after =~= at.update(k, at[k] + 1));
                assert forall|j: int|
                    0 <= j < n && #[trigger] has_head(few_keys, at, j) implies row_le(
                    head(few_keys, at, k),
                    k,
                    head(few_keys, at, j),
                    j,
                ) by {
                    assert(0 <= pos[j] <= keys[j].len());
                    lemma_reduced_head(segments[j], keep, pos[j]);
                    let y = choose|y: int|
                        pos[j] <= y < segments[j].len() && #[trigger] segments[j][y]
                            == few[j][at[j]];
                    assert(has_head(keys, pos, j));
                    assert(in_order(keys_of(segments[j])));
                    assert(keys[j] == keys_of(segments[j]));
                    assert(row_le(keys[j][pos[j]], 0, keys[j][y], 0));
                    assert(row_le(head(keys, pos, j), j, keys[j][y], j));
                    lemma_row_le_trans(
                        head(keys, pos, k),
                        k,
                        head(keys, pos, j),
                        j,
                        keys[j][y],
                        j,
                    );
                }
                assert(has_head(few_keys, at, k));
                lemma_least_is(few_keys, at, k);
                assert(few[k][at[k]] == row);
            } else {
                assert(after =~= at);
            }
        },
    }
}

/// Selecting rows before a merge is selecting them after it: the merge of the rows of
/// each segment on which a predicate holds is what the predicate keeps of the merged
/// rows, in the same order.
pub proof fn theorem_merge_reduced(
    segments: Seq<Seq<SourceRow>>,
    keep: spec_fn(SourceRow) -> bool,
)
    requires
        all_in_order(segments),
    ensures
        all_merged(reduced(segments, keep)) == all_merged(segments).filter(keep),
{
    let zero = beginning(segments.len());
    lemma_merge_reduced(segments, keep, zero);
    reveal(Seq::filter);
    assert forall|i: int| 0 <= i < segments.len() implies reduced_pos(segments, keep, zero)[i]
        == zero[i] by {
        assert(segments[i].take(0) =~= Seq::empty());
    }
    assert(reduced_pos(segments, keep, zero) =~= beginning(reduced(segments, keep).len()));
}

/// One segment is its own merge.
pub proof fn theorem_merge_single(segments: Seq<Seq<SourceRow>>, pos: int)
    requires
        segments.len() == 1,
        0 <= pos <= segments[0].len(),
    ensures
        merged(segments, seq![pos]) == segments[0].skip(pos),
    decreases segments[0].len() - pos,
{
    let keys = stream_keys(segments);
    assert(within(keys, seq![pos]));
    lemma_least(keys, seq![pos], 1);
    if pos < segments[0].len() {
        assert(has_head(keys, seq![pos], 0));
        theorem_merge_single(segments, pos + 1);
        assert(seq![pos].update(0, pos + 1) =~= seq![pos + 1]);
        assert(seq![segments[0][pos]] + segments[0].skip(pos + 1) =~= segments[0].skip(pos));
    } else {
        assert(!has_head(keys, seq![pos], 0));
        assert(segments[0].skip(pos) =~= Seq::empty());
    }
}

/// Both ways to read a table return the same rows in the same order: a scan that pulls
/// the merge of decoded segments, and one that pulls the merge of what it selects in
/// encoded ones, have returned the same once they are drained.
pub proof fn theorem_drains_agree(
    decoded: ScanOperator,
    encoded: ScanOperator,
    tests: RowTests,
    groups: Seq<Seq<Seq<SourceRow>>>,
    pulled: Seq<Seq<SourceRow>>,
    selected_pulled: Seq<Seq<SourceRow>>,
)
    requires
        decoded.holder == ScanHolder::Merge,
        encoded.holder == ScanHolder::EncodedScan || encoded.holder == ScanHolder::EncodedMerge,
        tests.belong_to(encoded),
        forall|i: int| 0 <= i < groups.len() ==> countable(#[trigger] groups[i]),
        all_in_order(segments_of(groups)),
        countable(pulled),
        countable(selected_pulled),
        rows_in(pulled, pulled.len() as int) == all_merged(segments_of(groups)),
        rows_in(selected_pulled, selected_pulled.len() as int) == all_merged(
            selections_of(encoded, tests, groups),
        ),
    ensures
        returned(encoded, tests, selected_pulled, selected_pulled.len() as int) == returned(
            decoded,
            tests,
            pulled,
            pulled.len() as int,
        ),
{
    let segments = segments_of(groups);
    let all = tests.of(FilterList::All);
    let list = encoded.filters();
    theorem_returned(decoded, tests, pulled, pulled.len() as int);
    theorem_returned(encoded, tests, selected_pulled, selected_pulled.len() as int);
    let part = selections_of(encoded, tests, groups);
    assert forall|i: int| 0 <= i < groups.len() implies part[i] == reduced(
        segments,
        tests.shapes,
    )[i] by {
        assert(countable(groups[i]));
        theorem_selected(encoded, tests, groups[i], groups[i].len() as int);
    }
    assert(part =~= reduced(segments, tests.shapes));
    theorem_merge_reduced(segments, tests.shapes);
    let rows = all_merged(segments);
    let shapes = tests.shapes;
    let rest = tests.of(list);
    lemma_filter_twice(rows, shapes, rest);
    lemma_same_filter(rows, |r: SourceRow| shapes(r) && rest(r), all);
}

/// The rows of segments that are divided into row groups.
pub open spec fn segments_of(groups: Seq<Seq<Seq<SourceRow>>>) -> Seq<Seq<SourceRow>> {
    Seq::new(groups.len(), |i: int| rows_in(groups[i], groups[i].len() as int))
}

/// What a scan selects of segments that are divided into row groups.
pub open spec fn selections_of(
    op: ScanOperator,
    tests: RowTests,
    groups: Seq<Seq<Seq<SourceRow>>>,
) -> Seq<Seq<SourceRow>> {
    Seq::new(groups.len(), |i: int| selected(op, tests, groups[i], groups[i].len() as int))
}

} // verus!
