//! Dropping rows by evaluated predicates.

use arrow::array::ArrayData;
use vstd::prelude::*;

use crate::columnar::{Batch, BatchView, CellView, DataKind, and_masks, array_view, arrow_text,
    batch_view, both, filter_rows, kept_cells, kept_count, type_kind};
use crate::error::BqliteError;

verus! {

/// Whether every mask holds on a row.
pub open spec fn passes(masks: Seq<ArrayData>, row: int) -> bool {
    forall|k: int|
        0 <= k < masks.len() ==> array_view(#[trigger] masks[k]).cells[row] == Some(
            CellView::Bool(true),
        )
}

/// The rows, among the first `n`, on which every mask holds.
pub open spec fn passing_rows(masks: Seq<ArrayData>, n: int) -> Seq<int>
    decreases n,
{
    if n <= 0 {
        Seq::empty()
    } else if passes(masks, n - 1) {
        passing_rows(masks, n - 1).push(n - 1)
    } else {
        passing_rows(masks, n - 1)
    }
}

/// Whether a batch holds some rows of another, in order.
pub open spec fn holds_rows(out: BatchView, b: BatchView, rows: Seq<int>) -> bool {
    &&& out.fields == b.fields
    &&& out.rows == rows.len()
    &&& out.columns.len() == b.columns.len()
    &&& forall|i: int|
        0 <= i < b.columns.len() ==> {
            &&& (#[trigger] out.columns[i]).data_type == b.columns[i].data_type
            &&& out.columns[i].cells == Seq::new(
                rows.len(),
                |r: int| b.columns[i].cells[rows[r]],
            )
        }
}

/// Whether masks are columns of truth values.
pub open spec fn are_masks(masks: Seq<ArrayData>) -> bool {
    forall|k: int|
        0 <= k < masks.len() ==> type_kind(array_view(#[trigger] masks[k]).data_type)
            == DataKind::Boolean
}

/// Whether masks are equally long.
pub open spec fn equally_long(masks: Seq<ArrayData>) -> bool {
    forall|k: int|
        0 <= k < masks.len() ==> array_view(#[trigger] masks[k]).cells.len() == array_view(
            masks[0],
        ).cells.len()
}

/// Whether masks can be applied to a batch: they are equally long, and not longer
/// than its columns.
pub open spec fn applicable(masks: Seq<ArrayData>, b: BatchView) -> bool {
    &&& equally_long(masks)
    &&& b.columns.len() == 0 || array_view(masks[0]).cells.len() <= b.rows
}

/// Some masks are one mask together.
spec fn combines(m: ArrayData, masks: Seq<ArrayData>, n: nat) -> bool {
    &&& type_kind(array_view(m).data_type) == DataKind::Boolean
    &&& array_view(m).cells.len() == n
    &&& forall|r: int|
        0 <= r < n ==> (passes(masks, r) <==> #[trigger] array_view(m).cells[r] == Some(
            CellView::Bool(true),
        ))
}

proof fn lemma_combine_more(
    m: ArrayData,
    both_m: ArrayData,
    masks: Seq<ArrayData>,
    k: int,
    n: nat,
)
    requires
        0 <= k < masks.len(),
        combines(m, masks.take(k), n),
        array_view(masks[k]).cells.len() == n,
        type_kind(array_view(both_m).data_type) == DataKind::Boolean,
        array_view(both_m).cells == Seq::new(
            n,
            |i: int| both(array_view(m).cells[i], array_view(masks[k]).cells[i]),
        ),
    ensures
        combines(both_m, masks.take(k + 1), n),
{
    assert forall|r: int| 0 <= r < n implies (passes(masks.take(k + 1), r)
        <==> #[trigger] array_view(both_m).cells[r] == Some(CellView::Bool(true))) by {
        let a = array_view(m).cells[r];
        let b = array_view(masks[k]).cells[r];
        assert(masks.take(k + 1)[k] == masks[k]);
        if passes(masks.take(k + 1), r) {
            assert forall|j: int| 0 <= j < k implies array_view(
                #[trigger] masks.take(k)[j],
            ).cells[r] == Some(CellView::Bool(true)) by {
                assert(masks.take(k)[j] == masks.take(k + 1)[j]);
            }
            assert(passes(masks.take(k), r));
        }
        if a == Some(CellView::Bool(true)) && b == Some(CellView::Bool(true)) {
            assert forall|j: int| 0 <= j < k + 1 implies array_view(
                #[trigger] masks.take(k + 1)[j],
            ).cells[r] == Some(CellView::Bool(true)) by {
                if j < k {
                    assert(masks.take(k)[j] == masks.take(k + 1)[j]);
                }
            }
        }
    }
}

proof fn lemma_kept_is_passing(
    m: ArrayData,
    masks: Seq<ArrayData>,
    cells: Seq<Option<CellView>>,
    n: int,
)
    requires
        combines(m, masks, array_view(m).cells.len()),
        n <= array_view(m).cells.len(),
    ensures
        kept_count(array_view(m).cells, n) == passing_rows(masks, n).len(),
        kept_cells(cells, array_view(m).cells, n) == Seq::new(
            passing_rows(masks, n).len(),
            |r: int| cells[passing_rows(masks, n)[r]],
        ),
    decreases n,
{
    if n > 0 {
        lemma_kept_is_passing(m, masks, cells, n - 1);
        let mask = array_view(m).cells;
        assert(passes(masks, n - 1) <==> mask[n - 1] == Some(CellView::Bool(true)));
        assert(kept_cells(cells, mask, n) =~= Seq::new(
            passing_rows(masks, n).len(),
            |r: int| cells[passing_rows(masks, n)[r]],
        ));
    } else {
        assert(kept_cells(cells, array_view(m).cells, n) =~= Seq::empty());
        assert(Seq::new(passing_rows(masks, n).len(), |r: int| cells[passing_rows(masks, n)[r]])
            =~= Seq::<Option<CellView>>::empty());
    }
}

/// The rows of a batch on which every one of some evaluated predicates holds. A
/// predicate that is unknown on a row does not hold, and a row past the end of the
/// masks is not kept. Fails where the masks are not equally long, or longer than the
/// batch. Without predicates the batch is handed back.
pub fn apply_masks(batch: Batch, masks: &Vec<ArrayData>) -> (r: Result<Batch, BqliteError>)
    requires
        are_masks(masks@),
    ensures
        masks@.len() == 0 ==> r == Ok::<Batch, BqliteError>(batch),
        masks@.len() > 0 ==> match r {
            Ok(out) => {
                &&& applicable(masks@, batch_view(batch))
                &&& holds_rows(
                    batch_view(out),
                    batch_view(batch),
                    passing_rows(masks@, array_view(masks@[0]).cells.len() as int),
                )
            },
            Err(e) => !applicable(masks@, batch_view(batch)) && e is Arrow,
        },
{
    if masks.len() == 0 {
        return Ok(batch);
    }
    let ghost n = array_view(masks@[0]).cells.len();
    proof {
        assert(masks@.take(1)[0] == masks@[0]);
        let first = masks@[0];
        assert forall|r: int| 0 <= r < n implies (passes(masks@.take(1), r)
            <==> #[trigger] array_view(first).cells[r] == Some(CellView::Bool(true))) by {
            if passes(masks@.take(1), r) {
                assert(array_view(masks@.take(1)[0]).cells[r] == Some(CellView::Bool(true)));
            }
        }
    }
    if masks.len() == 1 {
        assert(masks@.take(1) =~= masks@);
        return finish(batch, &masks[0], Ghost(masks@));
    }
    match and_masks(&masks[0], &masks[1]) {
        Ok(m) => {
            proof {
                lemma_combine_more(masks@[0], m, masks@, 1, n);
            }
            let mut acc: ArrayData = m;
            let mut k: usize = 2;
            while k < masks.len()
                invariant
                    2 <= k <= masks@.len(),
                    n == array_view(masks@[0]).cells.len(),
                    are_masks(masks@),
                    combines(acc, masks@.take(k as int), n),
                    forall|j: int| 0 <= j < k ==> array_view(#[trigger] masks@[j]).cells.len() == n,
                decreases masks@.len() - k,
            {
                match and_masks(&acc, &masks[k]) {
                    Ok(next) => {
                        proof {
                            lemma_combine_more(acc, next, masks@, k as int, n);
                        }
                        acc = next;
                    },
                    Err(e) => {
                        assert(array_view(masks@[k as int]).cells.len() != n);
                        return Err(BqliteError::Arrow(arrow_text(&e)));
                    },
                }
                k = k + 1;
            }
            assert(masks@.take(masks@.len() as int) =~= masks@);
            finish(batch, &acc, Ghost(masks@))
        },
        Err(e) => {
            assert(array_view(masks@[1]).cells.len() != n);
            Err(BqliteError::Arrow(arrow_text(&e)))
        },
    }
}

/// The rows of a batch where the one mask that some masks are together is true.
fn finish(batch: Batch, mask: &ArrayData, Ghost(masks): Ghost<Seq<ArrayData>>) -> (r: Result<
    Batch,
    BqliteError,
>)
    requires
        masks.len() > 0,
        equally_long(masks),
        combines(*mask, masks, array_view(masks[0]).cells.len()),
    ensures
        match r {
            Ok(out) => {
                &&& applicable(masks, batch_view(batch))
                &&& holds_rows(
                    batch_view(out),
                    batch_view(batch),
                    passing_rows(masks, array_view(masks[0]).cells.len() as int),
                )
            },
            Err(e) => !applicable(masks, batch_view(batch)) && e is Arrow,
        },
{
    match filter_rows(&batch, mask) {
        Ok(out) => {
            proof {
                let b = batch_view(batch);
                let n = array_view(masks[0]).cells.len() as int;
                lemma_kept_is_passing(*mask, masks, Seq::empty(), n);
                assert forall|i: int| 0 <= i < b.columns.len() implies {
                    &&& (#[trigger] batch_view(out).columns[i]).data_type
                        == b.columns[i].data_type
                    &&& batch_view(out).columns[i].cells == Seq::new(
                        passing_rows(masks, n).len(),
                        |r: int| b.columns[i].cells[passing_rows(masks, n)[r]],
                    )
                } by {
                    lemma_kept_is_passing(*mask, masks, b.columns[i].cells, n);
                }
            }
            Ok(out)
        },
        Err(e) => Err(BqliteError::Arrow(arrow_text(&e))),
    }
}

/// Whether masks are what other masks say of some rows: predicates hold on a row
/// whatever rows stand around it.
pub open spec fn restricted(part: Seq<ArrayData>, whole: Seq<ArrayData>, rows: Seq<int>) -> bool {
    &&& part.len() == whole.len()
    &&& forall|k: int, r: int|
        0 <= k < part.len() && 0 <= r < rows.len() ==> #[trigger] array_view(part[k]).cells[r]
            == array_view(whole[k]).cells[rows[r]]
}

/// Some of a list of rows.
pub open spec fn rows_at(rows: Seq<int>, picked: Seq<int>) -> Seq<int> {
    Seq::new(picked.len(), |r: int| rows[picked[r]])
}

proof fn lemma_two_stages(
    shapes: Seq<ArrayData>,
    rest: Seq<ArrayData>,
    part: Seq<ArrayData>,
    selected: Seq<int>,
    n: int,
)
    requires
        0 <= n,
        restricted(part, rest, selected),
        passing_rows(shapes, n).len() <= selected.len(),
        passing_rows(shapes, n) == selected.take(passing_rows(shapes, n).len() as int),
    ensures
        rows_at(selected, passing_rows(part, passing_rows(shapes, n).len() as int))
            == passing_rows(shapes + rest, n),
    decreases n,
{
    if n > 0 {
        let now = passing_rows(shapes, n);
        let m = now.len() as int;
        let before = passing_rows(shapes, n - 1);
        assert(before =~= selected.take(before.len() as int)) by {
            assert forall|r: int| 0 <= r < before.len() implies before[r] == selected[r] by {
                assert(now[r] == selected.take(m)[r]);
            }
        }
        lemma_two_stages(shapes, rest, part, selected, n - 1);
        theorem_masks_commute(shapes, rest, n - 1);
        if passes(shapes, n - 1) {
            assert(now[m - 1] == selected.take(m)[m - 1]);
            assert(selected[m - 1] == n - 1);
            assert(passes(part, m - 1) == passes(rest, n - 1)) by {
                assert forall|k: int| 0 <= k < part.len() implies array_view(part[k]).cells[m - 1]
                    == array_view(rest[k]).cells[n - 1] by {}
                let t = Some(CellView::Bool(true));
                if passes(part, m - 1) {
                    assert forall|k: int| 0 <= k < rest.len() implies array_view(
                        #[trigger] rest[k],
                    ).cells[n - 1] == t by {
                        assert(array_view(part[k]).cells[m - 1] == t);
                    }
                }
                if passes(rest, n - 1) {
                    assert forall|k: int| 0 <= k < part.len() implies array_view(
                        #[trigger] part[k],
                    ).cells[m - 1] == t by {
                        assert(array_view(rest[k]).cells[n - 1] == t);
                    }
                }
            }
        }
        assert(rows_at(selected, passing_rows(part, m)) =~= passing_rows(shapes + rest, n));
    } else {
        assert(rows_at(selected, passing_rows(part, 0)) =~= passing_rows(shapes + rest, n));
    }
}

/// Reading rows encoded keeps the same rows, in the same order, as reading them decoded:
/// to select the rows on which some predicates hold, and to apply the others to what was
/// selected, is to apply all of them at once.
pub proof fn theorem_paths_agree(
    shapes: Seq<ArrayData>,
    rest: Seq<ArrayData>,
    part: Seq<ArrayData>,
    n: nat,
)
    requires
        restricted(part, rest, passing_rows(shapes, n as int)),
    ensures
        rows_at(
            passing_rows(shapes, n as int),
            passing_rows(part, passing_rows(shapes, n as int).len() as int),
        ) == passing_rows(shapes + rest, n as int),
{
    let selected = passing_rows(shapes, n as int);
    assert(selected =~= selected.take(selected.len() as int));
    lemma_two_stages(shapes, rest, part, selected, n as int);
}

/// A row is kept by some predicates exactly where each of them holds, so it makes
/// no difference in which order they are applied.
pub proof fn theorem_masks_commute(a: Seq<ArrayData>, b: Seq<ArrayData>, row: int)
    ensures
        passes(a + b, row) == passes(b + a, row),
        passes(a + b, row) == (passes(a, row) && passes(b, row)),
{
    lemma_passes_concat(a, b, row);
    lemma_passes_concat(b, a, row);
}

proof fn lemma_passes_concat(a: Seq<ArrayData>, b: Seq<ArrayData>, row: int)
    ensures
        passes(a + b, row) == (passes(a, row) && passes(b, row)),
{
    let t = Some(CellView::Bool(true));
    if passes(a + b, row) {
        assert forall|k: int| 0 <= k < a.len() implies array_view(#[trigger] a[k]).cells[row]
            == t by {
            assert((a + b)[k] == a[k]);
        }
        assert forall|k: int| 0 <= k < b.len() implies array_view(#[trigger] b[k]).cells[row]
            == t by {
            assert((a + b)[k + a.len()] == b[k]);
        }
    }
    if passes(a, row) && passes(b, row) {
        assert forall|k: int| 0 <= k < (a + b).len() implies array_view(
            #[trigger] (a + b)[k],
        ).cells[row] == t by {
            if k < a.len() {
                assert((a + b)[k] == a[k]);
            } else {
                assert((a + b)[k] == b[k - a.len()]);
            }
        }
    }
}

/// The rows that pass are those on which every mask is true, not false and not null, in
/// ascending order.
pub proof fn theorem_passing(masks: Seq<ArrayData>, n: int)
    requires
        0 <= n,
    ensures
        forall|r: int| #[trigger]
            passing_rows(masks, n).contains(r) <==> 0 <= r < n && forall|k: int|
                0 <= k < masks.len() ==> array_view(#[trigger] masks[k]).cells[r] == Some(
                    CellView::Bool(true),
                ),
        forall|i: int, j: int|
            0 <= i < j < passing_rows(masks, n).len() ==> #[trigger] passing_rows(masks, n)[i]
                < #[trigger] passing_rows(masks, n)[j],
        forall|i: int| 0 <= i < passing_rows(masks, n).len() ==> 0 <= #[trigger] passing_rows(masks, n)[i] < n,
    decreases n,
{
    if n > 0 {
        theorem_passing(masks, n - 1);
        let before = passing_rows(masks, n - 1);
        let all = passing_rows(masks, n);
        assert forall|r: int| #[trigger] all.contains(r) <==> 0 <= r < n && forall|k: int|
            0 <= k < masks.len() ==> array_view(#[trigger] masks[k]).cells[r] == Some(
                CellView::Bool(true),
            ) by {
            if all.contains(r) {
                let i = choose|i: int| 0 <= i < all.len() && all[i] == r;
                if i < before.len() {
                    assert(before[i] == r);
                    assert(before.contains(r));
                }
            }
            if before.contains(r) {
                let i = choose|i: int| 0 <= i < before.len() && before[i] == r;
                assert(all[i] == r);
            }
            if r == n - 1 && passes(masks, r) {
                assert(all[before.len() as int] == r);
            }
        }
    } else {
        assert(passing_rows(masks, n) =~= Seq::empty());
    }
}

} // verus!
