//! The order in which the rows of several sorted streams are merged.

use vstd::prelude::*;

use crate::text::{lemma_text_le_antisymmetric, lemma_text_le_total, lemma_text_le_trans, text_eq,
    text_le, text_not_after};

verus! {

/// The entity that a row belongs to.
#[derive(Debug)]
pub enum EntityKey {
    Int(i64),
    Text(String),
}

/// The content of an [`EntityKey`].
pub enum KeyView {
    Int(i64),
    Text(Seq<char>),
}

impl View for EntityKey {
    type V = KeyView;

    open spec fn view(&self) -> KeyView {
        match self {
            EntityKey::Int(n) => KeyView::Int(*n),
            EntityKey::Text(s) => KeyView::Text(s@),
        }
    }
}

/// What orders a row: its entity, then its time.
pub struct RowKey {
    pub key: KeyView,
    pub ts: i64,
}

/// Whether an entity comes before another, or is the same. Numbers come before
/// texts.
pub open spec fn key_le(a: KeyView, b: KeyView) -> bool {
    match (a, b) {
        (KeyView::Int(x), KeyView::Int(y)) => x <= y,
        (KeyView::Int(_), KeyView::Text(_)) => true,
        (KeyView::Text(_), KeyView::Int(_)) => false,
        (KeyView::Text(x), KeyView::Text(y)) => text_le(x, y),
    }
}

/// Whether a row of stream `i` comes before a row of stream `j`, or is as early:
/// by entity, then by time, then by stream.
pub open spec fn row_le(a: RowKey, i: int, b: RowKey, j: int) -> bool {
    if a.key == b.key {
        a.ts < b.ts || (a.ts == b.ts && i <= j)
    } else {
        key_le(a.key, b.key)
    }
}

/// A stream in order.
pub open spec fn in_order(rows: Seq<RowKey>) -> bool {
    forall|x: int, y: int|
        0 <= x <= y < rows.len() ==> row_le(#[trigger] rows[x], 0, #[trigger] rows[y], 0)
}

pub proof fn lemma_row_le_trans(a: RowKey, i: int, b: RowKey, j: int, c: RowKey, k: int)
    requires
        row_le(a, i, b, j),
        row_le(b, j, c, k),
    ensures
        row_le(a, i, c, k),
{
    match (a.key, b.key, c.key) {
        (KeyView::Text(x), KeyView::Text(y), KeyView::Text(z)) => {
            if a.key != b.key && b.key != c.key {
                lemma_text_le_trans(x, y, z);
                if a.key == c.key {
                    lemma_text_le_antisymmetric(x, y);
                }
            }
        },
        _ => {},
    }
}

pub proof fn lemma_row_le_total(a: RowKey, i: int, b: RowKey, j: int)
    ensures
        row_le(a, i, b, j) || row_le(b, j, a, i),
{
    match (a.key, b.key) {
        (KeyView::Text(x), KeyView::Text(y)) => {
            lemma_text_le_total(x, y);
        },
        _ => {},
    }
}

/// Whether two entities are the same.
fn same_key(a: &EntityKey, b: &EntityKey) -> (r: bool)
    ensures
        r == (a@ == b@),
{
    match (a, b) {
        (EntityKey::Int(x), EntityKey::Int(y)) => *x == *y,
        (EntityKey::Text(x), EntityKey::Text(y)) => text_eq(x.as_str(), y.as_str()),
        _ => false,
    }
}

/// Whether an entity comes before another, or is the same.
fn key_not_after(a: &EntityKey, b: &EntityKey) -> (r: bool)
    ensures
        r == key_le(a@, b@),
{
    match (a, b) {
        (EntityKey::Int(x), EntityKey::Int(y)) => *x <= *y,
        (EntityKey::Int(_), EntityKey::Text(_)) => true,
        (EntityKey::Text(_), EntityKey::Int(_)) => false,
        (EntityKey::Text(x), EntityKey::Text(y)) => text_not_after(x.as_str(), y.as_str()),
    }
}

/// Whether a row of stream `i` comes before a row of stream `j`, or is as early.
pub fn row_not_after(
    a: &EntityKey,
    a_ts: i64,
    i: usize,
    b: &EntityKey,
    b_ts: i64,
    j: usize,
) -> (r: bool)
    ensures
        r == row_le(
            (RowKey { key: a@, ts: a_ts }),
            i as int,
            (RowKey { key: b@, ts: b_ts }),
            j as int,
        ),
{
    if same_key(a, b) {
        a_ts < b_ts || (a_ts == b_ts && i <= j)
    } else {
        key_not_after(a, b)
    }
}

/// Whether a stream has a row at its position.
pub open spec fn has_head(streams: Seq<Seq<RowKey>>, pos: Seq<int>, i: int) -> bool {
    0 <= pos[i] < streams[i].len()
}

/// The row at the position of a stream.
pub open spec fn head(streams: Seq<Seq<RowKey>>, pos: Seq<int>, i: int) -> RowKey {
    streams[i][pos[i]]
}

/// The stream, among the first `n`, whose next row comes first.
pub open spec fn least(streams: Seq<Seq<RowKey>>, pos: Seq<int>, n: int) -> Option<int>
    decreases n,
{
    if n <= 0 {
        None
    } else {
        let before = least(streams, pos, n - 1);
        if !has_head(streams, pos, n - 1) {
            before
        } else {
            match before {
                Some(k) => if row_le(
                    head(streams, pos, k),
                    k,
                    head(streams, pos, n - 1),
                    n - 1,
                ) {
                    Some(k)
                } else {
                    Some(n - 1)
                },
                None => Some(n - 1),
            }
        }
    }
}

pub proof fn lemma_least(streams: Seq<Seq<RowKey>>, pos: Seq<int>, n: int)
    ensures
        match least(streams, pos, n) {
            Some(k) => 0 <= k < n && has_head(streams, pos, k) && forall|j: int|
                0 <= j < n && #[trigger] has_head(streams, pos, j) ==> row_le(
                    head(streams, pos, k),
                    k,
                    head(streams, pos, j),
                    j,
                ),
            None => forall|j: int| 0 <= j < n ==> !#[trigger] has_head(streams, pos, j),
        },
    decreases n,
{
    if n > 0 {
        lemma_least(streams, pos, n - 1);
        let before = least(streams, pos, n - 1);
        if has_head(streams, pos, n - 1) {
            let last = head(streams, pos, n - 1);
            if let Some(k) = before {
                let h = head(streams, pos, k);
                lemma_row_le_total(h, k, last, n - 1);
                if !row_le(h, k, last, n - 1) {
                    assert forall|j: int|
                        0 <= j < n && #[trigger] has_head(streams, pos, j) implies row_le(
                        last,
                        n - 1,
                        head(streams, pos, j),
                        j,
                    ) by {
                        if j < n - 1 {
                            lemma_row_le_trans(last, n - 1, h, k, head(streams, pos, j), j);
                        }
                    }
                }
            }
        }
    }
}

/// The positions after the next row was taken.
pub open spec fn taken(streams: Seq<Seq<RowKey>>, pos: Seq<int>) -> Seq<int> {
    match least(streams, pos, streams.len() as int) {
        Some(k) => pos.update(k, pos[k] + 1),
        None => pos,
    }
}

/// The positions after `n` rows were taken.
pub open spec fn taken_n(streams: Seq<Seq<RowKey>>, pos: Seq<int>, n: nat) -> Seq<int>
    decreases n,
{
    if n == 0 {
        pos
    } else {
        taken(streams, taken_n(streams, pos, (n - 1) as nat))
    }
}

/// The `n`-th row of the merged streams: which stream it comes from, and where it
/// stands there.
pub open spec fn merged_row(streams: Seq<Seq<RowKey>>, pos: Seq<int>, n: nat) -> Option<(int, int)> {
    let p = taken_n(streams, pos, n);
    match least(streams, p, streams.len() as int) {
        Some(k) => Some((k, p[k])),
        None => None,
    }
}

/// The number of rows that are not taken yet, in the first `n` streams.
pub open spec fn rows_left(streams: Seq<Seq<RowKey>>, pos: Seq<int>, n: int) -> int
    decreases n,
{
    if n <= 0 {
        0
    } else {
        rows_left(streams, pos, n - 1) + streams[n - 1].len() - pos[n - 1]
    }
}

/// Positions inside their streams.
pub open spec fn within(streams: Seq<Seq<RowKey>>, pos: Seq<int>) -> bool {
    &&& pos.len() == streams.len()
    &&& forall|i: int| 0 <= i < pos.len() ==> 0 <= #[trigger] pos[i] <= streams[i].len()
}

proof fn lemma_taken_within(streams: Seq<Seq<RowKey>>, pos: Seq<int>)
    requires
        within(streams, pos),
    ensures
        within(streams, taken(streams, pos)),
{
    lemma_least(streams, pos, streams.len() as int);
    let p = taken(streams, pos);
    assert forall|i: int| 0 <= i < p.len() implies 0 <= #[trigger] p[i] <= streams[i].len() by {
        let _ = pos[i];
    }
}

proof fn lemma_taken_n_within(streams: Seq<Seq<RowKey>>, pos: Seq<int>, n: nat)
    requires
        within(streams, pos),
    ensures
        within(streams, taken_n(streams, pos, n)),
    decreases n,
{
    if n > 0 {
        lemma_taken_n_within(streams, pos, (n - 1) as nat);
        lemma_taken_within(streams, taken_n(streams, pos, (n - 1) as nat));
    }
}

proof fn lemma_rows_left(streams: Seq<Seq<RowKey>>, pos: Seq<int>, k: int, n: int)
    requires
        0 <= k < pos.len(),
        n <= pos.len(),
    ensures
        rows_left(streams, pos.update(k, pos[k] + 1), n) == rows_left(streams, pos, n) - (if k < n {
            1int
        } else {
            0int
        }),
    decreases n,
{
    if n > 0 {
        lemma_rows_left(streams, pos, k, n - 1);
    }
}

pub proof fn lemma_none_left(streams: Seq<Seq<RowKey>>, pos: Seq<int>, n: int)
    requires
        within(streams, pos),
        n <= pos.len(),
    ensures
        rows_left(streams, pos, n) >= 0,
        rows_left(streams, pos, n) == 0 <==> forall|j: int|
            0 <= j < n ==> !#[trigger] has_head(streams, pos, j),
    decreases n,
{
    if n > 0 {
        lemma_none_left(streams, pos, n - 1);
        let _ = pos[n - 1];
        if rows_left(streams, pos, n) == 0 {
            assert(!has_head(streams, pos, n - 1));
        }
        if forall|j: int| 0 <= j < n ==> !#[trigger] has_head(streams, pos, j) {
            assert(!has_head(streams, pos, n - 1));
        }
    }
}

/// Every row of every stream is merged exactly once: each step takes the next row
/// of one stream, and there is a next step exactly as long as a row is left.
pub proof fn theorem_merge_complete(streams: Seq<Seq<RowKey>>, pos: Seq<int>)
    requires
        within(streams, pos),
    ensures
        merged_row(streams, pos, 0) is Some <==> rows_left(streams, pos, streams.len() as int) > 0,
        merged_row(streams, pos, 0) matches Some((k, r)) ==> 0 <= k < streams.len() && r == pos[k]
            && r < streams[k].len() && taken(streams, pos) == pos.update(k, r + 1) && rows_left(
            streams,
            taken(streams, pos),
            streams.len() as int,
        ) == rows_left(streams, pos, streams.len() as int) - 1,
{
    let n = streams.len() as int;
    lemma_least(streams, pos, n);
    lemma_none_left(streams, pos, n);
    if let Some(k) = least(streams, pos, n) {
        lemma_rows_left(streams, pos, k, n);
        assert(has_head(streams, pos, k));
    }
}

proof fn lemma_merge_step(streams: Seq<Seq<RowKey>>, pos: Seq<int>, n: nat)
    requires
        within(streams, pos),
        forall|i: int| 0 <= i < streams.len() ==> in_order(#[trigger] streams[i]),
        merged_row(streams, pos, n) is Some,
        merged_row(streams, pos, n + 1) is Some,
    ensures
        ({
            let (i, x) = merged_row(streams, pos, n)->0;
            let (j, y) = merged_row(streams, pos, n + 1)->0;
            row_le(streams[i][x], i, streams[j][y], j)
        }),
{
    let m = streams.len() as int;
    let p = taken_n(streams, pos, n);
    let q = taken(streams, p);
    lemma_taken_n_within(streams, pos, n);
    lemma_taken_within(streams, p);
    assert(taken_n(streams, pos, n + 1) == q);
    lemma_least(streams, p, m);
    lemma_least(streams, q, m);
    let i = least(streams, p, m)->0;
    let j = least(streams, q, m)->0;
    let a = head(streams, p, i);
    let b = head(streams, q, j);
    if i == j {
        assert(in_order(streams[i]));
        assert(q[i] == p[i] + 1);
        assert(row_le(streams[i][p[i]], 0, streams[i][q[i]], 0));
    } else {
        assert(q[j] == p[j]);
        assert(has_head(streams, p, j));
    }
}

proof fn lemma_taken_grows(streams: Seq<Seq<RowKey>>, pos: Seq<int>, a: nat, b: nat, k: int)
    requires
        within(streams, pos),
        a <= b,
        0 <= k < pos.len(),
    ensures
        taken_n(streams, pos, a)[k] <= taken_n(streams, pos, b)[k],
    decreases b - a,
{
    if a < b {
        lemma_taken_grows(streams, pos, a, (b - 1) as nat, k);
        lemma_taken_n_within(streams, pos, (b - 1) as nat);
        lemma_least(streams, taken_n(streams, pos, (b - 1) as nat), streams.len() as int);
    }
}

/// The rows of one stream are merged in the order of the stream, so that none is merged
/// twice.
pub proof fn theorem_merge_once(streams: Seq<Seq<RowKey>>, pos: Seq<int>, a: nat, b: nat)
    requires
        within(streams, pos),
        a < b,
        merged_row(streams, pos, a) is Some,
        merged_row(streams, pos, b) is Some,
        (merged_row(streams, pos, a)->0).0 == (merged_row(streams, pos, b)->0).0,
    ensures
        (merged_row(streams, pos, a)->0).1 < (merged_row(streams, pos, b)->0).1,
{
    let p = taken_n(streams, pos, a);
    let k = (merged_row(streams, pos, a)->0).0;
    lemma_taken_n_within(streams, pos, a);
    lemma_least(streams, p, streams.len() as int);
    assert(taken_n(streams, pos, a + 1) == taken(streams, p));
    lemma_taken_grows(streams, pos, a + 1, b, k);
}

/// A row that has been passed was merged.
pub proof fn lemma_passed_merged(streams: Seq<Seq<RowKey>>, pos: Seq<int>, n: nat, k: int, x: int)
    requires
        within(streams, pos),
        0 <= k < pos.len(),
        pos[k] <= x < taken_n(streams, pos, n)[k],
    ensures
        exists|t: nat| t < n && #[trigger] merged_row(streams, pos, t) == Some((k, x)),
    decreases n,
{
    let m = (n - 1) as nat;
    let p = taken_n(streams, pos, m);
    lemma_taken_n_within(streams, pos, m);
    lemma_least(streams, p, streams.len() as int);
    if x < p[k] {
        lemma_passed_merged(streams, pos, m, k, x);
    } else {
        assert(merged_row(streams, pos, m) == Some((k, x)));
    }
}

/// As long as a row is merged each time, as many fewer are left.
pub proof fn lemma_left_after(streams: Seq<Seq<RowKey>>, pos: Seq<int>, n: nat)
    requires
        within(streams, pos),
        forall|t: nat| t < n ==> (#[trigger] merged_row(streams, pos, t)) is Some,
    ensures
        within(streams, taken_n(streams, pos, n)),
        rows_left(streams, taken_n(streams, pos, n), streams.len() as int) == rows_left(
            streams,
            pos,
            streams.len() as int,
        ) - n,
    decreases n,
{
    if n > 0 {
        let m = (n - 1) as nat;
        lemma_left_after(streams, pos, m);
        let p = taken_n(streams, pos, m);
        assert(merged_row(streams, pos, m) is Some);
        assert(taken_n(streams, p, 0) == p);
        theorem_merge_complete(streams, p);
        lemma_taken_within(streams, p);
    }
}

/// The merged rows are in order, by entity, then by time, then by stream, if every
/// stream is in order.
pub proof fn theorem_merge_sorted(streams: Seq<Seq<RowKey>>, pos: Seq<int>, a: nat, b: nat)
    requires
        within(streams, pos),
        forall|i: int| 0 <= i < streams.len() ==> in_order(#[trigger] streams[i]),
        a < b,
        merged_row(streams, pos, b) is Some,
    ensures
        ({
            let (i, x) = merged_row(streams, pos, a)->0;
            let (j, y) = merged_row(streams, pos, b)->0;
            &&& merged_row(streams, pos, a) is Some
            &&& row_le(streams[i][x], i, streams[j][y], j)
        }),
    decreases b - a,
{
    let c = (b - 1) as nat;
    assert(merged_row(streams, pos, c) is Some) by {
        if merged_row(streams, pos, c) is None {
            assert(taken_n(streams, pos, b) == taken_n(streams, pos, c));
        }
    }
    lemma_merge_step(streams, pos, c);
    if a < c {
        theorem_merge_sorted(streams, pos, a, c);
        let (i, x) = merged_row(streams, pos, a)->0;
        let (k, z) = merged_row(streams, pos, c)->0;
        let (j, y) = merged_row(streams, pos, b)->0;
        lemma_row_le_trans(streams[i][x], i, streams[k][z], k, streams[j][y], j);
    }
}

} // verus!
