//! Which rows of a batch are selected.

use arrow::array::ArrayData;
use vstd::prelude::*;

use crate::columnar::{CellView, array_view, boolean_array, physical_type};
use crate::schema::BqlType;

verus! {

/// Row numbers in ascending order, none twice.
#[derive(Debug)]
pub struct SelectionVector {
    pub indices: Vec<u32>,
}

/// Row numbers in ascending order, none twice.
pub open spec fn ascending(rows: Seq<u32>) -> bool {
    forall|i: int, j: int| 0 <= i < j < rows.len() ==> #[trigger] rows[i] < #[trigger] rows[j]
}

impl SelectionVector {
    /// The rows are in ascending order.
    pub open spec fn wf(&self) -> bool {
        ascending(self.indices@)
    }

    /// No row.
    pub fn new() -> (r: Self)
        ensures
            r.indices@.len() == 0,
            r.wf(),
    {
        SelectionVector { indices: Vec::new() }
    }

    /// The given rows, which are in ascending order.
    pub fn from_sorted(indices: Vec<u32>) -> (r: Self)
        requires
            ascending(indices@),
        ensures
            r.indices == indices,
            r.wf(),
    {
        SelectionVector { indices }
    }

    /// Whether the rows are in ascending order.
    pub fn is_ascending(&self) -> (r: bool)
        ensures
            r == self.wf(),
    {
        let mut i: usize = 1;
        while i < self.indices.len()
            invariant
                1 <= i,
                forall|j: int, k: int|
                    0 <= j < k < i && k < self.indices@.len() ==> #[trigger] self.indices@[j]
                        < #[trigger] self.indices@[k],
            decreases self.indices@.len() - i,
        {
            if self.indices[i - 1] >= self.indices[i] {
                assert(!(self.indices@[i - 1] < self.indices@[i as int]));
                return false;
            }
            i = i + 1;
        }
        true
    }

    /// The number of rows.
    pub fn len(&self) -> (r: usize)
        ensures
            r == self.indices@.len(),
    {
        self.indices.len()
    }

    /// The rows.
    pub fn as_slice(&self) -> (r: &[u32])
        ensures
            r@ == self.indices@,
    {
        self.indices.as_slice()
    }
}

/// Some consecutive rows.
#[derive(Debug, Clone, Copy, PartialEq, Eq, Structural)]
pub struct RowRun {
    pub start: u32,
    pub len: u32,
}

/// A selection of rows.
#[derive(Debug)]
pub enum RowSelection {
    Indices(SelectionVector),
    /// Runs of rows, one after another and without a common row.
    Runs(Vec<RowRun>),
}

/// The rows of a run.
pub open spec fn run_rows(run: RowRun) -> Seq<u32> {
    Seq::new(run.len as nat, |i: int| (run.start + i) as u32)
}

/// The rows of the first `n` runs.
pub open spec fn runs_rows(runs: Seq<RowRun>, n: int) -> Seq<u32>
    decreases n,
{
    if n <= 0 {
        Seq::empty()
    } else {
        runs_rows(runs, n - 1) + run_rows(runs[n - 1])
    }
}

/// Runs one after another, without a common row.
pub open spec fn runs_ascending(runs: Seq<RowRun>) -> bool {
    &&& forall|i: int| 0 <= i < runs.len() ==> (#[trigger] runs[i]).start + runs[i].len <= u32::MAX
    &&& forall|i: int, j: int|
        0 <= i < j < runs.len() ==> (#[trigger] runs[i]).start + runs[i].len <= (
        #[trigger] runs[j]).start
}

impl RowSelection {
    /// The selected rows.
    pub open spec fn rows(&self) -> Seq<u32> {
        match self {
            RowSelection::Indices(v) => v.indices@,
            RowSelection::Runs(runs) => runs_rows(runs@, runs@.len() as int),
        }
    }

    /// The rows are in ascending order.
    pub open spec fn wf(&self) -> bool {
        match self {
            RowSelection::Indices(v) => v.wf(),
            RowSelection::Runs(runs) => runs_ascending(runs@),
        }
    }

    /// No row.
    pub fn empty() -> (r: Self)
        ensures
            r.wf(),
            r.rows().len() == 0,
    {
        RowSelection::Indices(SelectionVector::new())
    }

    /// The given rows.
    pub fn from_indices(v: SelectionVector) -> (r: Self)
        requires
            v.wf(),
        ensures
            r.wf(),
            r == RowSelection::Indices(v),
    {
        RowSelection::Indices(v)
    }

    /// The given runs.
    pub fn from_runs(runs: Vec<RowRun>) -> (r: Self)
        requires
            runs_ascending(runs@),
        ensures
            r.wf(),
            r == RowSelection::Runs(runs),
    {
        RowSelection::Runs(runs)
    }

    /// All of the first `rows` rows.
    pub fn all(rows: u32) -> (r: Self)
        ensures
            r.wf(),
            r.rows() == Seq::new(rows as nat, |i: int| i as u32),
    {
        let mut runs: Vec<RowRun> = Vec::new();
        runs.push(RowRun { start: 0, len: rows });
        proof {
            reveal_with_fuel(runs_rows, 2);
            assert(runs_rows(runs@, 1) =~= Seq::new(rows as nat, |i: int| i as u32));
        }
        RowSelection::Runs(runs)
    }

    /// Whether the rows are in ascending order.
    pub fn is_ascending(&self) -> (r: bool)
        ensures
            r == self.wf(),
    {
        match self {
            RowSelection::Indices(v) => v.is_ascending(),
            RowSelection::Runs(runs) => {
                let mut end: u64 = 0;
                let mut i: usize = 0;
                while i < runs.len()
                    invariant
                        i <= runs@.len(),
                        *self == RowSelection::Runs(*runs),
                        end <= u32::MAX,
                        runs_ascending(runs@.take(i as int)),
                        i == 0 ==> end == 0,
                        i > 0 ==> end == runs@[i - 1].start + runs@[i - 1].len,
                        forall|j: int|
                            0 <= j < i ==> (#[trigger] runs@[j]).start + runs@[j].len <= end,
                    decreases runs@.len() - i,
                {
                    let run: RowRun = runs[i];
                    let next: u64 = run.start as u64 + run.len as u64;
                    if next > u32::MAX as u64 || (run.start as u64) < end {
                        proof {
                            assert(runs@[i as int] == run);
                            if next <= u32::MAX && i > 0 {
                                assert(runs@[i - 1].start + runs@[i - 1].len > run.start);
                            }
                        }
                        return false;
                    }
                    proof {
                        let more = runs@.take(i + 1);
                        assert forall|j: int, k: int| 0 <= j < k < more.len() implies (
                        #[trigger] more[j]).start + more[j].len <= (#[trigger] more[k]).start by {
                            if k < i {
                                assert(runs@.take(i as int)[j] == more[j]);
                                assert(runs@.take(i as int)[k] == more[k]);
                            } else {
                                assert(runs@[j] == more[j]);
                            }
                        }
                        assert forall|j: int| 0 <= j < more.len() implies (#[trigger] more[j]).start
                            + more[j].len <= u32::MAX by {
                            if j < i {
                                assert(runs@.take(i as int)[j] == more[j]);
                            }
                        }
                    }
                    end = next;
                    i = i + 1;
                }
                assert(runs@.take(runs@.len() as int) =~= runs@);
                true
            },
        }
    }

    /// Whether only some of the first `rows` rows are selected.
    pub fn is_within(&self, rows: u32) -> (r: bool)
        requires
            self.wf(),
        ensures
            r == (forall|i: int| 0 <= i < self.rows().len() ==> (#[trigger] self.rows()[i]) < rows),
    {
        match self {
            RowSelection::Indices(v) => {
                let mut i: usize = 0;
                while i < v.indices.len()
                    invariant
                        i <= v.indices@.len(),
                        self.rows() == v.indices@,
                        forall|j: int| 0 <= j < i ==> (#[trigger] v.indices@[j]) < rows,
                    decreases v.indices@.len() - i,
                {
                    if v.indices[i] >= rows {
                        assert(!(self.rows()[i as int] < rows));
                        return false;
                    }
                    i = i + 1;
                }
                true
            },
            RowSelection::Runs(runs) => {
                let mut i: usize = 0;
                while i < runs.len()
                    invariant
                        i <= runs@.len(),
                        runs_ascending(runs@),
                        self.rows() == runs_rows(runs@, runs@.len() as int),
                        forall|j: int|
                            0 <= j < runs_rows(runs@, i as int).len() ==> (#[trigger] runs_rows(
                                runs@,
                                i as int,
                            )[j]) < rows,
                    decreases runs@.len() - i,
                {
                    let run: RowRun = runs[i];
                    assert(run.start + run.len <= u32::MAX);
                    let ghost before = runs_rows(runs@, i as int);
                    let ghost more = runs_rows(runs@, i + 1);
                    if run.len > 0 && run.start + run.len > rows {
                        proof {
                            let last = before.len() + run.len - 1;
                            assert(more[last] == run_rows(run)[run.len - 1]);
                            lemma_runs_prefix(runs@, i + 1, runs@.len() as int, last);
                            assert(!(self.rows()[last] < rows));
                        }
                        return false;
                    }
                    proof {
                        assert forall|j: int| 0 <= j < more.len() implies #[trigger] more[j]
                            < rows by {
                            if j < before.len() {
                                assert(more[j] == before[j]);
                            } else {
                                assert(more[j] == run_rows(run)[j - before.len()]);
                            }
                        }
                    }
                    i = i + 1;
                }
                true
            },
        }
    }

    /// The number of selected rows.
    pub fn len(&self) -> (r: usize)
        requires
            self.wf(),
        ensures
            r == self.rows().len(),
    {
        match self {
            RowSelection::Indices(v) => v.len(),
            RowSelection::Runs(runs) => {
                let mut total: usize = 0;
                let mut i: usize = 0;
                while i < runs.len()
                    invariant
                        i <= runs@.len(),
                        runs_ascending(runs@),
                        total == runs_rows(runs@, i as int).len(),
                    decreases runs@.len() - i,
                {
                    proof {
                        lemma_runs_len(runs@, i + 1);
                        assert(runs@[i as int].start + runs@[i as int].len <= u32::MAX);
                    }
                    total = total + runs[i].len as usize;
                    i = i + 1;
                }
                total
            },
        }
    }

    /// Whether no row is selected.
    pub fn is_empty(&self) -> (r: bool)
        requires
            self.wf(),
        ensures
            r == (self.rows().len() == 0),
    {
        self.len() == 0
    }
}

/// The rows of some runs are the first rows of more of them.
proof fn lemma_runs_prefix(runs: Seq<RowRun>, m: int, n: int, i: int)
    requires
        0 <= m <= n,
        0 <= i < runs_rows(runs, m).len(),
    ensures
        i < runs_rows(runs, n).len(),
        runs_rows(runs, n)[i] == runs_rows(runs, m)[i],
    decreases n,
{
    if m < n {
        lemma_runs_prefix(runs, m, n - 1, i);
    }
}

proof fn lemma_runs_len(runs: Seq<RowRun>, n: int)
    requires
        runs_ascending(runs),
        0 <= n <= runs.len(),
    ensures
        n > 0 ==> runs_rows(runs, n).len() <= runs[n - 1].start + runs[n - 1].len,
        n == 0 ==> runs_rows(runs, n).len() == 0,
    decreases n,
{
    if n > 0 {
        lemma_runs_len(runs, n - 1);
        if n > 1 {
            assert(runs[n - 2].start + runs[n - 2].len <= runs[n - 1].start);
        }
    }
}

/// The rows of runs that come one after another are in ascending order.
proof fn lemma_runs_ascending(runs: Seq<RowRun>, n: int)
    requires
        runs_ascending(runs),
        0 <= n <= runs.len(),
    ensures
        ascending(runs_rows(runs, n)),
        forall|i: int|
            0 <= i < runs_rows(runs, n).len() ==> n > 0 && #[trigger] runs_rows(runs, n)[i]
                < runs[n - 1].start + runs[n - 1].len,
    decreases n,
{
    if n > 0 {
        lemma_runs_ascending(runs, n - 1);
        let before = runs_rows(runs, n - 1);
        let all = runs_rows(runs, n);
        let run = runs[n - 1];
        assert(run.start + run.len <= u32::MAX);
        assert forall|i: int| 0 <= i < all.len() implies n > 0 && #[trigger] all[i] < run.start
            + run.len by {
            if i < before.len() {
                assert(all[i] == before[i]);
                assert(runs[n - 2].start + runs[n - 2].len <= run.start);
            }
        }
        assert forall|i: int, j: int| 0 <= i < j < all.len() implies #[trigger] all[i]
            < #[trigger] all[j] by {
            if i < before.len() {
                assert(all[i] == before[i]);
                if j < before.len() {
                    assert(all[j] == before[j]);
                } else {
                    assert(runs[n - 2].start + runs[n - 2].len <= run.start);
                }
            }
        }
    }
}

/// The selected rows of a selection are in ascending order.
pub proof fn lemma_rows_ascending(sel: RowSelection)
    requires
        sel.wf(),
    ensures
        ascending(sel.rows()),
{
    match sel {
        RowSelection::Indices(_) => {},
        RowSelection::Runs(runs) => {
            lemma_runs_ascending(runs@, runs@.len() as int);
        },
    }
}

/// The rows of a run that lie inside a mask are set.
fn set_run(mask: &mut Vec<bool>, run: RowRun)
    requires
        run.start + run.len <= u32::MAX,
    ensures
        final(mask)@.len() == old(mask)@.len(),
        forall|i: int|
            0 <= i < old(mask)@.len() ==> #[trigger] final(mask)@[i] == (old(mask)@[i]
                || run.start <= i < run.start + run.len),
{
    let ghost before = mask@;
    let n: usize = mask.len();
    let mut row: usize = run.start as usize;
    let end: usize = (run.start + run.len) as usize;
    while row < end && row < n
        invariant
            mask@.len() == before.len() == n,
            run.start <= row,
            row <= end,
            end == run.start + run.len,
            forall|i: int|
                0 <= i < n ==> #[trigger] mask@[i] == (before[i] || run.start <= i < row),
        decreases end - row,
    {
        mask.set(row, true);
        row = row + 1;
    }
}

/// A column of truth values that holds on the selected rows.
pub fn selection_to_bool_array(sel: &RowSelection, row_count: u32) -> (r: ArrayData)
    requires
        sel.wf(),
    ensures
        array_view(r).data_type == physical_type(BqlType::Bool),
        array_view(r).cells == Seq::new(
            row_count as nat,
            |i: int| Some(CellView::Bool(sel.rows().contains(i as u32))),
        ),
{
    let n: usize = row_count as usize;
    let mut mask: Vec<bool> = Vec::new();
    let mut k: usize = 0;
    while k < n
        invariant
            k <= n,
            mask@.len() == k,
            forall|i: int| 0 <= i < k ==> !#[trigger] mask@[i],
        decreases n - k,
    {
        mask.push(false);
        k = k + 1;
    }
    match sel {
        RowSelection::Indices(v) => {
            let mut j: usize = 0;
            assert(v.indices@.take(0) =~= Seq::empty());
            while j < v.indices.len()
                invariant
                    j <= v.indices@.len(),
                    mask@.len() == n == row_count,
                    forall|i: int|
                        0 <= i < n ==> #[trigger] mask@[i] == v.indices@.take(j as int).contains(
                            i as u32,
                        ),
                decreases v.indices@.len() - j,
            {
                let idx: usize = v.indices[j] as usize;
                let ghost before = mask@;
                if idx < n {
                    mask.set(idx, true);
                }
                proof {
                    let rows = v.indices@;
                    assert(rows.take(j + 1) =~= rows.take(j as int).push(rows[j as int]));
                    assert forall|i: int| 0 <= i < n implies #[trigger] mask@[i] == rows.take(
                        j + 1,
                    ).contains(i as u32) by {
                        assert(before[i] == rows.take(j as int).contains(i as u32));
                        if rows.take(j as int).contains(i as u32) {
                            let w = choose|w: int|
                                0 <= w < j && rows.take(j as int)[w] == i as u32;
                            assert(rows.take(j + 1)[w] == i as u32);
                        }
                        if i as u32 == rows[j as int] {
                            assert(rows.take(j + 1)[j as int] == i as u32);
                        }
                    }
                }
                j = j + 1;
            }
            assert(v.indices@.take(v.indices@.len() as int) =~= v.indices@);
        },
        RowSelection::Runs(runs) => {
            let mut j: usize = 0;
            while j < runs.len()
                invariant
                    j <= runs@.len(),
                    runs_ascending(runs@),
                    mask@.len() == n == row_count,
                    forall|i: int|
                        0 <= i < n ==> #[trigger] mask@[i] == runs_rows(
                            runs@,
                            j as int,
                        ).contains(i as u32),
                decreases runs@.len() - j,
            {
                let ghost before = mask@;
                let run: RowRun = runs[j];
                assert(runs@[j as int].start + runs@[j as int].len <= u32::MAX);
                set_run(&mut mask, run);
                proof {
                    let old_rows = runs_rows(runs@, j as int);
                    let rows = runs_rows(runs@, j + 1);
                    assert forall|i: int| 0 <= i < n implies #[trigger] mask@[i]
                        == rows.contains(i as u32) by {
                        assert(before[i] == old_rows.contains(i as u32));
                        if old_rows.contains(i as u32) {
                            let w = choose|w: int|
                                0 <= w < old_rows.len() && old_rows[w] == i as u32;
                            assert(rows[w] == i as u32);
                        }
                        if run.start <= i < run.start + run.len {
                            assert(run_rows(run)[i - run.start] == i as u32);
                            assert(rows[old_rows.len() + i - run.start] == i as u32);
                        }
                        if rows.contains(i as u32) && !old_rows.contains(i as u32) {
                            let w = choose|w: int| 0 <= w < rows.len() && rows[w] == i as u32;
                            if w < old_rows.len() {
                                assert(old_rows[w] == i as u32);
                            } else {
                                assert(run_rows(run)[w - old_rows.len()] == i as u32);
                            }
                        }
                    }
                }
                j = j + 1;
            }
        },
    }
    proof {
        assert(Seq::new(mask@.len(), |i: int| Some(CellView::Bool(mask@[i]))) =~= Seq::new(
            row_count as nat,
            |i: int| Some(CellView::Bool(sel.rows().contains(i as u32))),
        ));
    }
    boolean_array(mask)
}

/// The selected rows, one by one.
pub fn selection_as_vector(sel: &RowSelection) -> (r: SelectionVector)
    requires
        sel.wf(),
    ensures
        r.wf(),
        r.indices@ == sel.rows(),
{
    let mut indices: Vec<u32> = Vec::new();
    match sel {
        RowSelection::Indices(v) => {
            let mut i: usize = 0;
            while i < v.indices.len()
                invariant
                    i <= v.indices@.len(),
                    indices@ == v.indices@.take(i as int),
                decreases v.indices@.len() - i,
            {
                indices.push(v.indices[i]);
                assert(v.indices@.take(i + 1) =~= v.indices@.take(i as int).push(
                    v.indices@[i as int],
                ));
                i = i + 1;
            }
            assert(v.indices@.take(v.indices@.len() as int) =~= v.indices@);
        },
        RowSelection::Runs(runs) => {
            let mut i: usize = 0;
            while i < runs.len()
                invariant
                    i <= runs@.len(),
                    runs_ascending(runs@),
                    indices@ == runs_rows(runs@, i as int),
                decreases runs@.len() - i,
            {
                let run: RowRun = runs[i];
                let ghost before = indices@;
                let mut k: u32 = 0;
                assert(runs@[i as int].start + runs@[i as int].len <= u32::MAX);
                assert(before + run_rows(run).take(0) =~= before);
                while k < run.len
                    invariant
                        k <= run.len,
                        run.start + run.len <= u32::MAX,
                        indices@ == before + run_rows(run).take(k as int),
                    decreases run.len - k,
                {
                    indices.push(run.start + k);
                    assert(run_rows(run).take(k + 1) =~= run_rows(run).take(k as int).push(
                        (run.start + k) as u32,
                    ));
                    assert(indices@ =~= before + run_rows(run).take(k + 1));
                    k = k + 1;
                }
                assert(run_rows(run).take(run.len as int) =~= run_rows(run));
                i = i + 1;
            }
        },
    }
    proof {
        lemma_rows_ascending(*sel);
    }
    SelectionVector { indices }
}

/// Whether as many rows are selected as a batch has.
pub fn is_dense(sel: &RowSelection, row_count: u32) -> (r: bool)
    requires
        sel.wf(),
    ensures
        r == (sel.rows().len() == row_count),
{
    sel.len() == row_count as usize
}

proof fn lemma_ascending_bound(rows: Seq<u32>, i: int)
    requires
        ascending(rows),
        0 <= i < rows.len(),
    ensures
        rows[i] >= i,
    decreases i,
{
    if i > 0 {
        lemma_ascending_bound(rows, i - 1);
        assert(rows[i - 1] < rows[i]);
    }
}

proof fn lemma_ascending_room(rows: Seq<u32>, n: int, i: int)
    requires
        ascending(rows),
        0 <= i < rows.len(),
        rows[rows.len() - 1] < n,
    ensures
        rows[i] <= n - rows.len() + i,
    decreases rows.len() - i,
{
    if i < rows.len() - 1 {
        lemma_ascending_room(rows, n, i + 1);
        assert(rows[i] < rows[i + 1]);
    }
}

/// A selection of as many rows as a batch has, all of them inside it, selects every
/// row.
pub proof fn theorem_dense_is_all(rows: Seq<u32>, n: nat)
    requires
        ascending(rows),
        forall|i: int| 0 <= i < rows.len() ==> (#[trigger] rows[i]) < n,
        rows.len() == n,
    ensures
        forall|i: int| 0 <= i < n ==> #[trigger] rows[i] == i,
{
    assert forall|i: int| 0 <= i < n implies #[trigger] rows[i] == i by {
        lemma_ascending_bound(rows, i);
        assert(rows[rows.len() - 1] < n);
        lemma_ascending_room(rows, n as int, i);
    }
}

proof fn lemma_run_contains(run: RowRun, x: u32)
    requires
        run.start + run.len <= u32::MAX,
    ensures
        run_rows(run).contains(x) <==> run.start <= x < run.start + run.len,
{
    if run.start <= x < run.start + run.len {
        assert(run_rows(run)[x - run.start] == x);
    }
}

proof fn lemma_runs_contain(runs: Seq<RowRun>, n: int, x: u32)
    requires
        runs_ascending(runs),
        0 <= n <= runs.len(),
    ensures
        runs_rows(runs, n).contains(x) <==> exists|k: int|
            0 <= k < n && (#[trigger] runs[k]).start <= x < runs[k].start + runs[k].len,
    decreases n,
{
    if n > 0 {
        lemma_runs_contain(runs, n - 1, x);
        let before = runs_rows(runs, n - 1);
        let last = run_rows(runs[n - 1]);
        let all = runs_rows(runs, n);
        lemma_run_contains(runs[n - 1], x);
        if all.contains(x) {
            let i = choose|i: int| 0 <= i < all.len() && all[i] == x;
            if i < before.len() {
                assert(before[i] == x);
            } else {
                assert(last[i - before.len()] == x);
            }
        }
        if before.contains(x) {
            let i = choose|i: int| 0 <= i < before.len() && before[i] == x;
            assert(all[i] == x);
        }
        if last.contains(x) {
            let i = choose|i: int| 0 <= i < last.len() && last[i] == x;
            assert(all[before.len() + i] == x);
        }
    }
}

/// A row is selected by runs if it lies in one of them: not before its start, and before
/// its start and length together. The selected rows are in ascending order, so that none
/// is selected twice.
pub proof fn theorem_runs_selected(runs: Vec<RowRun>, x: u32)
    requires
        runs_ascending(runs@),
    ensures
        RowSelection::Runs(runs).rows().contains(x) <==> exists|k: int|
            0 <= k < runs@.len() && (#[trigger] runs@[k]).start <= x < runs@[k].start + runs@[k].len,
        forall|i: int, j: int|
            0 <= i < j < RowSelection::Runs(runs).rows().len() ==> #[trigger] RowSelection::Runs(
                runs,
            ).rows()[i] < #[trigger] RowSelection::Runs(runs).rows()[j],
{
    lemma_runs_contain(runs@, runs@.len() as int, x);
    lemma_rows_ascending(RowSelection::Runs(runs));
}

proof fn lemma_runs_apart(runs: Seq<RowRun>, i: int, j: int)
    requires
        0 <= i < j < runs.len(),
        forall|k: int|
            0 < k < runs.len() ==> runs[k - 1].start + runs[k - 1].len <= (#[trigger] runs[k]).start,
    ensures
        runs[i].start + runs[i].len <= runs[j].start,
    decreases j - i,
{
    assert(runs[j - 1].start + runs[j - 1].len <= runs[j].start);
    if i < j - 1 {
        lemma_runs_apart(runs, i, j - 1);
    }
}

proof fn lemma_steps_up(rows: Seq<u32>, i: int, j: int)
    requires
        0 <= i < j < rows.len(),
        forall|k: int| 0 < k < rows.len() ==> rows[k - 1] < #[trigger] rows[k],
    ensures
        rows[i] < rows[j],
    decreases j - i,
{
    assert(rows[j - 1] < rows[j]);
    if i < j - 1 {
        lemma_steps_up(rows, i, j - 1);
    }
}

/// A selection is accepted exactly where each row comes after the one before it, or where
/// each run ends before the next begins and can be counted.
pub proof fn theorem_accepted(sel: RowSelection)
    ensures
        sel.wf() <==> match sel {
            RowSelection::Indices(v) => forall|k: int|
                0 < k < v.indices@.len() ==> v.indices@[k - 1] < #[trigger] v.indices@[k],
            RowSelection::Runs(runs) => {
                &&& forall|k: int|
                    0 <= k < runs@.len() ==> (#[trigger] runs@[k]).start + runs@[k].len
                        <= 0xffff_ffff
                &&& forall|k: int|
                    0 < k < runs@.len() ==> runs@[k - 1].start + runs@[k - 1].len <= (
                    #[trigger] runs@[k]).start
            },
        },
{
    match sel {
        RowSelection::Indices(v) => {
            let rows = v.indices@;
            if forall|k: int| 0 < k < rows.len() ==> rows[k - 1] < #[trigger] rows[k] {
                assert forall|i: int, j: int| 0 <= i < j < rows.len() implies #[trigger] rows[i]
                    < #[trigger] rows[j] by {
                    lemma_steps_up(rows, i, j);
                }
            }
        },
        RowSelection::Runs(runs) => {
            let list = runs@;
            if forall|k: int|
                0 < k < list.len() ==> list[k - 1].start + list[k - 1].len <= (
                #[trigger] list[k]).start {
                assert forall|i: int, j: int| 0 <= i < j < list.len() implies (
                #[trigger] list[i]).start + list[i].len <= (#[trigger] list[j]).start by {
                    lemma_runs_apart(list, i, j);
                }
            }
        },
    }
}

} // verus!
