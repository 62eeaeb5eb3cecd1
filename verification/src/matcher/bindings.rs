//! Values bound to pattern variables.

use smallvec::SmallVec;
use vstd::prelude::*;

use super::nfa::{EntityNfaState, NfaModel};

verus! {

/// The mathematical content of a [`BindingValue`].
pub enum BindingView {
    String(Seq<char>),
    Int(i64),
    Float(u64),
    Bool(bool),
    Timestamp(i64),
}

/// A value bound to a pattern variable. Floating-point numbers are carried by
/// canonical IEEE-754 bits, so that equal numbers have equal bits.
#[derive(Debug)]
pub enum BindingValue {
    String(String),
    Int(i64),
    Float(u64),
    Bool(bool),
    Timestamp(i64),
}

impl View for BindingValue {
    type V = BindingView;

    open spec fn view(&self) -> BindingView {
        match self {
            BindingValue::String(s) => BindingView::String(s@),
            BindingValue::Int(v) => BindingView::Int(*v),
            BindingValue::Float(v) => BindingView::Float(*v),
            BindingValue::Bool(v) => BindingView::Bool(*v),
            BindingValue::Timestamp(v) => BindingView::Timestamp(*v),
        }
    }
}

/// The contents of a sequence of binding values.
pub open spec fn binding_views(values: Seq<BindingValue>) -> Seq<BindingView> {
    Seq::new(values.len(), |i: int| values[i]@)
}

impl BindingValue {
    /// Whether two values have the same type and content.
    pub fn same(&self, other: &BindingValue) -> (r: bool)
        ensures
            r == (self@ == other@),
    {
        match (self, other) {
            (BindingValue::String(a), BindingValue::String(b)) => *a == *b,
            (BindingValue::Int(a), BindingValue::Int(b)) => *a == *b,
            (BindingValue::Float(a), BindingValue::Float(b)) => *a == *b,
            (BindingValue::Bool(a), BindingValue::Bool(b)) => *a == *b,
            (BindingValue::Timestamp(a), BindingValue::Timestamp(b)) => *a == *b,
            _ => false,
        }
    }

    /// A copy of this value.
    pub fn duplicate(&self) -> (r: BindingValue)
        ensures
            r == *self,
    {
        match self {
            BindingValue::String(s) => BindingValue::String(s.clone()),
            BindingValue::Int(v) => BindingValue::Int(*v),
            BindingValue::Float(v) => BindingValue::Float(*v),
            BindingValue::Bool(v) => BindingValue::Bool(*v),
            BindingValue::Timestamp(v) => BindingValue::Timestamp(*v),
        }
    }
}

/// Copies a list of binding values.
pub fn duplicate_values(values: &[BindingValue]) -> (r: Vec<BindingValue>)
    ensures
        r@ == values@,
{
    let mut out: Vec<BindingValue> = Vec::new();
    let mut i: usize = 0;
    while i < values.len()
        invariant
            i <= values@.len(),
            out@ == values@.take(i as int),
        decreases values@.len() - i,
    {
        out.push(values[i].duplicate());
        assert(values@.take(i + 1) == values@.take(i as int).push(values@[i as int]));
        i = i + 1;
    }
    assert(values@.take(values@.len() as int) == values@);
    out
}

/// Whether two lists of binding values have the same contents.
pub fn same_values(a: &[BindingValue], b: &[BindingValue]) -> (r: bool)
    ensures
        r == (binding_views(a@) == binding_views(b@)),
{
    if a.len() != b.len() {
        assert(binding_views(a@).len() != binding_views(b@).len());
        return false;
    }
    let mut i: usize = 0;
    while i < a.len()
        invariant
            i <= a@.len() == b@.len(),
            forall|j: int| 0 <= j < i ==> a@[j]@ == b@[j]@,
        decreases a@.len() - i,
    {
        if !a[i].same(&b[i]) {
            assert(binding_views(a@)[i as int] != binding_views(b@)[i as int]);
            return false;
        }
        i = i + 1;
    }
    assert(binding_views(a@) =~= binding_views(b@));
    true
}

/// The values bound at the first step of a match, in variable order. Up to two
/// values are kept inline, by `smallvec`'s `SmallVec`.
#[verifier::external_body]
#[derive(Debug)]
pub struct BindingKey {
    inner: SmallVec<[BindingValue; 2]>,
}

/// What a binding key holds.
pub uninterp spec fn key_items(key: BindingKey) -> Seq<BindingValue>;

impl View for BindingKey {
    type V = Seq<BindingView>;

    open spec fn view(&self) -> Seq<BindingView> {
        binding_views(key_items(*self))
    }
}

/// A key that holds the given values in order, by `SmallVec::from_vec`.
#[verifier::external_body]
pub(crate) fn key_from_values(values: Vec<BindingValue>) -> (r: BindingKey)
    ensures
        key_items(r) == values@,
{
    BindingKey { inner: SmallVec::from_vec(values) }
}

/// The values of a key in order, by `SmallVec::as_slice`.
#[verifier::external_body]
pub(crate) fn key_slice(key: &BindingKey) -> (r: &[BindingValue])
    ensures
        r@ == key_items(*key),
{
    key.inner.as_slice()
}

impl BindingKey {
    /// The bound values.
    pub fn values(&self) -> (r: &[BindingValue])
        ensures
            binding_views(r@) == self@,
    {
        key_slice(self)
    }

    /// A copy of this key.
    pub fn duplicate(&self) -> (r: BindingKey)
        ensures
            r@ == self@,
    {
        key_from_values(duplicate_values(key_slice(self)))
    }
}

/// The values of the bound columns on the rows of one batch: for each variable,
/// for each row, the value, or `None` where it is null.
#[derive(Debug)]
pub struct BindingValueCache {
    pub values: Vec<Vec<Option<BindingValue>>>,
}

/// An optional value's content.
pub open spec fn option_view(v: Option<BindingValue>) -> Option<BindingView> {
    match v {
        Some(b) => Some(b@),
        None => None,
    }
}

impl BindingValueCache {
    /// The value of a variable on a row, if there is one.
    pub open spec fn value_at(&self, var: int, row: int) -> Option<BindingView> {
        if 0 <= var < self.values@.len() && 0 <= row < self.values@[var]@.len() {
            option_view(self.values@[var]@[row])
        } else {
            None
        }
    }

    /// The value of a variable on a row, if there is one.
    pub fn get(&self, var: usize, row: usize) -> (r: Option<&BindingValue>)
        ensures
            match r {
                Some(v) => self.value_at(var as int, row as int) == Some(v@),
                None => self.value_at(var as int, row as int) is None,
            },
    {
        if var >= self.values.len() {
            return None;
        }
        if row >= self.values[var].len() {
            return None;
        }
        match &self.values[var][row] {
            Some(v) => Some(v),
            None => None,
        }
    }
}

/// The contents of optionally bound variables.
pub open spec fn bound_views(bound: Seq<Option<BindingValue>>) -> Seq<Option<BindingView>> {
    Seq::new(bound.len(), |i: int| option_view(bound[i]))
}

/// Whether the first `n` listed variables all have a value on a row.
pub open spec fn all_present(
    vars: Seq<usize>,
    cache: BindingValueCache,
    row: int,
    n: int,
) -> bool {
    forall|i: int|
        0 <= i < n ==> cache.value_at((#[trigger] vars[i]) as int, row) is Some
}

/// The variables after the first `n` listed ones were bound on a row.
pub open spec fn bound_after(
    bound: Seq<Option<BindingView>>,
    vars: Seq<usize>,
    cache: BindingValueCache,
    row: int,
    n: int,
) -> Seq<Option<BindingView>>
    decreases n,
{
    if n <= 0 {
        bound
    } else {
        bound_after(bound, vars, cache, row, n - 1).update(
            vars[n - 1] as int,
            cache.value_at(vars[n - 1] as int, row),
        )
    }
}

/// Every listed variable exists.
pub open spec fn vars_within(vars: Seq<usize>, n: int) -> bool {
    forall|i: int| 0 <= i < vars.len() ==> (#[trigger] vars[i]) < n
}

/// Binds the listed variables to their values on a row. Fails, with some of
/// them bound, where one is null.
pub fn try_bind_variables(
    vars: &Vec<usize>,
    bound: &mut Vec<Option<BindingValue>>,
    cache: &BindingValueCache,
    row: usize,
) -> (r: bool)
    requires
        vars_within(vars@, old(bound)@.len() as int),
    ensures
        r == all_present(vars@, *cache, row as int, vars@.len() as int),
        r ==> bound_views(final(bound)@) == bound_after(
            bound_views(old(bound)@),
            vars@,
            *cache,
            row as int,
            vars@.len() as int,
        ),
        final(bound)@.len() == old(bound)@.len(),
{
    let mut i: usize = 0;
    while i < vars.len()
        invariant
            i <= vars@.len(),
            bound@.len() == old(bound)@.len(),
            vars_within(vars@, bound@.len() as int),
            all_present(vars@, *cache, row as int, i as int),
            bound_views(bound@) == bound_after(
                bound_views(old(bound)@),
                vars@,
                *cache,
                row as int,
                i as int,
            ),
        decreases vars@.len() - i,
    {
        let var: usize = vars[i];
        match cache.get(var, row) {
            Some(v) => {
                let ghost before = bound@;
                bound.set(var, Some(v.duplicate()));
                assert(bound_views(bound@) =~= bound_views(before).update(
                    var as int,
                    cache.value_at(var as int, row as int),
                ));
            },
            None => {
                assert(cache.value_at(vars@[i as int] as int, row as int) is None);
                return false;
            },
        }
        i = i + 1;
    }
    true
}

/// Whether every listed variable is bound to the value that it has on a row.
pub open spec fn bindings_agree(
    vars: Seq<usize>,
    bound: Seq<BindingView>,
    cache: BindingValueCache,
    row: int,
) -> bool {
    forall|i: int|
        0 <= i < vars.len() ==> {
            &&& (#[trigger] vars[i]) < bound.len()
            &&& cache.value_at(vars[i] as int, row) == Some(bound[vars[i] as int])
        }
}

/// Whether every listed variable is bound to the value that it has on a row. A
/// variable that is unbound, or null on the row, does not agree.
pub fn check_bindings(
    vars: &Vec<usize>,
    bound: &[BindingValue],
    cache: &BindingValueCache,
    row: usize,
) -> (r: bool)
    ensures
        r == bindings_agree(vars@, binding_views(bound@), *cache, row as int),
{
    let mut i: usize = 0;
    while i < vars.len()
        invariant
            i <= vars@.len(),
            forall|j: int|
                0 <= j < i ==> {
                    &&& (#[trigger] vars@[j]) < binding_views(bound@).len()
                    &&& cache.value_at(vars@[j] as int, row as int) == Some(
                        binding_views(bound@)[vars@[j] as int],
                    )
                },
        decreases vars@.len() - i,
    {
        let var: usize = vars[i];
        if var >= bound.len() {
            assert(!(vars@[i as int] < binding_views(bound@).len()));
            return false;
        }
        let agrees: bool = match cache.get(var, row) {
            Some(v) => v.same(&bound[var]),
            None => false,
        };
        if !agrees {
            assert(cache.value_at(vars@[i as int] as int, row as int) != Some(
                binding_views(bound@)[vars@[i as int] as int],
            ));
            return false;
        }
        i = i + 1;
    }
    true
}

/// The automaton state of one combination of bound values.
#[derive(Debug)]
pub struct BindingTrack {
    /// The bound values that tell the track apart.
    pub key: Vec<BindingValue>,
    /// The value of each variable, once bound.
    pub bound_values: Vec<Option<BindingValue>>,
    pub nfa_state: EntityNfaState,
}

/// The content of a [`BindingTrack`].
pub struct BindingTrackView {
    pub key: Seq<BindingView>,
    pub bound: Seq<Option<BindingView>>,
    pub nfa: NfaModel,
}

impl View for BindingTrack {
    type V = BindingTrackView;

    open spec fn view(&self) -> BindingTrackView {
        BindingTrackView {
            key: binding_views(self.key@),
            bound: bound_views(self.bound_values@),
            nfa: self.nfa_state@,
        }
    }
}

/// The automaton states of one entity, one for each combination of bound values.
#[derive(Debug)]
pub struct EntityBindingState {
    pub tracks: Vec<BindingTrack>,
    /// How many tracks were refused.
    pub dropped_track_count: u64,
    pub num_variables: usize,
    pub num_states: usize,
}

/// The contents of a list of tracks.
pub open spec fn binding_track_views(tracks: Seq<BindingTrack>) -> Seq<BindingTrackView> {
    Seq::new(tracks.len(), |i: int| tracks[i]@)
}

impl EntityBindingState {
    /// The state of a new entity.
    pub fn new(num_variables: usize, num_states: usize) -> (r: Self)
        ensures
            r.tracks@.len() == 0,
            r.dropped_track_count == 0,
            r.num_variables == num_variables,
            r.num_states == num_states,
    {
        EntityBindingState { tracks: Vec::new(), dropped_track_count: 0, num_variables, num_states }
    }
}

/// The value of each variable, with the empty text for one that is not bound.
pub open spec fn bound_or_empty(bound: Seq<Option<BindingView>>) -> Seq<BindingView> {
    Seq::new(
        bound.len(),
        |i: int|
            match bound[i] {
                Some(v) => v,
                None => BindingView::String(Seq::empty()),
            },
    )
}

/// The value of each variable, with the empty text for one that is not bound.
pub fn fill_unbound(bound: &Vec<Option<BindingValue>>) -> (r: Vec<BindingValue>)
    ensures
        binding_views(r@) == bound_or_empty(bound_views(bound@)),
{
    let mut out: Vec<BindingValue> = Vec::new();
    let mut i: usize = 0;
    while i < bound.len()
        invariant
            i <= bound@.len(),
            out@.len() == i,
            forall|j: int|
                0 <= j < i ==> (#[trigger] out@[j])@ == bound_or_empty(bound_views(bound@))[j],
        decreases bound@.len() - i,
    {
        match &bound[i] {
            Some(v) => out.push(v.duplicate()),
            None => out.push(BindingValue::String(String::new())),
        }
        i = i + 1;
    }
    assert(binding_views(out@) =~= bound_or_empty(bound_views(bound@)));
    out
}

proof fn lemma_bound_after(
    bound: Seq<Option<BindingView>>,
    vars: Seq<usize>,
    cache: BindingValueCache,
    row: int,
    n: int,
    v: int,
)
    requires
        0 <= n <= vars.len(),
        vars_within(vars, bound.len() as int),
        0 <= v < bound.len(),
    ensures
        ({
            let after = bound_after(bound, vars, cache, row, n);
            &&& after.len() == bound.len()
            &&& (exists|i: int| 0 <= i < n && #[trigger] vars[i] == v) ==> after[v]
                == cache.value_at(v, row)
            &&& !(exists|i: int| 0 <= i < n && #[trigger] vars[i] == v) ==> after[v] == bound[v]
        }),
    decreases n,
{
    if n > 0 {
        lemma_bound_after(bound, vars, cache, row, n - 1, v);
        assert(vars[n - 1] < bound.len());
    }
}

/// After variables were bound on a row, each of them has the value that the row has for it,
/// and the others have what they had.
pub proof fn theorem_bound(
    bound: Seq<Option<BindingView>>,
    vars: Seq<usize>,
    cache: BindingValueCache,
    row: int,
)
    requires
        vars_within(vars, bound.len() as int),
    ensures
        ({
            let after = bound_after(bound, vars, cache, row, vars.len() as int);
            &&& after.len() == bound.len()
            &&& forall|i: int|
                0 <= i < vars.len() ==> after[#[trigger] vars[i] as int] == (if vars[i]
                    < cache.values@.len() && 0 <= row < cache.values@[vars[i] as int]@.len() {
                    option_view(cache.values@[vars[i] as int]@[row])
                } else {
                    None
                })
            &&& forall|v: int|
                0 <= v < bound.len() && !vars.contains(v as usize) ==> #[trigger] after[v]
                    == bound[v]
        }),
{
    let n = vars.len() as int;
    let after = bound_after(bound, vars, cache, row, n);
    assert forall|v: int| 0 <= v < bound.len() && !vars.contains(
        v as usize,
    ) implies #[trigger] after[v] == bound[v] by {
        lemma_bound_after(bound, vars, cache, row, n, v);
        assert forall|i: int| 0 <= i < n implies #[trigger] vars[i] != v by {
            if vars[i] == v {
                assert(vars.contains(v as usize));
            }
        }
    }
    assert forall|i: int| 0 <= i < vars.len() implies after[#[trigger] vars[i] as int] == (if vars[i]
        < cache.values@.len() && 0 <= row < cache.values@[vars[i] as int]@.len() {
        option_view(cache.values@[vars[i] as int]@[row])
    } else {
        None
    }) by {
        assert(vars[i] < bound.len());
        lemma_bound_after(bound, vars, cache, row, n, vars[i] as int);
    }
    if n == 0 {
    } else {
        assert(vars[0] < bound.len());
        lemma_bound_after(bound, vars, cache, row, n, vars[0] as int);
    }
}

} // verus!
