//! Frames: a shared column store plus a private row permutation (a filter or sort overlay).
use std::rc::Rc;
use vstd::prelude::*;
use crate::error::AgnesError;
use crate::field::{DataType, FieldIdent, FieldType, IdentView};
use crate::masked::{FieldData, MaskedData, MaybeNa};
use crate::order::{is_sort_order, sort_order};
use crate::store::DataStore;

verus! {

/// Relies on `Rc::clone`: a new handle to the same store.
#[verifier::external_body]
fn share_store(s: &Rc<DataStore>) -> (r: Rc<DataStore>)
    ensures
        r == *s,
{
    Rc::clone(s)
}

/// Relies on `Rc::ptr_eq`: true only for two handles to one allocation, which hold one value.
#[verifier::external_body]
fn same_allocation(a: &Rc<DataStore>, b: &Rc<DataStore>) -> (r: bool)
    ensures
        r ==> *a == *b,
{
    Rc::ptr_eq(a, b)
}

/// Relies on `Rc::strong_count`: the number of handles to the store, this one included.
#[verifier::external_body]
fn handle_count(s: &Rc<DataStore>) -> (r: usize)
    ensures
        r >= 1,
{
    Rc::strong_count(s)
}

/// A copy of a vector of indices.
pub fn copy_indices(v: &Vec<usize>) -> (r: Vec<usize>)
    ensures
        r@ == v@,
{
    let mut r: Vec<usize> = Vec::new();
    let mut i: usize = 0;
    while i < v.len()
        invariant
            i <= v@.len(),
            r@ == v@.subrange(0, i as int),
        decreases v@.len() - i,
    {
        r.push(v[i]);
        i += 1;
        assert(r@ =~= v@.subrange(0, i as int));
    }
    assert(v@.subrange(0, i as int) =~= v@);
    r
}

/// The rows `sel` picks out of `rows`: `rows[sel[0]], rows[sel[1]], ...`.
pub open spec fn compose(rows: Seq<usize>, sel: Seq<usize>) -> Seq<usize> {
    sel.map_values(|i: usize| rows[i as int])
}

/// The values of `col` at `rows`, in order.
pub open spec fn gather<T>(col: Seq<MaybeNa<T>>, rows: Seq<usize>) -> Seq<MaybeNa<T>> {
    rows.map_values(|i: usize| col[i as int])
}

/// `sel` lists, in ascending order, exactly the positions of `vals` whose value exists and
/// passes `pred` (a position left out holds a missing value or one that fails `pred`).
pub open spec fn filter_result<T, F: Fn(&T) -> bool>(vals: Seq<MaybeNa<T>>, pred: F, sel: Seq<usize>) -> bool {
    &&& forall|p: int, q: int| 0 <= p < q < sel.len() ==> #[trigger] sel[p] < #[trigger] sel[q]
    &&& forall|p: int| 0 <= p < sel.len() ==> #[trigger] sel[p] < vals.len()
    &&& forall|i: usize|
        #[trigger] sel.contains(i) ==> (vals[i as int] matches MaybeNa::Exists(v) && pred.ensures((&v,), true))
    &&& forall|i: usize|
        i < vals.len() && !#[trigger] sel.contains(i) ==> (vals[i as int] is Na || (vals[i as int] matches MaybeNa::Exists(v)
            && pred.ensures((&v,), false)))
}

/// `order` is the stable sort order of the field `id` of `store`, seen through `rows`.
pub open spec fn sorted_field(store: DataStore, rows: Seq<usize>, id: IdentView, order: Seq<usize>) -> bool {
    match store.lookup(id) {
        Some(FieldData::Unsigned(c)) => is_sort_order(gather(c@, rows), order),
        Some(FieldData::Signed(c)) => is_sort_order(gather(c@, rows), order),
        Some(FieldData::Text(c)) => is_sort_order(gather(c@, rows), order),
        Some(FieldData::Boolean(c)) => is_sort_order(gather(c@, rows), order),
        Some(FieldData::Float(c)) => is_sort_order(gather(c@, rows), order),
        None => false,
    }
}

/// The positions of `vals` whose value exists and passes `pred`.
pub open spec fn passing_rows<T, F: Fn(&T) -> bool>(vals: Seq<MaybeNa<T>>, pred: F) -> Set<usize> {
    Set::new(|i: usize| i < vals.len() && (vals[i as int] matches MaybeNa::Exists(v) && pred.ensures((&v,), true)))
}

/// A filter keeps as many rows as there are visible rows whose value passes the predicate
/// (for a predicate that gives one answer per value).
pub proof fn lemma_filter_count<T, F: Fn(&T) -> bool>(vals: Seq<MaybeNa<T>>, pred: F, sel: Seq<usize>)
    requires
        filter_result(vals, pred, sel),
        forall|v: T| !(#[trigger] pred.ensures((&v,), true) && pred.ensures((&v,), false)),
    ensures
        sel.to_set() == passing_rows(vals, pred),
        sel.len() == passing_rows(vals, pred).len(),
{
    assert(sel.no_duplicates()) by {
        assert forall|a: int, b: int| 0 <= a < sel.len() && 0 <= b < sel.len() && a != b implies sel[a] != sel[b] by {
            if a < b {
                assert(sel[a] < sel[b]);
            } else {
                assert(sel[b] < sel[a]);
            }
        }
    }
    assert forall|i: usize| sel.to_set().contains(i) <==> passing_rows(vals, pred).contains(i) by {
        if sel.contains(i) {
            let k = choose|k: int| 0 <= k < sel.len() && sel[k] == i;
            assert(sel[k] < vals.len());
        }
    }
    assert(sel.to_set() =~= passing_rows(vals, pred));
    sel.unique_seq_to_set();
}

/// `sel` lists, in ascending order, exactly the positions whose values in both `v1` and
/// `v2` exist and pass `pa` and `pb` respectively (a position left out fails one of them).
pub open spec fn filter2_result<A, B, F: Fn(&A) -> bool, G: Fn(&B) -> bool>(
    v1: Seq<MaybeNa<A>>,
    pa: F,
    v2: Seq<MaybeNa<B>>,
    pb: G,
    sel: Seq<usize>,
) -> bool {
    &&& forall|p: int, q: int| 0 <= p < q < sel.len() ==> #[trigger] sel[p] < #[trigger] sel[q]
    &&& forall|p: int| 0 <= p < sel.len() ==> #[trigger] sel[p] < v1.len()
    &&& forall|i: usize|
        #[trigger] sel.contains(i) ==> (v1[i as int] matches MaybeNa::Exists(a) && pa.ensures((&a,), true))
            && (v2[i as int] matches MaybeNa::Exists(b) && pb.ensures((&b,), true))
    &&& forall|i: usize|
        i < v1.len() && !#[trigger] sel.contains(i) ==> (v1[i as int] is Na || (v1[i as int] matches MaybeNa::Exists(a)
            && pa.ensures((&a,), false)) || v2[i as int] is Na || (v2[i as int] matches MaybeNa::Exists(b)
            && pb.ensures((&b,), false)))
}

/// Filtering twice is filtering once on both predicates: filtering rows `rows` on column `c1`
/// with `pa` (selecting `s1`), then the result on column `c2` with `pb` (selecting `s2`), keeps
/// the rows `compose(s1, s2)` of `rows`, which are exactly those passing both.
pub proof fn lemma_filter_twice<A, B, F: Fn(&A) -> bool, G: Fn(&B) -> bool>(
    c1: Seq<MaybeNa<A>>,
    c2: Seq<MaybeNa<B>>,
    rows: Seq<usize>,
    pa: F,
    pb: G,
    s1: Seq<usize>,
    s2: Seq<usize>,
)
    requires
        s1.len() <= usize::MAX,
        filter_result(gather(c1, rows), pa, s1),
        filter_result(gather(c2, compose(rows, s1)), pb, s2),
    ensures
        compose(compose(rows, s1), s2) == compose(rows, compose(s1, s2)),
        filter2_result(gather(c1, rows), pa, gather(c2, rows), pb, compose(s1, s2)),
{
    let s = compose(s1, s2);
    let v1 = gather(c1, rows);
    let v2 = gather(c2, rows);
    let w2 = gather(c2, compose(rows, s1));
    assert(compose(compose(rows, s1), s2) =~= compose(rows, s));
    assert forall|p: int| 0 <= p < s.len() implies #[trigger] s[p] < v1.len() by {
        assert(s2[p] < w2.len());
    }
    assert forall|p: int, q: int| 0 <= p < q < s.len() implies #[trigger] s[p] < #[trigger] s[q] by {
        assert(s2[p] < s2[q]);
        assert(s2[q] < w2.len());
    }
    assert forall|i: usize| #[trigger] s.contains(i) implies (v1[i as int] matches MaybeNa::Exists(a) && pa.ensures((&a,), true))
        && (v2[i as int] matches MaybeNa::Exists(b) && pb.ensures((&b,), true)) by {
        let k = choose|k: int| 0 <= k < s.len() && s[k] == i;
        assert(s2.contains(s2[k]));
        assert(s2[k] < w2.len());
        assert(s1.contains(s1[s2[k] as int]));
        assert(w2[s2[k] as int] == v2[i as int]);
    }
    assert forall|i: usize| i < v1.len() && !#[trigger] s.contains(i) implies (v1[i as int] is Na || (v1[i as int] matches MaybeNa::Exists(a)
        && pa.ensures((&a,), false)) || v2[i as int] is Na || (v2[i as int] matches MaybeNa::Exists(b)
        && pb.ensures((&b,), false))) by {
        if s1.contains(i) {
            let k = choose|k: int| 0 <= k < s1.len() && s1[k] == i;
            let ku = k as usize;
            assert(k < s1.len());
            if s2.contains(ku) {
                let m = choose|m: int| 0 <= m < s2.len() && s2[m] == ku;
                assert(s[m] == i);
            }
            assert(w2[k] == v2[i as int]);
        }
    }
}

/// A sort order lists each of the rows once, each in range.
pub proof fn lemma_sorted_field_len(store: DataStore, rows: Seq<usize>, id: IdentView, order: Seq<usize>)
    requires
        sorted_field(store, rows, id, order),
    ensures
        order.len() == rows.len(),
        forall|i: int| 0 <= i < order.len() ==> #[trigger] order[i] < rows.len(),
{
}

/// A data frame: a shared store along with the rows of it that are visible, in order.
#[derive(Debug)]
pub struct DataFrame {
    permutation: Option<Vec<usize>>,
    store: Rc<DataStore>,
}

impl DataFrame {
    /// The underlying store.
    pub closed spec fn spec_store(&self) -> DataStore {
        *self.store
    }

    /// The visible rows: logical row `i` is row `spec_rows()[i]` of the store.
    pub closed spec fn spec_rows(&self) -> Seq<usize> {
        match self.permutation {
            Some(p) => p@,
            None => Seq::new(self.store.spec_nrows(), |i: int| i as usize),
        }
    }

    /// Well-formed: the store is, and every visible row exists in it.
    pub open spec fn wf(&self) -> bool {
        &&& self.spec_store().wf()
        &&& self.spec_store().spec_nrows() <= usize::MAX
        &&& forall|i: int| 0 <= i < self.spec_rows().len() ==> #[trigger] self.spec_rows()[i] < self.spec_store().spec_nrows()
    }

    /// The visible values of the field `id`, as values of type `T`.
    pub open spec fn visible<T: DataType>(&self, id: IdentView) -> Option<Seq<MaybeNa<T>>> {
        match self.spec_store().typed_column::<T>(id) {
            Some(c) => Some(gather(c, self.spec_rows())),
            None => None,
        }
    }

    /// A typed column of the store holds one value per store row.
    pub proof fn lemma_typed_len<T: DataType>(&self, id: IdentView)
        requires
            self.wf(),
        ensures
            self.spec_store().typed_column::<T>(id) matches Some(c) ==> c.len() == self.spec_store().spec_nrows(),
    {
        if let Some(d) = self.spec_store().lookup(id) {
            T::lemma_column_len(d);
            let p = self.spec_store().position(id)->Some_0;
            assert(self.spec_store().spec_fields()[p].1.spec_len() == self.spec_store().spec_nrows());
        }
    }

    /// A frame showing every row of `store`, in order.
    pub fn new(store: DataStore) -> (r: DataFrame)
        requires
            store.wf(),
        ensures
            r.wf(),
            r.spec_store() == store,
            r.spec_rows() == Seq::new(store.spec_nrows(), |i: int| i as usize),
    {
        let n = store.nrows();
        DataFrame { permutation: None, store: Rc::new(store) }
    }

    /// A frame over the same store, with a copy of this frame's rows.
    pub fn duplicate(&self) -> (r: DataFrame)
        ensures
            r.spec_store() == self.spec_store(),
            r.spec_rows() == self.spec_rows(),
    {
        let permutation = match &self.permutation {
            Some(p) => Some(copy_indices(p)),
            None => None,
        };
        DataFrame { permutation, store: share_store(&self.store) }
    }

    /// The number of handles (frames) that share this frame's store.
    pub fn store_ref_count(&self) -> (r: usize)
        ensures
            r >= 1,
    {
        handle_count(&self.store)
    }

    /// The number of visible rows.
    pub fn nrows(&self) -> (r: usize)
        requires
            self.wf(),
        ensures
            r == self.spec_rows().len(),
    {
        match &self.permutation {
            Some(p) => p.len(),
            None => self.store.nrows(),
        }
    }

    /// The kind of the field `ident` of the underlying store, if it exists.
    pub fn get_field_type(&self, ident: &FieldIdent) -> (r: Option<FieldType>)
        requires
            self.wf(),
        ensures
            r == match self.spec_store().lookup(ident@) {
                Some(d) => Some(d.spec_kind()),
                None => None::<FieldType>,
            },
    {
        self.store.get_field_type(ident)
    }

    /// Whether the underlying store has the field `ident`.
    pub fn has_field(&self, ident: &FieldIdent) -> (r: bool)
        requires
            self.wf(),
        ensures
            r == self.spec_store().lookup(ident@).is_some(),
    {
        self.store.has_field(ident)
    }

    /// Whether the two frames share one store (true only if their stores are equal).
    pub fn has_same_store(&self, other: &DataFrame) -> (r: bool)
        ensures
            r ==> self.spec_store() == other.spec_store(),
    {
        same_allocation(&self.store, &other.store)
    }

    /// The store row that logical row `requested` shows.
    fn map_index(&self, requested: usize) -> (r: usize)
        requires
            self.wf(),
            requested < self.spec_rows().len(),
        ensures
            r == self.spec_rows()[requested as int],
    {
        match &self.permutation {
            Some(p) => p[requested],
            None => requested,
        }
    }

    /// Keeps, in order, the logical rows listed in `new_permutation`.
    pub fn update_permutation(&mut self, new_permutation: &Vec<usize>)
        requires
            old(self).wf(),
            forall|i: int| 0 <= i < new_permutation@.len() ==> #[trigger] new_permutation@[i] < old(self).spec_rows().len(),
        ensures
            final(self).wf(),
            final(self).spec_store() == old(self).spec_store(),
            final(self).spec_rows() == compose(old(self).spec_rows(), new_permutation@),
    {
        let mut perm: Vec<usize> = Vec::new();
        let mut i: usize = 0;
        while i < new_permutation.len()
            invariant
                self.wf(),
                i <= new_permutation@.len(),
                forall|k: int| 0 <= k < new_permutation@.len() ==> #[trigger] new_permutation@[k] < self.spec_rows().len(),
                perm@ == compose(self.spec_rows(), new_permutation@.subrange(0, i as int)),
            decreases new_permutation@.len() - i,
        {
            let idx = self.map_index(new_permutation[i]);
            perm.push(idx);
            i += 1;
            assert(perm@ =~= compose(self.spec_rows(), new_permutation@.subrange(0, i as int)));
        }
        assert(new_permutation@.subrange(0, i as int) =~= new_permutation@);
        self.permutation = Some(perm);
    }

    /// The visible values of the field `ident`: fails with `FieldNotFound` if the store lacks
    /// it and with `IncompatibleTypes` if it holds another kind than `T`.
    pub fn values<T: DataType>(&self, ident: &FieldIdent) -> (r: Result<Vec<MaybeNa<T>>, AgnesError>)
        requires
            self.wf(),
        ensures
            match r {
                Ok(v) => self.visible::<T>(ident@) == Some(v@),
                Err(e) => self.visible::<T>(ident@).is_none() && match self.spec_store().lookup(ident@) {
                    None => e == AgnesError::FieldNotFound(*ident),
                    Some(d) => e == (AgnesError::IncompatibleTypes { expected: T::spec_kind(), actual: d.spec_kind() }),
                },
            },
    {
        let col = self.store.typed_field::<T>(ident)?;
        proof {
            self.lemma_typed_len::<T>(ident@);
        }
        Ok(self.gather_values(col))
    }

    /// The values of `col` at the visible rows.
    fn gather_values<T: DataType>(&self, col: &MaskedData<T>) -> (r: Vec<MaybeNa<T>>)
        requires
            self.wf(),
            col@.len() == self.spec_store().spec_nrows(),
        ensures
            r@ == gather(col@, self.spec_rows()),
    {
        let n = self.nrows();
        let mut r: Vec<MaybeNa<T>> = Vec::new();
        let mut i: usize = 0;
        while i < n
            invariant
                self.wf(),
                col@.len() == self.spec_store().spec_nrows(),
                n == self.spec_rows().len(),
                i <= n,
                r@ == gather(col@, self.spec_rows().subrange(0, i as int)),
            decreases n - i,
        {
            let row = self.map_index(i);
            let v = match col.get(row) {
                Some(v) => v.cloned(),
                None => MaybeNa::Na,
            };
            r.push(v);
            i += 1;
            assert(r@ =~= gather(col@, self.spec_rows().subrange(0, i as int)));
        }
        assert(self.spec_rows().subrange(0, i as int) =~= self.spec_rows());
        r
    }

    /// The positions of `vals` whose value exists and passes `pred`, ascending.
    fn select_positions<T: DataType, F: Fn(&T) -> bool>(vals: &Vec<MaybeNa<T>>, pred: &F) -> (r: Vec<usize>)
        requires
            forall|v: T| pred.requires((&v,)),
        ensures
            filter_result(vals@, *pred, r@),
    {
        let mut sel: Vec<usize> = Vec::new();
        let mut i: usize = 0;
        while i < vals.len()
            invariant
                forall|v: T| pred.requires((&v,)),
                i <= vals@.len(),
                forall|p: int, q: int| 0 <= p < q < sel@.len() ==> #[trigger] sel@[p] < #[trigger] sel@[q],
                forall|p: int| 0 <= p < sel@.len() ==> #[trigger] sel@[p] < i,
                forall|x: usize|
                    #[trigger] sel@.contains(x) ==> (vals@[x as int] matches MaybeNa::Exists(v) && pred.ensures((&v,), true)),
                forall|x: usize|
                    x < i && !#[trigger] sel@.contains(x) ==> (vals@[x as int] is Na || (vals@[x as int] matches MaybeNa::Exists(v)
                        && pred.ensures((&v,), false))),
            decreases vals@.len() - i,
        {
            let keep = match &vals[i] {
                MaybeNa::Exists(v) => pred(v),
                MaybeNa::Na => false,
            };
            let ghost before = sel@;
            if keep {
                sel.push(i);
            }
            proof {
                assert forall|x: usize| #[trigger] sel@.contains(x) <==> (before.contains(x) || (keep && x == i)) by {
                    if keep {
                        crate::order::lemma_push_contains(before, i, x);
                    }
                }
                assert forall|p: int| 0 <= p < sel@.len() implies #[trigger] sel@[p] < i + 1 by {
                    if p < before.len() {
                        assert(sel@[p] == before[p]);
                    }
                }
                assert forall|p: int, q: int| 0 <= p < q < sel@.len() implies #[trigger] sel@[p] < #[trigger] sel@[q] by {
                    assert(sel@[p] == before[p]);
                    if q < before.len() {
                        assert(sel@[q] == before[q]);
                    }
                }
            }
            i += 1;
        }
        sel
    }

    /// Filters this frame on the field `ident`: keeps the visible rows whose value exists and
    /// passes `pred`, and returns their logical indices (before the filter), ascending.
    pub fn filter<T: DataType, F: Fn(&T) -> bool>(&mut self, ident: &FieldIdent, pred: F) -> (r: Result<Vec<usize>, AgnesError>)
        requires
            old(self).wf(),
            forall|v: T| pred.requires((&v,)),
        ensures
            final(self).wf(),
            final(self).spec_store() == old(self).spec_store(),
            match r {
                Ok(sel) => (old(self).visible::<T>(ident@) matches Some(vals) && filter_result(vals, pred, sel@))
                    && final(self).spec_rows() == compose(old(self).spec_rows(), sel@),
                Err(e) => final(self).spec_rows() == old(self).spec_rows() && old(self).visible::<T>(ident@).is_none()
                    && match old(self).spec_store().lookup(ident@) {
                    None => e == AgnesError::FieldNotFound(*ident),
                    Some(d) => e == (AgnesError::IncompatibleTypes { expected: T::spec_kind(), actual: d.spec_kind() }),
                },
            },
    {
        let vals = self.values::<T>(ident)?;
        let sel = Self::select_positions(&vals, &pred);
        self.update_permutation(&sel);
        Ok(sel)
    }

    /// The stable sort order of the visible values of `col`.
    fn order_of<T: DataType>(&self, col: &MaskedData<T>) -> (r: Vec<usize>)
        requires
            self.wf(),
            col@.len() == self.spec_store().spec_nrows(),
        ensures
            is_sort_order(gather(col@, self.spec_rows()), r@),
    {
        let vals = self.gather_values(col);
        sort_order(&vals)
    }

    /// Sorts this frame (ascending, stably) by the field `ident`, and returns the sort order
    /// as logical indices (before the sort).
    pub fn sort_by(&mut self, ident: &FieldIdent) -> (r: Result<Vec<usize>, AgnesError>)
        requires
            old(self).wf(),
        ensures
            final(self).wf(),
            final(self).spec_store() == old(self).spec_store(),
            match r {
                Ok(order) => sorted_field(old(self).spec_store(), old(self).spec_rows(), ident@, order@)
                    && final(self).spec_rows() == compose(old(self).spec_rows(), order@),
                Err(e) => final(self).spec_rows() == old(self).spec_rows()
                    && old(self).spec_store().lookup(ident@).is_none() && e == AgnesError::FieldNotFound(*ident),
            },
    {
        let order = match self.store.get_field_data(ident) {
            None => { return Err(AgnesError::FieldNotFound(ident.duplicate())); },
            Some(d) => {
                proof {
                    let p = self.spec_store().position(ident@)->Some_0;
                    assert(self.spec_store().spec_fields()[p].1.spec_len() == self.spec_store().spec_nrows());
                }
                match d {
                    FieldData::Unsigned(c) => self.order_of(c),
                    FieldData::Signed(c) => self.order_of(c),
                    FieldData::Text(c) => self.order_of(c),
                    FieldData::Boolean(c) => self.order_of(c),
                    FieldData::Float(c) => self.order_of(c),
                }
            },
        };
        self.update_permutation(&order);
        Ok(order)
    }

    /// Whether the two frames share one store and show the same rows of it.
    pub fn shares_data_with(&self, other: &DataFrame) -> (r: bool)
        ensures
            r ==> self.spec_store() == other.spec_store() && self.spec_rows() == other.spec_rows(),
    {
        if !same_allocation(&self.store, &other.store) {
            return false;
        }
        match (&self.permutation, &other.permutation) {
            (None, None) => true,
            (Some(p), Some(q)) => {
                if p.len() != q.len() {
                    return false;
                }
                let mut i: usize = 0;
                while i < p.len()
                    invariant
                        p@.len() == q@.len(),
                        i <= p@.len(),
                        forall|k: int| 0 <= k < i ==> p@[k] == q@[k],
                    decreases p@.len() - i,
                {
                    if p[i] != q[i] {
                        return false;
                    }
                    i += 1;
                }
                assert(p@ =~= q@);
                true
            },
            _ => false,
        }
    }
}

} // verus!
