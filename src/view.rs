//! Views: logical tables over one or more frames, with a map that routes each field to the
//! frame that holds it.
use indexmap::IndexMap;
use vstd::prelude::*;
use crate::error::AgnesError;
use crate::field::{DataType, FieldIdent, FieldType, IdentView, RFieldIdent, renamed_view};
use crate::frame::{DataFrame, compose, filter_result, sorted_field};
use crate::join::{Join, joined_store, kept_right, key_error, keys_joined, sort_merge_join};
use crate::masked::MaybeNa;
use crate::store::DataStore;

verus! {

#[verifier::external_type_specification]
#[verifier::external_body]
#[verifier::reject_recursive_types(K)]
#[verifier::reject_recursive_types(V)]
#[verifier::reject_recursive_types(S)]
pub struct ExIndexMap<K, V, S>(IndexMap<K, V, S>);

/// The entries of a field map, in order.
pub uninterp spec fn field_entries(m: IndexMap<FieldIdent, ViewField>) -> Seq<(FieldIdent, ViewField)>;

/// Relies on `IndexMap::new`: an empty map.
#[verifier::external_body]
fn map_new() -> (r: IndexMap<FieldIdent, ViewField>)
    ensures
        field_entries(r) == Seq::<(FieldIdent, ViewField)>::empty(),
{
    IndexMap::new()
}

/// Relies on `IndexMap::len`: the number of entries.
#[verifier::external_body]
fn map_len(m: &IndexMap<FieldIdent, ViewField>) -> (r: usize)
    ensures
        r == field_entries(*m).len(),
{
    m.len()
}

/// Relies on `IndexMap::get_index_of`: the position of the entry whose key equals `k`.
/// Keys compare by the derived `Eq` of `FieldIdent`, which is equality of views.
#[verifier::external_body]
fn map_index_of(m: &IndexMap<FieldIdent, ViewField>, k: &FieldIdent) -> (r: Option<usize>)
    ensures
        r matches Some(i) ==> i < field_entries(*m).len() && field_entries(*m)[i as int].0@ == k@,
        r is None ==> forall|i: int| 0 <= i < field_entries(*m).len() ==> #[trigger] field_entries(*m)[i].0@ != k@,
{
    m.get_index_of(k)
}

/// Relies on `IndexMap::get_index`: the entry at position `i`.
#[verifier::external_body]
fn map_get_index(m: &IndexMap<FieldIdent, ViewField>, i: usize) -> (r: Option<(&FieldIdent, &ViewField)>)
    ensures
        r.is_some() == (i < field_entries(*m).len()),
        r matches Some(e) ==> (*e.0 == field_entries(*m)[i as int].0 && *e.1 == field_entries(*m)[i as int].1),
{
    m.get_index(i)
}

/// Relies on `IndexMap::insert`: a key not yet present goes in last, with its value.
#[verifier::external_body]
fn map_insert(m: &mut IndexMap<FieldIdent, ViewField>, k: FieldIdent, v: ViewField)
    requires
        forall|i: int| 0 <= i < field_entries(*old(m)).len() ==> #[trigger] field_entries(*old(m))[i].0@ != k@,
    ensures
        field_entries(*final(m)) == field_entries(*old(m)).push((k, v)),
{
    m.insert(k, v);
}

/// Relies on `IndexMap::swap_remove_index`: removes the entry at `i`, moving the last entry
/// into its place.
#[verifier::external_body]
fn map_swap_remove_index(m: &mut IndexMap<FieldIdent, ViewField>, i: usize)
    requires
        i < field_entries(*old(m)).len(),
    ensures
        field_entries(*final(m)) == field_entries(*old(m)).update(i as int, field_entries(*old(m)).last()).drop_last(),
{
    m.swap_remove_index(i);
}

/// A field in a view: the (possibly renamed) identifier and the frame holding the data.
#[derive(Debug, Clone, PartialEq, Eq, Hash)]
pub struct ViewField {
    /// The field identifier in its store, along with renaming information.
    pub rident: RFieldIdent,
    /// Index of the frame with the underlying data.
    pub frame_idx: usize,
}

impl ViewField {
    /// A copy of this field.
    pub fn duplicate(&self) -> (r: ViewField)
        ensures
            r == *self,
    {
        ViewField { rident: self.rident.duplicate(), frame_idx: self.frame_idx }
    }
}

/// The position of the entry with key `id`, if any.
pub open spec fn entry_pos(entries: Seq<(FieldIdent, ViewField)>, id: IdentView) -> Option<int> {
    if exists|i: int| 0 <= i < entries.len() && #[trigger] entries[i].0@ == id {
        Some(choose|i: int| 0 <= i < entries.len() && #[trigger] entries[i].0@ == id)
    } else {
        None
    }
}

/// Keys of `entries` are unique.
pub open spec fn unique_keys(entries: Seq<(FieldIdent, ViewField)>) -> bool {
    forall|i: int, j: int| 0 <= i < j < entries.len() ==> #[trigger] entries[i].0@ != #[trigger] entries[j].0@
}

/// With unique keys, the entry at `i` is the one found for its key.
pub proof fn lemma_entry_pos(entries: Seq<(FieldIdent, ViewField)>, i: int)
    requires
        unique_keys(entries),
        0 <= i < entries.len(),
    ensures
        entry_pos(entries, entries[i].0@) == Some(i),
{
    let id = entries[i].0@;
    assert(exists|k: int| 0 <= k < entries.len() && #[trigger] entries[k].0@ == id);
    let c = choose|k: int| 0 <= k < entries.len() && #[trigger] entries[k].0@ == id;
    if c < i {
        assert(entries[c].0@ != entries[i].0@);
    } else if c > i {
        assert(entries[i].0@ != entries[c].0@);
    }
}

/// A view into one or more data frames: the primary structure for viewing and manipulating
/// data.
#[derive(Debug)]
pub struct DataView {
    frames: Vec<DataFrame>,
    fields: IndexMap<FieldIdent, ViewField>,
}

impl DataView {
    /// The frames of this view.
    pub closed spec fn spec_frames(&self) -> Seq<DataFrame> {
        self.frames@
    }

    /// The fields of this view, in order: the identifier each is known by, and where it is.
    pub closed spec fn spec_fields(&self) -> Seq<(FieldIdent, ViewField)> {
        field_entries(self.fields)
    }

    /// The number of rows: that of every frame (zero without frames).
    pub open spec fn spec_nrows(&self) -> nat {
        if self.spec_frames().len() == 0 {
            0
        } else {
            self.spec_frames()[0].spec_rows().len()
        }
    }

    /// Well-formed: frames are well-formed and of equal row count; field identifiers are
    /// unique, each is its entry's renamed identifier, and each entry names a frame and a
    /// field of that frame's store.
    pub open spec fn wf(&self) -> bool {
        &&& forall|f: int| 0 <= f < self.spec_frames().len() ==> (#[trigger] self.spec_frames()[f]).wf()
        &&& forall|f: int|
            0 <= f < self.spec_frames().len() ==> (#[trigger] self.spec_frames()[f]).spec_rows().len()
                == self.spec_nrows()
        &&& unique_keys(self.spec_fields())
        &&& forall|i: int|
            0 <= i < self.spec_fields().len() ==> {
                let e = #[trigger] self.spec_fields()[i];
                &&& e.0@ == renamed_view(e.1.rident@)
                &&& e.1.frame_idx < self.spec_frames().len()
                &&& self.spec_frames()[e.1.frame_idx as int].spec_store().lookup(e.1.rident.ident@).is_some()
            }
    }

    /// The field known as `id` in this view, if any.
    pub open spec fn lookup(&self, id: IdentView) -> Option<ViewField> {
        match entry_pos(self.spec_fields(), id) {
            Some(i) => Some(self.spec_fields()[i].1),
            None => None,
        }
    }

    /// The visible values of the field known as `id`, as values of type `T`.
    pub open spec fn column<T: DataType>(&self, id: IdentView) -> Option<Seq<MaybeNa<T>>> {
        match self.lookup(id) {
            Some(vf) => self.spec_frames()[vf.frame_idx as int].visible::<T>(vf.rident.ident@),
            None => None,
        }
    }

    /// The kind of the field known as `id`, if any.
    pub open spec fn kind_of(&self, id: IdentView) -> Option<FieldType> {
        match self.lookup(id) {
            Some(vf) => match self.spec_frames()[vf.frame_idx as int].spec_store().lookup(vf.rident.ident@) {
                Some(d) => Some(d.spec_kind()),
                None => None,
            },
            None => None,
        }
    }

    /// The entries of a view over one store with no renames: one per field of `store`.
    pub open spec fn store_entries(store: DataStore) -> Seq<(FieldIdent, ViewField)> {
        store.spec_fields().map_values(|f: (FieldIdent, crate::masked::FieldData)|
            (f.0, ViewField { rident: RFieldIdent { ident: f.0, rename: None }, frame_idx: 0 }))
    }

    /// A view of every field and row of `store`.
    pub fn from_store(store: DataStore) -> (r: DataView)
        requires
            store.wf(),
        ensures
            r.wf(),
            r.spec_nrows() == store.spec_nrows(),
            r.spec_frames().len() == 1,
            r.spec_frames()[0].spec_store() == store,
            r.spec_frames()[0].spec_rows() == Seq::new(store.spec_nrows(), |i: int| i as usize),
            r.spec_fields() == Self::store_entries(store),
    {
        let idents = store.fieldnames();
        let mut fields = map_new();
        let ghost target = Self::store_entries(store);
        let frame = DataFrame::new(store);
        let mut frames: Vec<DataFrame> = Vec::new();
        frames.push(frame);
        let mut i: usize = 0;
        while i < idents.len()
            invariant
                store.wf(),
                idents@.len() == store.spec_fields().len(),
                forall|k: int| 0 <= k < idents@.len() ==> #[trigger] idents@[k] == store.spec_fields()[k].0,
                target == Self::store_entries(store),
                i <= idents@.len(),
                field_entries(fields) == target.subrange(0, i as int),
            decreases idents@.len() - i,
        {
            let id = idents[i].duplicate();
            let vf = ViewField { rident: RFieldIdent { ident: idents[i].duplicate(), rename: None }, frame_idx: 0 };
            proof {
                assert forall|k: int| 0 <= k < field_entries(fields).len() implies #[trigger] field_entries(fields)[k].0@ != id@ by {
                    assert(field_entries(fields)[k].0 == store.spec_fields()[k].0);
                    assert(store.spec_fields()[k].0@ != store.spec_fields()[i as int].0@);
                }
            }
            map_insert(&mut fields, id, vf);
            i += 1;
            assert(field_entries(fields) =~= target.subrange(0, i as int));
        }
        assert(target.subrange(0, i as int) =~= target);
        let r = DataView { frames, fields };
        proof {
            assert(r.spec_frames()[0] == frame);
            assert forall|k: int| 0 <= k < r.spec_fields().len() implies {
                let e = #[trigger] r.spec_fields()[k];
                &&& e.0@ == renamed_view(e.1.rident@)
                &&& e.1.frame_idx < r.spec_frames().len()
                &&& r.spec_frames()[e.1.frame_idx as int].spec_store().lookup(e.1.rident.ident@).is_some()
            } by {
                store.lemma_position(k);
            }
            assert forall|a: int, b: int| 0 <= a < b < r.spec_fields().len() implies #[trigger] r.spec_fields()[a].0@ != #[trigger] r.spec_fields()[b].0@ by {
                assert(r.spec_fields()[a].0 == store.spec_fields()[a].0);
                assert(r.spec_fields()[b].0 == store.spec_fields()[b].0);
            }
        }
        r
    }

    /// The position of the field known as `ident`.
    fn find(&self, ident: &FieldIdent) -> (r: Option<usize>)
        requires
            self.wf(),
        ensures
            r matches Some(i) ==> (i < self.spec_fields().len() && entry_pos(self.spec_fields(), ident@) == Some(i as int)),
            r is None ==> entry_pos(self.spec_fields(), ident@) is None,
    {
        let r = map_index_of(&self.fields, ident);
        proof {
            if let Some(i) = r {
                lemma_entry_pos(self.spec_fields(), i as int);
            }
        }
        r
    }

    /// The field known as `ident`, if any.
    fn get_view_field(&self, ident: &FieldIdent) -> (r: Option<ViewField>)
        requires
            self.wf(),
        ensures
            r == self.lookup(ident@),
    {
        match self.find(ident) {
            Some(i) => match map_get_index(&self.fields, i) {
                Some(e) => Some(e.1.duplicate()),
                None => None,
            },
            None => None,
        }
    }

    /// A view over the same frames, with copies of their rows and of the field map.
    pub fn duplicate(&self) -> (r: DataView)
        requires
            self.wf(),
        ensures
            r.wf(),
            r.spec_fields() == self.spec_fields(),
            r.spec_frames().len() == self.spec_frames().len(),
            forall|f: int| 0 <= f < r.spec_frames().len() ==> (#[trigger] r.spec_frames()[f]).spec_store()
                == self.spec_frames()[f].spec_store() && r.spec_frames()[f].spec_rows() == self.spec_frames()[f].spec_rows(),
    {
        let mut frames: Vec<DataFrame> = Vec::new();
        let mut f: usize = 0;
        while f < self.frames.len()
            invariant
                f <= self.spec_frames().len(),
                frames@.len() == f,
                forall|k: int| 0 <= k < f ==> (#[trigger] frames@[k]).spec_store() == self.spec_frames()[k].spec_store()
                    && frames@[k].spec_rows() == self.spec_frames()[k].spec_rows(),
            decreases self.spec_frames().len() - f,
        {
            frames.push(self.frames[f].duplicate());
            f += 1;
        }
        let mut fields = map_new();
        let n = map_len(&self.fields);
        let mut i: usize = 0;
        while i < n
            invariant
                self.wf(),
                n == self.spec_fields().len(),
                i <= n,
                field_entries(fields) == self.spec_fields().subrange(0, i as int),
            decreases n - i,
        {
            match map_get_index(&self.fields, i) {
                Some(e) => {
                    proof {
                        assert forall|k: int| 0 <= k < field_entries(fields).len() implies #[trigger] field_entries(fields)[k].0@ != e.0@ by {
                            assert(field_entries(fields)[k] == self.spec_fields()[k]);
                        }
                    }
                    map_insert(&mut fields, e.0.duplicate(), e.1.duplicate());
                },
                None => {},
            }
            i += 1;
            assert(field_entries(fields) =~= self.spec_fields().subrange(0, i as int));
        }
        assert(self.spec_fields().subrange(0, i as int) =~= self.spec_fields());
        DataView { frames, fields }
    }

    /// The frames of this view.
    pub fn frames(&self) -> (r: &Vec<DataFrame>)
        ensures
            r@ == self.spec_frames(),
    {
        &self.frames
    }

    /// The number of rows in this view.
    pub fn nrows(&self) -> (r: usize)
        requires
            self.wf(),
        ensures
            r == self.spec_nrows(),
    {
        if self.frames.len() == 0 {
            0
        } else {
            self.frames[0].nrows()
        }
    }

    /// Whether this view has no rows.
    pub fn is_empty(&self) -> (r: bool)
        requires
            self.wf(),
        ensures
            r == (self.spec_nrows() == 0),
    {
        self.nrows() == 0
    }

    /// The number of fields in this view.
    pub fn nfields(&self) -> (r: usize)
        ensures
            r == self.spec_fields().len(),
    {
        map_len(&self.fields)
    }

    /// The identifiers of the fields, in order.
    pub fn fieldnames(&self) -> (r: Vec<FieldIdent>)
        ensures
            r@.len() == self.spec_fields().len(),
            forall|i: int| 0 <= i < r@.len() ==> #[trigger] r@[i] == self.spec_fields()[i].0,
    {
        let mut r: Vec<FieldIdent> = Vec::new();
        let n = map_len(&self.fields);
        let mut i: usize = 0;
        while i < n
            invariant
                n == self.spec_fields().len(),
                i <= n,
                r@.len() == i,
                forall|k: int| 0 <= k < i ==> #[trigger] r@[k] == self.spec_fields()[k].0,
            decreases n - i,
        {
            match map_get_index(&self.fields, i) {
                Some(e) => r.push(e.0.duplicate()),
                None => {},
            }
            i += 1;
        }
        r
    }

    /// The identifiers of the fields, in order (as `fieldnames`).
    pub fn fields(&self) -> (r: Vec<FieldIdent>)
        ensures
            r@.len() == self.spec_fields().len(),
            forall|i: int| 0 <= i < r@.len() ==> #[trigger] r@[i] == self.spec_fields()[i].0,
    {
        self.fieldnames()
    }

    /// Whether this view has a field known as `ident`.
    pub fn has_field(&self, ident: &FieldIdent) -> (r: bool)
        requires
            self.wf(),
        ensures
            r == self.lookup(ident@).is_some(),
    {
        self.find(ident).is_some()
    }

    /// The kind of the field known as `ident`, if any.
    pub fn get_field_type(&self, ident: &FieldIdent) -> (r: Option<FieldType>)
        requires
            self.wf(),
        ensures
            r == self.kind_of(ident@),
            self.lookup(ident@).is_some() ==> r.is_some(),
    {
        match self.get_view_field(ident) {
            Some(vf) => {
                proof {
                    let i = entry_pos(self.spec_fields(), ident@)->Some_0;
                    assert(self.spec_fields()[i].1 == vf);
                }
                self.frames[vf.frame_idx].get_field_type(&vf.rident.ident)
            },
            None => None,
        }
    }

    /// The visible values of the field known as `ident`, in row order: fails with
    /// `FieldNotFound` if there is no such field and with `IncompatibleTypes` if it holds
    /// another kind than `T`.
    pub fn field<T: DataType>(&self, ident: &FieldIdent) -> (r: Result<Vec<MaybeNa<T>>, AgnesError>)
        requires
            self.wf(),
        ensures
            match r {
                Ok(v) => self.column::<T>(ident@) == Some(v@),
                Err(e) => self.column::<T>(ident@).is_none() && match self.kind_of(ident@) {
                    None => e == AgnesError::FieldNotFound(*ident),
                    Some(k) => e == (AgnesError::IncompatibleTypes { expected: T::spec_kind(), actual: k }),
                },
            },
    {
        match self.get_view_field(ident) {
            Some(vf) => {
                proof {
                    let i = entry_pos(self.spec_fields(), ident@)->Some_0;
                    assert(self.spec_fields()[i].1 == vf);
                }
                match self.frames[vf.frame_idx].values::<T>(&vf.rident.ident) {
                    Ok(v) => Ok(v),
                    Err(e) => Err(
                        match e {
                            AgnesError::IncompatibleTypes { expected, actual } => AgnesError::IncompatibleTypes { expected, actual },
                            _ => AgnesError::FieldNotFound(ident.duplicate()),
                        },
                    ),
                }
            },
            None => Err(AgnesError::FieldNotFound(ident.duplicate())),
        }
    }

    /// Applies `f` to the visible values of the field known as `ident`, with the failures of
    /// `field`.
    pub fn tmap<T: DataType, R, F: Fn(&Vec<MaybeNa<T>>) -> R>(&self, ident: &FieldIdent, f: F) -> (r: Result<R, AgnesError>)
        requires
            self.wf(),
            forall|v: Vec<MaybeNa<T>>| f.requires((&v,)),
        ensures
            match r {
                Ok(out) => exists|v: Vec<MaybeNa<T>>| self.column::<T>(ident@) == Some(v@) && f.ensures((&v,), out),
                Err(e) => self.column::<T>(ident@).is_none() && match self.kind_of(ident@) {
                    None => e == AgnesError::FieldNotFound(*ident),
                    Some(k) => e == (AgnesError::IncompatibleTypes { expected: T::spec_kind(), actual: k }),
                },
            },
    {
        let vals = self.field::<T>(ident)?;
        let out = f(&vals);
        Ok(out)
    }

    /// Replaces the frames by `owner` at `owner_idx` and, elsewhere, by the frames with only
    /// the logical rows `sel` kept, in order.
    fn propagate(&mut self, owner_idx: usize, owner: DataFrame, sel: &Vec<usize>)
        requires
            old(self).wf(),
            owner_idx < old(self).spec_frames().len(),
            owner.wf(),
            owner.spec_store() == old(self).spec_frames()[owner_idx as int].spec_store(),
            owner.spec_rows() == compose(old(self).spec_frames()[owner_idx as int].spec_rows(), sel@),
            forall|i: int| 0 <= i < sel@.len() ==> #[trigger] sel@[i] < old(self).spec_nrows(),
        ensures
            final(self).wf(),
            final(self).spec_fields() == old(self).spec_fields(),
            final(self).spec_frames().len() == old(self).spec_frames().len(),
            final(self).spec_nrows() == sel@.len(),
            forall|f: int| 0 <= f < final(self).spec_frames().len() ==> (#[trigger] final(self).spec_frames()[f]).spec_store()
                == old(self).spec_frames()[f].spec_store() && final(self).spec_frames()[f].spec_rows()
                == compose(old(self).spec_frames()[f].spec_rows(), sel@),
    {
        let mut frames: Vec<DataFrame> = Vec::new();
        let n = self.frames.len();
        let mut f: usize = 0;
        while f < n
            invariant
                self.wf(),
                n == self.spec_frames().len(),
                owner_idx < n,
                owner.spec_store() == self.spec_frames()[owner_idx as int].spec_store(),
                owner.spec_rows() == compose(self.spec_frames()[owner_idx as int].spec_rows(), sel@),
                forall|i: int| 0 <= i < sel@.len() ==> #[trigger] sel@[i] < self.spec_nrows(),
                f <= n,
                frames@.len() == f,
                forall|k: int| 0 <= k < f ==> (#[trigger] frames@[k]).wf() && frames@[k].spec_store()
                    == self.spec_frames()[k].spec_store() && frames@[k].spec_rows()
                    == compose(self.spec_frames()[k].spec_rows(), sel@),
            decreases n - f,
        {
            let mut fr = self.frames[f].duplicate();
            if f == owner_idx {
                fr = owner.duplicate();
                assert(self.spec_frames()[f as int].wf());
            } else {
                assert(self.spec_frames()[f as int].wf());
                fr.update_permutation(sel);
            }
            frames.push(fr);
            f += 1;
        }
        self.frames = frames;
        proof {
            assert(self.spec_frames()[owner_idx as int].spec_rows().len() == sel@.len());
            assert forall|i: int| 0 <= i < self.spec_fields().len() implies {
                let e = #[trigger] self.spec_fields()[i];
                &&& e.0@ == renamed_view(e.1.rident@)
                &&& e.1.frame_idx < self.spec_frames().len()
                &&& self.spec_frames()[e.1.frame_idx as int].spec_store().lookup(e.1.rident.ident@).is_some()
            } by {
                assert(self.spec_fields()[i] == old(self).spec_fields()[i]);
            }
        }
    }

    /// Filters this view on the field known as `ident`: keeps the rows whose value exists and
    /// passes `pred`, in every frame, and returns their row indices (before the filter).
    pub fn filter<T: DataType, F: Fn(&T) -> bool>(&mut self, ident: &FieldIdent, pred: F) -> (r: Result<Vec<usize>, AgnesError>)
        requires
            old(self).wf(),
            forall|v: T| pred.requires((&v,)),
        ensures
            final(self).wf(),
            final(self).spec_fields() == old(self).spec_fields(),
            final(self).spec_frames().len() == old(self).spec_frames().len(),
            forall|f: int| 0 <= f < final(self).spec_frames().len() ==> (#[trigger] final(self).spec_frames()[f]).spec_store()
                == old(self).spec_frames()[f].spec_store(),
            match r {
                Ok(sel) => (old(self).column::<T>(ident@) matches Some(vals) && filter_result(vals, pred, sel@))
                    && final(self).spec_nrows() == sel@.len()
                    && forall|f: int| 0 <= f < final(self).spec_frames().len() ==> (#[trigger] final(self).spec_frames()[f]).spec_rows()
                        == compose(old(self).spec_frames()[f].spec_rows(), sel@),
                Err(e) => (forall|f: int| 0 <= f < final(self).spec_frames().len() ==> (#[trigger] final(self).spec_frames()[f]).spec_rows()
                        == old(self).spec_frames()[f].spec_rows())
                    && old(self).column::<T>(ident@).is_none() && match old(self).kind_of(ident@) {
                    None => e == AgnesError::FieldNotFound(*ident),
                    Some(k) => e == (AgnesError::IncompatibleTypes { expected: T::spec_kind(), actual: k }),
                },
            },
    {
        match self.get_view_field(ident) {
            Some(vf) => {
                proof {
                    let i = entry_pos(self.spec_fields(), ident@)->Some_0;
                    assert(self.spec_fields()[i].1 == vf);
                    assert(self.spec_frames()[vf.frame_idx as int].wf());
                }
                let mut owner = self.frames[vf.frame_idx].duplicate();
                match owner.filter(&vf.rident.ident, pred) {
                    Ok(sel) => {
                        self.propagate(vf.frame_idx, owner, &sel);
                        Ok(sel)
                    },
                    Err(e) => Err(
                        match e {
                            AgnesError::IncompatibleTypes { expected, actual } => AgnesError::IncompatibleTypes { expected, actual },
                            _ => AgnesError::FieldNotFound(ident.duplicate()),
                        },
                    ),
                }
            },
            None => Err(AgnesError::FieldNotFound(ident.duplicate())),
        }
    }

    /// Sorts this view (ascending, stably) by the field known as `ident`, in every frame, and
    /// returns the sort order as row indices (before the sort).
    pub fn sort_by(&mut self, ident: &FieldIdent) -> (r: Result<Vec<usize>, AgnesError>)
        requires
            old(self).wf(),
        ensures
            final(self).wf(),
            final(self).spec_fields() == old(self).spec_fields(),
            final(self).spec_frames().len() == old(self).spec_frames().len(),
            forall|f: int| 0 <= f < final(self).spec_frames().len() ==> (#[trigger] final(self).spec_frames()[f]).spec_store()
                == old(self).spec_frames()[f].spec_store(),
            match r {
                Ok(order) => (old(self).lookup(ident@) matches Some(vf) && sorted_field(
                    old(self).spec_frames()[vf.frame_idx as int].spec_store(),
                    old(self).spec_frames()[vf.frame_idx as int].spec_rows(),
                    vf.rident.ident@,
                    order@,
                )) && final(self).spec_nrows() == old(self).spec_nrows()
                    && forall|f: int| 0 <= f < final(self).spec_frames().len() ==> (#[trigger] final(self).spec_frames()[f]).spec_rows()
                        == compose(old(self).spec_frames()[f].spec_rows(), order@),
                Err(e) => (forall|f: int| 0 <= f < final(self).spec_frames().len() ==> (#[trigger] final(self).spec_frames()[f]).spec_rows()
                        == old(self).spec_frames()[f].spec_rows())
                    && old(self).lookup(ident@).is_none() && e == AgnesError::FieldNotFound(*ident),
            },
    {
        match self.get_view_field(ident) {
            Some(vf) => {
                proof {
                    let i = entry_pos(self.spec_fields(), ident@)->Some_0;
                    assert(self.spec_fields()[i].1 == vf);
                    assert(self.spec_frames()[vf.frame_idx as int].wf());
                }
                let mut owner = self.frames[vf.frame_idx].duplicate();
                match owner.sort_by(&vf.rident.ident) {
                    Ok(order) => {
                        proof {
                            crate::frame::lemma_sorted_field_len(
                                self.spec_frames()[vf.frame_idx as int].spec_store(),
                                self.spec_frames()[vf.frame_idx as int].spec_rows(),
                                vf.rident.ident@,
                                order@,
                            );
                        }
                        self.propagate(vf.frame_idx, owner, &order);
                        Ok(order)
                    },
                    Err(_) => Err(AgnesError::FieldNotFound(ident.duplicate())),
                }
            },
            None => Err(AgnesError::FieldNotFound(ident.duplicate())),
        }
    }

    /// The entry that renaming the field `vf` to `new` gives.
    pub open spec fn renamed_entry(vf: ViewField, new: FieldIdent) -> (FieldIdent, ViewField) {
        (new, ViewField { rident: RFieldIdent { ident: vf.rident.ident, rename: Some(new) }, frame_idx: vf.frame_idx })
    }

    /// Renames the field known as `orig` to `new`, in place. Fails with `FieldCollision([new])`
    /// if a field is known as `new`, and with `FieldNotFound(orig)` if none is known as `orig`.
    pub fn rename(&mut self, orig: FieldIdent, new: FieldIdent) -> (r: Result<(), AgnesError>)
        requires
            old(self).wf(),
        ensures
            final(self).wf(),
            final(self).spec_frames() == old(self).spec_frames(),
            r is Ok <==> (old(self).lookup(new@).is_none() && old(self).lookup(orig@).is_some()),
            old(self).lookup(new@).is_some() ==> (r matches Err(AgnesError::FieldCollision(v)) && v@ == seq![new]),
            old(self).lookup(new@).is_none() && old(self).lookup(orig@).is_none() ==> r == Err::<(), AgnesError>(
                AgnesError::FieldNotFound(orig),
            ),
            r is Err ==> final(self).spec_fields() == old(self).spec_fields(),
            r is Ok ==> ({
                let p = entry_pos(old(self).spec_fields(), orig@)->Some_0;
                final(self).spec_fields() == old(self).spec_fields().update(
                    p,
                    Self::renamed_entry(old(self).spec_fields()[p].1, new),
                )
            }),
    {
        if self.find(&new).is_some() {
            let mut v: Vec<FieldIdent> = Vec::new();
            v.push(new);
            assert(v@ =~= seq![new]);
            return Err(AgnesError::FieldCollision(v));
        }
        let pos = match self.find(&orig) {
            Some(p) => p,
            None => { return Err(AgnesError::FieldNotFound(orig)); },
        };
        let new_vf = match map_get_index(&self.fields, pos) {
            Some(e) => ViewField {
                rident: RFieldIdent { ident: e.1.rident.ident.duplicate(), rename: Some(new.duplicate()) },
                frame_idx: e.1.frame_idx,
            },
            None => { return Err(AgnesError::FieldNotFound(orig)); },
        };
        let ghost before = self.spec_fields();
        proof {
            assert(new_vf == Self::renamed_entry(before[pos as int].1, new).1);
        }
        map_insert(&mut self.fields, new, new_vf);
        map_swap_remove_index(&mut self.fields, pos);
        proof {
            let after = before.update(pos as int, Self::renamed_entry(before[pos as int].1, new));
            assert(self.spec_fields() =~= after);
            assert forall|a: int, b: int| 0 <= a < b < after.len() implies #[trigger] after[a].0@ != #[trigger] after[b].0@ by {
                if a != pos && b != pos {
                    assert(before[a].0@ != before[b].0@);
                }
            }
            assert forall|i: int| 0 <= i < after.len() implies {
                let e = #[trigger] after[i];
                &&& e.0@ == renamed_view(e.1.rident@)
                &&& e.1.frame_idx < self.spec_frames().len()
                &&& self.spec_frames()[e.1.frame_idx as int].spec_store().lookup(e.1.rident.ident@).is_some()
            } by {
                assert(old(self).spec_fields()[i] == before[i]);
            }
        }
        Ok(())
    }

    /// The entries a subview with the fields `ids` keeps: in the order of `ids`, the entry of
    /// each identifier that this view has, once.
    pub open spec fn picked(entries: Seq<(FieldIdent, ViewField)>, ids: Seq<FieldIdent>) -> Seq<(FieldIdent, ViewField)>
        decreases ids.len(),
    {
        if ids.len() == 0 {
            Seq::empty()
        } else {
            let prev = Self::picked(entries, ids.drop_last());
            match entry_pos(entries, ids.last()@) {
                Some(i) => if entry_pos(prev, ids.last()@).is_some() {
                    prev
                } else {
                    prev.push(entries[i])
                },
                None => prev,
            }
        }
    }

    /// An entry of this view is well placed: its key is its renamed identifier, and it names a
    /// frame and a field of that frame's store.
    pub open spec fn entry_ok(&self, e: (FieldIdent, ViewField)) -> bool {
        &&& e.0@ == renamed_view(e.1.rident@)
        &&& e.1.frame_idx < self.spec_frames().len()
        &&& self.spec_frames()[e.1.frame_idx as int].spec_store().lookup(e.1.rident.ident@).is_some()
    }

    /// Copies of the frames of this view.
    fn copy_frames(&self) -> (r: Vec<DataFrame>)
        ensures
            r@.len() == self.spec_frames().len(),
            forall|f: int| 0 <= f < r@.len() ==> (#[trigger] r@[f]).spec_store() == self.spec_frames()[f].spec_store()
                && r@[f].spec_rows() == self.spec_frames()[f].spec_rows(),
    {
        let mut frames: Vec<DataFrame> = Vec::new();
        let mut f: usize = 0;
        while f < self.frames.len()
            invariant
                f <= self.spec_frames().len(),
                frames@.len() == f,
                forall|k: int| 0 <= k < f ==> (#[trigger] frames@[k]).spec_store() == self.spec_frames()[k].spec_store()
                    && frames@[k].spec_rows() == self.spec_frames()[k].spec_rows(),
            decreases self.spec_frames().len() - f,
        {
            frames.push(self.frames[f].duplicate());
            f += 1;
        }
        frames
    }

    /// The field map of a subview with the fields `idents`; when `strict`, the position of the
    /// first identifier that this view lacks instead.
    fn pick_fields(&self, idents: &Vec<FieldIdent>, strict: bool) -> (r: Result<IndexMap<FieldIdent, ViewField>, usize>)
        requires
            self.wf(),
        ensures
            match r {
                Ok(m) => field_entries(m) == Self::picked(self.spec_fields(), idents@)
                    && unique_keys(field_entries(m))
                    && (forall|k: int| 0 <= k < field_entries(m).len() ==> self.entry_ok(#[trigger] field_entries(m)[k]))
                    && (strict ==> forall|k: int| 0 <= k < idents@.len() ==> self.lookup(#[trigger] idents@[k]@).is_some()),
                Err(k) => strict && k < idents@.len() && self.lookup(idents@[k as int]@).is_none()
                    && forall|j: int| 0 <= j < k ==> self.lookup(#[trigger] idents@[j]@).is_some(),
            },
    {
        let mut fields = map_new();
        let mut i: usize = 0;
        while i < idents.len()
            invariant
                self.wf(),
                i <= idents@.len(),
                field_entries(fields) == Self::picked(self.spec_fields(), idents@.subrange(0, i as int)),
                unique_keys(field_entries(fields)),
                forall|k: int| 0 <= k < field_entries(fields).len() ==> self.entry_ok(#[trigger] field_entries(fields)[k]),
                strict ==> forall|j: int| 0 <= j < i ==> self.lookup(#[trigger] idents@[j]@).is_some(),
            decreases idents@.len() - i,
        {
            let ghost prev = field_entries(fields);
            proof {
                assert(idents@.subrange(0, i + 1).drop_last() =~= idents@.subrange(0, i as int));
                assert(idents@.subrange(0, i + 1).last() == idents@[i as int]);
            }
            match self.find(&idents[i]) {
                Some(p) => {
                    match map_index_of(&fields, &idents[i]) {
                        Some(q) => {
                            proof {
                                lemma_entry_pos(prev, q as int);
                            }
                        },
                        None => {
                            match map_get_index(&self.fields, p) {
                                Some(e) => {
                                    proof {
                                        assert(entry_pos(prev, idents@[i as int]@) is None);
                                        assert(self.spec_fields()[p as int].0@ == idents@[i as int]@) by {
                                            lemma_entry_pos(self.spec_fields(), p as int);
                                        }
                                    }
                                    map_insert(&mut fields, e.0.duplicate(), e.1.duplicate());
                                    proof {
                                        assert(self.entry_ok(self.spec_fields()[p as int]));
                                    }
                                },
                                None => {},
                            }
                        },
                    }
                },
                None => {
                    if strict {
                        return Err(i);
                    }
                },
            }
            i += 1;
        }
        assert(idents@.subrange(0, i as int) =~= idents@);
        Ok(fields)
    }

    /// A subview with the fields `idents` that this view has, in that order; the others are
    /// left out. Frames are shared.
    pub fn v(&self, idents: &Vec<FieldIdent>) -> (r: DataView)
        requires
            self.wf(),
        ensures
            r.wf(),
            r.spec_fields() == Self::picked(self.spec_fields(), idents@),
            r.spec_frames().len() == self.spec_frames().len(),
            forall|f: int| 0 <= f < r.spec_frames().len() ==> (#[trigger] r.spec_frames()[f]).spec_store()
                == self.spec_frames()[f].spec_store() && r.spec_frames()[f].spec_rows() == self.spec_frames()[f].spec_rows(),
    {
        let frames = self.copy_frames();
        match self.pick_fields(idents, false) {
            Ok(fields) => {
                let r = DataView { frames, fields };
                proof {
                    assert forall|k: int| 0 <= k < r.spec_fields().len() implies r.entry_ok(#[trigger] r.spec_fields()[k]) by {
                        assert(self.entry_ok(r.spec_fields()[k]));
                    }
                }
                r
            },
            Err(_) => {
                proof { assert(false); }
                DataView { frames, fields: map_new() }
            },
        }
    }

    /// A subview with the fields `idents`, in that order; fails with `FieldNotFound` naming
    /// the first of them that this view lacks. Frames are shared.
    pub fn subview(&self, idents: &Vec<FieldIdent>) -> (r: Result<DataView, AgnesError>)
        requires
            self.wf(),
        ensures
            r is Ok <==> forall|k: int| 0 <= k < idents@.len() ==> self.lookup(#[trigger] idents@[k]@).is_some(),
            match r {
                Ok(d) => d.wf() && d.spec_fields() == Self::picked(self.spec_fields(), idents@)
                    && d.spec_frames().len() == self.spec_frames().len()
                    && forall|f: int| 0 <= f < d.spec_frames().len() ==> (#[trigger] d.spec_frames()[f]).spec_store()
                        == self.spec_frames()[f].spec_store() && d.spec_frames()[f].spec_rows() == self.spec_frames()[f].spec_rows(),
                Err(e) => exists|k: int| 0 <= k < idents@.len() && self.lookup(#[trigger] idents@[k]@).is_none()
                    && e == AgnesError::FieldNotFound(idents@[k])
                    && forall|j: int| 0 <= j < k ==> self.lookup(#[trigger] idents@[j]@).is_some(),
            },
    {
        match self.pick_fields(idents, true) {
            Ok(fields) => {
                let frames = self.copy_frames();
                let r = DataView { frames, fields };
                proof {
                    assert forall|k: int| 0 <= k < r.spec_fields().len() implies r.entry_ok(#[trigger] r.spec_fields()[k]) by {
                        assert(self.entry_ok(r.spec_fields()[k]));
                    }
                }
                Ok(r)
            },
            Err(k) => {
                proof {
                    assert(self.lookup(idents@[k as int]@).is_none());
                }
                Err(AgnesError::FieldNotFound(idents[k].duplicate()))
            },
        }
    }

    /// The identifiers of the entries `b` that `a` has too, in the order of `b`.
    pub open spec fn colliding(a: Seq<(FieldIdent, ViewField)>, b: Seq<(FieldIdent, ViewField)>) -> Seq<IdentView>
        decreases b.len(),
    {
        if b.len() == 0 {
            Seq::empty()
        } else {
            let prev = Self::colliding(a, b.drop_last());
            if entry_pos(a, b.last().0@).is_some() {
                prev.push(b.last().0@)
            } else {
                prev
            }
        }
    }

    /// Two frames show the same data.
    pub open spec fn same_frame(x: DataFrame, y: DataFrame) -> bool {
        x.spec_store() == y.spec_store() && x.spec_rows() == y.spec_rows()
    }

    /// `d` is the merge of `a` and `b`: the fields of `a` followed by those of `b`, each still
    /// on a frame that shows the data it showed in its source.
    pub open spec fn merged(a: DataView, b: DataView, d: DataView) -> bool {
        &&& d.wf()
        &&& d.spec_nrows() == a.spec_nrows()
        &&& d.spec_fields().len() == a.spec_fields().len() + b.spec_fields().len()
        &&& d.spec_frames().len() >= a.spec_frames().len()
        &&& forall|f: int| 0 <= f < a.spec_frames().len() ==> Self::same_frame(#[trigger] d.spec_frames()[f], a.spec_frames()[f])
        &&& forall|i: int| 0 <= i < a.spec_fields().len() ==> #[trigger] d.spec_fields()[i] == a.spec_fields()[i]
        &&& forall|j: int| 0 <= j < b.spec_fields().len() ==> {
            let e = #[trigger] d.spec_fields()[a.spec_fields().len() + j];
            &&& e.0 == b.spec_fields()[j].0
            &&& e.1.rident == b.spec_fields()[j].1.rident
            &&& Self::same_frame(d.spec_frames()[e.1.frame_idx as int], b.spec_frames()[b.spec_fields()[j].1.frame_idx as int])
        }
    }

    /// Merges this view with `other`: a view with the rows of both, and the fields of this
    /// view followed by those of `other`. Fails with `DimensionMismatch` if the row counts
    /// differ, and with `FieldCollision` naming the fields of `other` that this view has too.
    /// Frames that show the same data are shared rather than repeated.
    pub fn merge(&self, other: &DataView) -> (r: Result<DataView, AgnesError>)
        requires
            self.wf(),
            other.wf(),
        ensures
            r is Ok <==> (self.spec_nrows() == other.spec_nrows()
                && Self::colliding(self.spec_fields(), other.spec_fields()).len() == 0),
            self.spec_nrows() != other.spec_nrows() ==> r matches Err(AgnesError::DimensionMismatch(_)),
            self.spec_nrows() == other.spec_nrows() && Self::colliding(self.spec_fields(), other.spec_fields()).len() != 0
                ==> (r matches Err(AgnesError::FieldCollision(v))
                && v@.map_values(|f: FieldIdent| f@) == Self::colliding(self.spec_fields(), other.spec_fields())),
            r matches Ok(d) ==> Self::merged(*self, *other, d),
    {
        if self.nrows() != other.nrows() {
            return Err(AgnesError::DimensionMismatch("number of rows mismatch in merge".to_string()));
        }
        let (frames, mapping) = self.compute_merged_frames(other);
        let fields = match self.compute_merged_field_list(other, &mapping) {
            Ok(fields) => fields,
            Err(coll) => { return Err(AgnesError::FieldCollision(coll)); },
        };
        let d = DataView { frames, fields };
        proof {
            self.lemma_merge_wf(*other, d, mapping@);
        }
        Ok(d)
    }

    /// The frames of a merge: the frames of this view, then those of `other` that show other
    /// data (a frame of `other` showing the same rows of the same store is shared); and, for
    /// each frame of `other`, the index of the merged frame that shows its data.
    fn compute_merged_frames(&self, other: &DataView) -> (r: (Vec<DataFrame>, Vec<usize>))
        requires
            self.wf(),
            other.wf(),
            self.spec_nrows() == other.spec_nrows(),
        ensures
            self.spec_frames().len() <= r.0@.len(),
            forall|f: int| 0 <= f < self.spec_frames().len() ==> Self::same_frame(#[trigger] r.0@[f], self.spec_frames()[f]),
            forall|f: int| 0 <= f < r.0@.len() ==> (#[trigger] r.0@[f]).wf() && r.0@[f].spec_rows().len() == self.spec_nrows(),
            r.1@.len() == other.spec_frames().len(),
            forall|q: int| 0 <= q < other.spec_frames().len() ==> #[trigger] r.1@[q] < r.0@.len()
                && Self::same_frame(r.0@[r.1@[q] as int], other.spec_frames()[q]),
    {
        let mut frames = self.copy_frames();
        let nfa = self.frames.len();
        let mut mapping: Vec<usize> = Vec::new();
        let mut k: usize = 0;
        while k < other.frames.len()
            invariant
                self.wf(),
                other.wf(),
                self.spec_nrows() == other.spec_nrows(),
                nfa == self.spec_frames().len(),
                nfa <= frames@.len(),
                k <= other.spec_frames().len(),
                mapping@.len() == k,
                forall|f: int| 0 <= f < nfa ==> Self::same_frame(#[trigger] frames@[f], self.spec_frames()[f]),
                forall|f: int| 0 <= f < frames@.len() ==> (#[trigger] frames@[f]).wf()
                    && frames@[f].spec_rows().len() == self.spec_nrows(),
                frames@.len() > 0 ==> (frames@[0]).spec_rows().len() == self.spec_nrows(),
                forall|q: int| 0 <= q < k ==> #[trigger] mapping@[q] < frames@.len()
                    && Self::same_frame(frames@[mapping@[q] as int], other.spec_frames()[q]),
            decreases other.spec_frames().len() - k,
        {
            let mut found: Option<usize> = None;
            let mut t: usize = 0;
            while t < nfa
                invariant
                    nfa <= frames@.len(),
                    t <= nfa,
                    k < other.spec_frames().len(),
                    found matches Some(x) ==> x < nfa && Self::same_frame(frames@[x as int], other.spec_frames()[k as int]),
                decreases nfa - t,
            {
                if found.is_none() && frames[t].shares_data_with(&other.frames[k]) {
                    found = Some(t);
                }
                t += 1;
            }
            proof {
                assert(other.spec_frames()[k as int].wf());
            }
            match found {
                Some(x) => {
                    mapping.push(x);
                },
                None => {
                    let ghost before = frames@;
                    mapping.push(frames.len());
                    frames.push(other.frames[k].duplicate());
                    assert(forall|f: int| 0 <= f < before.len() ==> frames@[f] == before[f]);
                },
            }
            k += 1;
        }
        (frames, mapping)
    }

    /// The field map of a merge: the fields of this view, then those of `other`, routed to
    /// their merged frames through `mapping`; or, if some fields of `other` exist in this view
    /// too, those fields.
    fn compute_merged_field_list(&self, other: &DataView, mapping: &Vec<usize>) -> (r: Result<IndexMap<FieldIdent, ViewField>, Vec<FieldIdent>>)
        requires
            self.wf(),
            other.wf(),
            mapping@.len() == other.spec_frames().len(),
        ensures
            r is Ok <==> Self::colliding(self.spec_fields(), other.spec_fields()).len() == 0,
            r matches Err(v) ==> v@.map_values(|f: FieldIdent| f@) == Self::colliding(self.spec_fields(), other.spec_fields()),
            r matches Ok(m) ==> {
                &&& field_entries(m).len() == self.spec_fields().len() + other.spec_fields().len()
                &&& forall|k: int| 0 <= k < other.spec_fields().len() ==> entry_pos(self.spec_fields(), #[trigger] other.spec_fields()[k].0@) is None
                &&& forall|x: int| 0 <= x < self.spec_fields().len() ==> #[trigger] field_entries(m)[x] == self.spec_fields()[x]
                &&& forall|y: int| 0 <= y < other.spec_fields().len() ==> {
                    let e = #[trigger] field_entries(m)[self.spec_fields().len() + y];
                    &&& e.0 == other.spec_fields()[y].0
                    &&& e.1.rident == other.spec_fields()[y].1.rident
                    &&& e.1.frame_idx == mapping@[other.spec_fields()[y].1.frame_idx as int]
                }
            },
    {
        let na = map_len(&self.fields);
        let nb = map_len(&other.fields);
        // fields of `other` that this view has too
        let mut coll: Vec<FieldIdent> = Vec::new();
        let mut j: usize = 0;
        while j < nb
            invariant
                self.wf(),
                other.wf(),
                nb == other.spec_fields().len(),
                j <= nb,
                coll@.map_values(|f: FieldIdent| f@) == Self::colliding(self.spec_fields(), other.spec_fields().subrange(0, j as int)),
                coll@.len() == 0 ==> forall|k: int| 0 <= k < j ==> entry_pos(self.spec_fields(), #[trigger] other.spec_fields()[k].0@) is None,
            decreases nb - j,
        {
            proof {
                assert(other.spec_fields().subrange(0, j + 1).drop_last() =~= other.spec_fields().subrange(0, j as int));
            }
            match map_get_index(&other.fields, j) {
                Some(e) => {
                    if self.find(e.0).is_some() {
                        let ghost before = coll@;
                        coll.push(e.0.duplicate());
                        assert(coll@.map_values(|f: FieldIdent| f@) =~= before.map_values(|f: FieldIdent| f@).push(e.0@));
                    }
                },
                None => {},
            }
            j += 1;
        }
        assert(other.spec_fields().subrange(0, nb as int) =~= other.spec_fields());
        if coll.len() != 0 {
            return Err(coll);
        }
        // fields: this view's, then those of `other`, routed to their frames
        let mut fields = map_new();
        let mut i: usize = 0;
        while i < na
            invariant
                self.wf(),
                na == self.spec_fields().len(),
                i <= na,
                field_entries(fields) == self.spec_fields().subrange(0, i as int),
            decreases na - i,
        {
            match map_get_index(&self.fields, i) {
                Some(e) => {
                    proof {
                        assert forall|x: int| 0 <= x < field_entries(fields).len() implies #[trigger] field_entries(fields)[x].0@ != e.0@ by {
                            assert(field_entries(fields)[x] == self.spec_fields()[x]);
                        }
                    }
                    map_insert(&mut fields, e.0.duplicate(), e.1.duplicate());
                },
                None => {},
            }
            i += 1;
            assert(field_entries(fields) =~= self.spec_fields().subrange(0, i as int));
        }
        assert(self.spec_fields().subrange(0, i as int) =~= self.spec_fields());
        let mut j: usize = 0;
        while j < nb
            invariant
                self.wf(),
                other.wf(),
                na == self.spec_fields().len(),
                nb == other.spec_fields().len(),
                j <= nb,
                mapping@.len() == other.spec_frames().len(),
                forall|k: int| 0 <= k < nb ==> entry_pos(self.spec_fields(), #[trigger] other.spec_fields()[k].0@) is None,
                field_entries(fields).len() == na + j,
                forall|x: int| 0 <= x < na ==> #[trigger] field_entries(fields)[x] == self.spec_fields()[x],
                forall|y: int| 0 <= y < j ==> {
                    let e = #[trigger] field_entries(fields)[na + y];
                    &&& e.0 == other.spec_fields()[y].0
                    &&& e.1.rident == other.spec_fields()[y].1.rident
                    &&& e.1.frame_idx == mapping@[other.spec_fields()[y].1.frame_idx as int]
                },
            decreases nb - j,
        {
            match map_get_index(&other.fields, j) {
                Some(e) => {
                    proof {
                        assert(other.spec_fields()[j as int].1.frame_idx < other.spec_frames().len());
                        assert forall|x: int| 0 <= x < field_entries(fields).len() implies #[trigger] field_entries(fields)[x].0@ != e.0@ by {
                            if x < na {
                                assert(field_entries(fields)[x] == self.spec_fields()[x]);
                                if self.spec_fields()[x].0@ == e.0@ {
                                    assert(entry_pos(self.spec_fields(), other.spec_fields()[j as int].0@) is Some);
                                }
                            } else {
                                let y = x - na;
                                assert(field_entries(fields)[na + y].0 == other.spec_fields()[y].0);
                            }
                        }
                    }
                    let vf = ViewField { rident: e.1.rident.duplicate(), frame_idx: mapping[e.1.frame_idx] };
                    let ghost before = field_entries(fields);
                    map_insert(&mut fields, e.0.duplicate(), vf);
                    proof {
                        assert forall|x: int| 0 <= x < na implies #[trigger] field_entries(fields)[x] == self.spec_fields()[x] by {
                            assert(field_entries(fields)[x] == before[x]);
                        }
                        assert forall|y: int| 0 <= y < j + 1 implies {
                            let e = #[trigger] field_entries(fields)[na + y];
                            &&& e.0 == other.spec_fields()[y].0
                            &&& e.1.rident == other.spec_fields()[y].1.rident
                            &&& e.1.frame_idx == mapping@[other.spec_fields()[y].1.frame_idx as int]
                        } by {
                            if y < j {
                                assert(field_entries(fields)[na + y] == before[na + y]);
                            }
                        }
                    }
                },
                None => {},
            }
            j += 1;
        }
        Ok(fields)
    }

    /// The view that `merge` builds is well formed and is the merge of its sources.
    proof fn lemma_merge_wf(&self, other: DataView, d: DataView, mapping: Seq<usize>)
        requires
            self.wf(),
            other.wf(),
            self.spec_nrows() == other.spec_nrows(),
            d.spec_frames().len() >= self.spec_frames().len(),
            forall|f: int| 0 <= f < self.spec_frames().len() ==> Self::same_frame(#[trigger] d.spec_frames()[f], self.spec_frames()[f]),
            forall|f: int| 0 <= f < d.spec_frames().len() ==> (#[trigger] d.spec_frames()[f]).wf()
                && d.spec_frames()[f].spec_rows().len() == self.spec_nrows(),
            mapping.len() == other.spec_frames().len(),
            forall|q: int| 0 <= q < other.spec_frames().len() ==> #[trigger] mapping[q] < d.spec_frames().len()
                && Self::same_frame(d.spec_frames()[mapping[q] as int], other.spec_frames()[q]),
            forall|k: int| 0 <= k < other.spec_fields().len() ==> entry_pos(self.spec_fields(), #[trigger] other.spec_fields()[k].0@) is None,
            d.spec_fields().len() == self.spec_fields().len() + other.spec_fields().len(),
            forall|x: int| 0 <= x < self.spec_fields().len() ==> #[trigger] d.spec_fields()[x] == self.spec_fields()[x],
            forall|y: int| 0 <= y < other.spec_fields().len() ==> {
                let e = #[trigger] d.spec_fields()[self.spec_fields().len() + y];
                &&& e.0 == other.spec_fields()[y].0
                &&& e.1.rident == other.spec_fields()[y].1.rident
                &&& e.1.frame_idx == mapping[other.spec_fields()[y].1.frame_idx as int]
            },
        ensures
            Self::merged(*self, other, d),
    {
        let na = self.spec_fields().len();
        let nb = other.spec_fields().len();
        if self.spec_frames().len() > 0 {
            assert(Self::same_frame(d.spec_frames()[0], self.spec_frames()[0]));
        } else if d.spec_frames().len() > 0 {
            assert(d.spec_frames()[0].spec_rows().len() == self.spec_nrows());
        }
        assert forall|a: int, b: int| 0 <= a < b < d.spec_fields().len() implies #[trigger] d.spec_fields()[a].0@ != #[trigger] d.spec_fields()[b].0@ by {
            if b < na {
                assert(d.spec_fields()[a] == self.spec_fields()[a]);
                assert(d.spec_fields()[b] == self.spec_fields()[b]);
            } else if a < na {
                let y = b - na;
                assert(d.spec_fields()[na + y].0 == other.spec_fields()[y].0);
                assert(d.spec_fields()[a] == self.spec_fields()[a]);
                if self.spec_fields()[a].0@ == other.spec_fields()[y].0@ {
                    assert(entry_pos(self.spec_fields(), other.spec_fields()[y].0@) is Some);
                }
            } else {
                let ya = a - na;
                let yb = b - na;
                assert(d.spec_fields()[na + ya].0 == other.spec_fields()[ya].0);
                assert(d.spec_fields()[na + yb].0 == other.spec_fields()[yb].0);
            }
        }
        assert forall|i: int| 0 <= i < d.spec_fields().len() implies {
            let e = #[trigger] d.spec_fields()[i];
            &&& e.0@ == renamed_view(e.1.rident@)
            &&& e.1.frame_idx < d.spec_frames().len()
            &&& d.spec_frames()[e.1.frame_idx as int].spec_store().lookup(e.1.rident.ident@).is_some()
        } by {
            if i < na {
                assert(d.spec_fields()[i] == self.spec_fields()[i]);
                assert(self.entry_ok(self.spec_fields()[i]));
                assert(Self::same_frame(d.spec_frames()[self.spec_fields()[i].1.frame_idx as int], self.spec_frames()[self.spec_fields()[i].1.frame_idx as int]));
            } else {
                let y = i - na;
                assert(d.spec_fields()[na + y].0 == other.spec_fields()[y].0);
                assert(other.entry_ok(other.spec_fields()[y]));
            }
        }
        assert forall|j: int| 0 <= j < nb implies {
            let e = #[trigger] d.spec_fields()[na + j];
            &&& e.0 == other.spec_fields()[j].0
            &&& e.1.rident == other.spec_fields()[j].1.rident
            &&& Self::same_frame(d.spec_frames()[e.1.frame_idx as int], other.spec_frames()[other.spec_fields()[j].1.frame_idx as int])
        } by {
            assert(other.entry_ok(other.spec_fields()[j]));
        }
    }

    /// A field of the kind of `T` has a column of `T`, with one value per row.
    pub proof fn lemma_column_of_kind<T: DataType>(&self, id: IdentView)
        requires
            self.wf(),
            self.kind_of(id) == Some(T::spec_kind()),
        ensures
            self.column::<T>(id) matches Some(v) && v.len() == self.spec_nrows(),
    {
        let vf = self.lookup(id)->Some_0;
        let i = entry_pos(self.spec_fields(), id)->Some_0;
        assert(self.spec_fields()[i].1 == vf);
        let fr = self.spec_frames()[vf.frame_idx as int];
        let d = fr.spec_store().lookup(vf.rident.ident@)->Some_0;
        T::lemma_column_kind(d);
    }

    /// The field known as `id` has a kind when it exists.
    pub proof fn lemma_kind_of(&self, id: IdentView)
        requires
            self.wf(),
        ensures
            self.lookup(id).is_some() <==> self.kind_of(id).is_some(),
    {
        if let Some(vf) = self.lookup(id) {
            let i = entry_pos(self.spec_fields(), id)->Some_0;
            assert(self.spec_fields()[i].1 == vf);
        }
    }

    /// A field not of the kind of `T` has no column of `T`.
    pub proof fn lemma_no_column_of_other_kind<T: DataType>(&self, id: IdentView)
        requires
            self.wf(),
            self.kind_of(id) != Some(T::spec_kind()),
        ensures
            self.column::<T>(id).is_none(),
    {
        if let Some(vf) = self.lookup(id) {
            let i = entry_pos(self.spec_fields(), id)->Some_0;
            assert(self.spec_fields()[i].1 == vf);
            let fr = self.spec_frames()[vf.frame_idx as int];
            let d = fr.spec_store().lookup(vf.rident.ident@)->Some_0;
            T::lemma_column_kind(d);
        }
    }

    /// Joins this view with `other` into a new store, as `sort_merge_join` does.
    pub fn join(&self, other: &DataView, join: &Join) -> (r: Result<DataStore, AgnesError>)
        requires
            self.wf(),
            other.wf(),
        ensures
            key_error(*self, *other, *join) matches Some(e) ==> r == Err::<DataStore, AgnesError>(e),
            r is Ok <==> (key_error(*self, *other, *join).is_none()
                && Self::colliding(self.spec_fields(), kept_right(other.spec_fields(), *join)).len() == 0),
            key_error(*self, *other, *join).is_none()
                && Self::colliding(self.spec_fields(), kept_right(other.spec_fields(), *join)).len() != 0
                ==> (r matches Err(AgnesError::FieldCollision(v)) && v@.map_values(|f: FieldIdent| f@)
                == Self::colliding(self.spec_fields(), kept_right(other.spec_fields(), *join))),
            r matches Ok(ds) ==> exists|pairs: Seq<(usize, Option<usize>)>| keys_joined(*self, *other, *join, pairs)
                && joined_store(*self, *other, *join, pairs, ds),
    {
        sort_merge_join(self, other, join)
    }
}

/// Merging keeps every field's values: a field of the merge shows the values it showed in
/// the view it came from, and the merge has the fields of both views.
pub proof fn lemma_merge_keeps_values<T: DataType>(a: DataView, b: DataView, d: DataView, id: IdentView)
    requires
        a.wf(),
        b.wf(),
        DataView::merged(a, b, d),
    ensures
        d.spec_fields().len() == a.spec_fields().len() + b.spec_fields().len(),
        d.lookup(id).is_some() <==> (a.lookup(id).is_some() || b.lookup(id).is_some()),
        a.lookup(id).is_some() ==> d.column::<T>(id) == a.column::<T>(id),
        a.lookup(id).is_none() ==> d.column::<T>(id) == b.column::<T>(id),
{
    let na = a.spec_fields().len();
    if let Some(p) = entry_pos(a.spec_fields(), id) {
        assert(d.spec_fields()[p] == a.spec_fields()[p]);
        lemma_entry_pos(d.spec_fields(), p);
        let vf = a.spec_fields()[p].1;
        assert(a.entry_ok(a.spec_fields()[p]));
        assert(DataView::same_frame(d.spec_frames()[vf.frame_idx as int], a.spec_frames()[vf.frame_idx as int]));
    } else if let Some(q) = entry_pos(b.spec_fields(), id) {
        let e = d.spec_fields()[na + q];
        assert(e.0 == b.spec_fields()[q].0);
        lemma_entry_pos(d.spec_fields(), na + q);
    } else {
        if let Some(x) = entry_pos(d.spec_fields(), id) {
            if x < na {
                assert(d.spec_fields()[x] == a.spec_fields()[x]);
            } else {
                let y = x - na;
                assert(d.spec_fields()[na + y].0 == b.spec_fields()[y].0);
            }
        }
    }
}

/// The fields that a merge reports as colliding are exactly those of `b` that `a` has too.
pub proof fn lemma_colliding_exact(a: Seq<(FieldIdent, ViewField)>, b: Seq<(FieldIdent, ViewField)>, id: IdentView)
    ensures
        DataView::colliding(a, b).contains(id) <==> (entry_pos(a, id).is_some() && entry_pos(b, id).is_some()),
    decreases b.len(),
{
    if b.len() > 0 {
        let prev = b.drop_last();
        lemma_colliding_exact(a, prev, id);
        crate::order::lemma_push_contains(DataView::colliding(a, prev), b.last().0@, id);
        if entry_pos(prev, id).is_some() {
            let i = entry_pos(prev, id)->Some_0;
            assert(b[i].0@ == id);
        }
        if entry_pos(b, id).is_some() && !entry_pos(prev, id).is_some() {
            let i = entry_pos(b, id)->Some_0;
            if i < prev.len() {
                assert(prev[i].0@ == id);
            }
        }
        if b.last().0@ == id {
            assert(b[b.len() - 1].0@ == id);
        }
    }
}

} // verus!
