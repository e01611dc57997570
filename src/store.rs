//! The column store: the owner of a table's data, as an ordered list of named columns.
use vstd::prelude::*;
use crate::error::AgnesError;
use crate::field::{DataType, FieldIdent, FieldType, IdentView};
use crate::masked::{FieldData, MaskedData, MaybeNa};

verus! {

/// An ordered collection of named columns of equal length.
#[derive(Debug)]
pub struct DataStore {
    fields: Vec<(FieldIdent, FieldData)>,
}

impl DataStore {
    /// The columns of this store, in order, with their identifiers.
    pub closed spec fn spec_fields(&self) -> Seq<(FieldIdent, FieldData)> {
        self.fields@
    }

    /// The number of rows: the length of every column (zero without columns).
    pub open spec fn spec_nrows(&self) -> nat {
        if self.spec_fields().len() == 0 {
            0
        } else {
            self.spec_fields()[0].1.spec_len()
        }
    }

    /// Well-formed: identifiers are unique and every column has `spec_nrows` values.
    pub open spec fn wf(&self) -> bool {
        &&& forall|i: int, j: int|
            0 <= i < j < self.spec_fields().len() ==> #[trigger] self.spec_fields()[i].0@
                != #[trigger] self.spec_fields()[j].0@
        &&& forall|i: int|
            0 <= i < self.spec_fields().len() ==> #[trigger] self.spec_fields()[i].1.spec_len()
                == self.spec_nrows()
    }

    /// The position of the column identified by `id`, if there is one.
    pub open spec fn position(&self, id: IdentView) -> Option<int> {
        if exists|i: int| 0 <= i < self.spec_fields().len() && #[trigger] self.spec_fields()[i].0@ == id {
            Some(choose|i: int| 0 <= i < self.spec_fields().len() && #[trigger] self.spec_fields()[i].0@ == id)
        } else {
            None
        }
    }

    /// The column identified by `id`, if there is one.
    pub open spec fn lookup(&self, id: IdentView) -> Option<FieldData> {
        match self.position(id) {
            Some(i) => Some(self.spec_fields()[i].1),
            None => None,
        }
    }

    /// The values of the column `id` as values of type `T`, if it exists and holds `T`.
    pub open spec fn typed_column<T: DataType>(&self, id: IdentView) -> Option<Seq<MaybeNa<T>>> {
        match self.lookup(id) {
            Some(d) => match T::spec_column(d) {
                Some(c) => Some(c@),
                None => None,
            },
            None => None,
        }
    }

    /// The column at `i` is the one found for its identifier.
    pub proof fn lemma_position(&self, i: int)
        requires
            self.wf(),
            0 <= i < self.spec_fields().len(),
        ensures
            self.position(self.spec_fields()[i].0@) == Some(i),
    {
        let id = self.spec_fields()[i].0@;
        assert(exists|k: int| 0 <= k < self.spec_fields().len() && #[trigger] self.spec_fields()[k].0@ == id);
        let c = choose|k: int| 0 <= k < self.spec_fields().len() && #[trigger] self.spec_fields()[k].0@ == id;
        if c < i {
            assert(self.spec_fields()[c].0@ != self.spec_fields()[i].0@);
        } else if c > i {
            assert(self.spec_fields()[i].0@ != self.spec_fields()[c].0@);
        }
    }

    /// Every column of a well-formed store has one value per row.
    pub proof fn lemma_column_lengths(&self, id: IdentView)
        requires
            self.wf(),
        ensures
            self.lookup(id) matches Some(d) ==> d.spec_len() == self.spec_nrows(),
    {
        if let Some(p) = self.position(id) {
            assert(self.spec_fields()[p].1.spec_len() == self.spec_nrows());
        }
    }

    /// An empty store.
    pub fn empty() -> (r: DataStore)
        ensures
            r.wf(),
            r.spec_fields().len() == 0,
    {
        DataStore { fields: Vec::new() }
    }

    /// The position of the column identified by `ident`, if there is one.
    fn find(&self, ident: &FieldIdent) -> (r: Option<usize>)
        requires
            self.wf(),
        ensures
            r matches Some(i) ==> (i < self.spec_fields().len() && self.position(ident@) == Some(i as int)),
            r is None ==> self.position(ident@) is None,
    {
        let mut i: usize = 0;
        while i < self.fields.len()
            invariant
                self.wf(),
                i <= self.fields@.len(),
                forall|k: int| 0 <= k < i ==> #[trigger] self.fields@[k].0@ != ident@,
            decreases self.fields@.len() - i,
        {
            if self.fields[i].0.same_as(ident) {
                proof {
                    self.lemma_position(i as int);
                }
                return Some(i);
            }
            i += 1;
        }
        assert(!exists|k: int| 0 <= k < self.spec_fields().len() && #[trigger] self.spec_fields()[k].0@ == ident@);
        None
    }

    /// The number of rows.
    pub fn nrows(&self) -> (r: usize)
        ensures
            r == self.spec_nrows(),
    {
        if self.fields.len() == 0 {
            0
        } else {
            self.fields[0].1.len()
        }
    }

    /// The number of fields.
    pub fn nfields(&self) -> (r: usize)
        ensures
            r == self.spec_fields().len(),
    {
        self.fields.len()
    }

    /// The identifiers of the fields, in order.
    pub fn fieldnames(&self) -> (r: Vec<FieldIdent>)
        ensures
            r@.len() == self.spec_fields().len(),
            forall|i: int| 0 <= i < r@.len() ==> #[trigger] r@[i] == self.spec_fields()[i].0,
    {
        let mut r: Vec<FieldIdent> = Vec::new();
        let mut i: usize = 0;
        while i < self.fields.len()
            invariant
                i <= self.fields@.len(),
                r@.len() == i,
                forall|k: int| 0 <= k < i ==> #[trigger] r@[k] == self.spec_fields()[k].0,
            decreases self.fields@.len() - i,
        {
            r.push(self.fields[i].0.duplicate());
            i += 1;
        }
        r
    }

    /// Whether this store has the field `ident`.
    pub fn has_field(&self, ident: &FieldIdent) -> (r: bool)
        requires
            self.wf(),
        ensures
            r == self.lookup(ident@).is_some(),
    {
        self.find(ident).is_some()
    }

    /// The kind of the field `ident`, if it exists.
    pub fn get_field_type(&self, ident: &FieldIdent) -> (r: Option<FieldType>)
        requires
            self.wf(),
        ensures
            r == match self.lookup(ident@) {
                Some(d) => Some(d.spec_kind()),
                None => None::<FieldType>,
            },
    {
        match self.find(ident) {
            Some(i) => Some(self.fields[i].1.kind()),
            None => None,
        }
    }

    /// The data of the field `ident`, if it exists.
    pub fn get_field_data(&self, ident: &FieldIdent) -> (r: Option<&FieldData>)
        requires
            self.wf(),
        ensures
            match r {
                Some(d) => self.lookup(ident@) == Some(*d),
                None => self.lookup(ident@).is_none(),
            },
    {
        match self.find(ident) {
            Some(i) => Some(&self.fields[i].1),
            None => None,
        }
    }

    /// The typed column `ident`: fails with `FieldNotFound` if it does not exist and with
    /// `IncompatibleTypes` if it holds another kind than `T`.
    pub fn typed_field<T: DataType>(&self, ident: &FieldIdent) -> (r: Result<&MaskedData<T>, AgnesError>)
        requires
            self.wf(),
        ensures
            match r {
                Ok(c) => self.typed_column::<T>(ident@) == Some(c@),
                Err(e) => match self.lookup(ident@) {
                    None => e == AgnesError::FieldNotFound(*ident),
                    Some(d) => self.typed_column::<T>(ident@).is_none()
                        && e == (AgnesError::IncompatibleTypes { expected: T::spec_kind(), actual: d.spec_kind() }),
                },
            },
    {
        match self.get_field_data(ident) {
            None => Err(AgnesError::FieldNotFound(ident.duplicate())),
            Some(d) => match T::column(d) {
                Some(c) => Ok(c),
                None => Err(AgnesError::IncompatibleTypes { expected: T::kind(), actual: d.kind() }),
            },
        }
    }

    /// Adds the column `data` under `ident` at the end. Fails with `FieldCollision` if the
    /// field exists, and with `DimensionMismatch` if the store has columns of another length.
    pub fn add_field(&mut self, ident: FieldIdent, data: FieldData) -> (r: Result<(), AgnesError>)
        requires
            old(self).wf(),
        ensures
            final(self).wf(),
            r is Ok <==> (old(self).lookup(ident@).is_none() && (old(self).spec_fields().len() == 0
                || data.spec_len() == old(self).spec_nrows())),
            old(self).lookup(ident@).is_some() ==> (r matches Err(AgnesError::FieldCollision(v))
                && v@ == seq![ident]),
            old(self).lookup(ident@).is_none() && old(self).spec_fields().len() != 0
                && data.spec_len() != old(self).spec_nrows() ==> r matches Err(
                AgnesError::DimensionMismatch(_),
            ),
            r is Ok ==> final(self).spec_fields() == old(self).spec_fields().push((ident, data)),
            r is Err ==> final(self).spec_fields() == old(self).spec_fields(),
    {
        if self.find(&ident).is_some() {
            let mut v: Vec<FieldIdent> = Vec::new();
            v.push(ident);
            assert(v@ =~= seq![ident]);
            return Err(AgnesError::FieldCollision(v));
        }
        if self.fields.len() != 0 && data.len() != self.nrows() {
            return Err(
                AgnesError::DimensionMismatch(
                    "number of values does not match the number of rows".to_string(),
                ),
            );
        }
        let ghost before = self.spec_fields();
        self.fields.push((ident, data));
        proof {
            assert(self.spec_fields() == before.push((ident, data)));
            assert forall|i: int| 0 <= i < before.len() implies #[trigger] before[i].0@ != ident@ by {
                if before[i].0@ == ident@ {
                    assert(exists|k: int| 0 <= k < before.len() && #[trigger] before[k].0@ == ident@);
                }
            }
        }
        Ok(())
    }

    /// Adds a column of the values `values` under `ident` at the end, with the same failures
    /// as `add_field`.
    pub fn add_values<T: DataType>(&mut self, ident: FieldIdent, values: Vec<MaybeNa<T>>) -> (r: Result<(), AgnesError>)
        requires
            old(self).wf(),
        ensures
            final(self).wf(),
            r is Ok <==> (old(self).lookup(ident@).is_none() && (old(self).spec_fields().len() == 0
                || values@.len() == old(self).spec_nrows())),
            old(self).lookup(ident@).is_some() ==> (r matches Err(AgnesError::FieldCollision(v))
                && v@ == seq![ident]),
            old(self).lookup(ident@).is_none() && old(self).spec_fields().len() != 0
                && values@.len() != old(self).spec_nrows() ==> r matches Err(
                AgnesError::DimensionMismatch(_),
            ),
            r is Ok ==> (final(self).spec_fields().len() == old(self).spec_fields().len() + 1
                && final(self).spec_fields().drop_last() == old(self).spec_fields()
                && final(self).spec_fields().last().0 == ident
                && (T::spec_column(final(self).spec_fields().last().1) matches Some(c) && c@ == values@)),
            r is Err ==> final(self).spec_fields() == old(self).spec_fields(),
    {
        let col = MaskedData::from_masked_vec(values);
        let data = T::into_field(col);
        let r = self.add_field(ident, data);
        proof {
            if r is Ok {
                assert(self.spec_fields().drop_last() =~= old(self).spec_fields());
            }
        }
        r
    }
}

} // verus!
