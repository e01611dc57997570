//! Missing-value handling: the `MaybeNa` value and the masked data vector that backs a column.
use vstd::prelude::*;
use bit_vec::BitVec;
use crate::error::AgnesError;
use crate::field::{DataType, FieldType, F64, float_rank, text_le, lemma_text_le_total, lemma_text_le_trans, string_le};

verus! {

#[verifier::external_type_specification]
#[verifier::external_body]
#[verifier::reject_recursive_types(B)]
pub struct ExBitVec<B>(BitVec<B>);

/// The bits held by a bit vector, in order.
pub uninterp spec fn mask_bits(b: BitVec) -> Seq<bool>;

/// Relies on `BitVec::new`: an empty bit vector.
#[verifier::external_body]
fn bits_new() -> (r: BitVec)
    ensures
        mask_bits(r) == Seq::<bool>::empty(),
{
    BitVec::new()
}

/// Relies on `BitVec::from_elem`: `n` bits, each equal to `bit`.
#[verifier::external_body]
fn bits_from_elem(n: usize, bit: bool) -> (r: BitVec)
    ensures
        mask_bits(r) == Seq::new(n as nat, |i: int| bit),
{
    BitVec::from_elem(n, bit)
}

/// Relies on `BitVec::push`: appends one bit (it panics only when the length overflows).
#[verifier::external_body]
fn bits_push(b: &mut BitVec, bit: bool)
    requires
        mask_bits(*old(b)).len() < usize::MAX,
    ensures
        mask_bits(*final(b)) == mask_bits(*old(b)).push(bit),
{
    b.push(bit)
}

/// Relies on `BitVec::get`: the bit at `i`, or `None` past the end.
#[verifier::external_body]
fn bits_get(b: &BitVec, i: usize) -> (r: Option<bool>)
    ensures
        i < mask_bits(*b).len() ==> r == Some(mask_bits(*b)[i as int]),
        i >= mask_bits(*b).len() ==> r.is_none(),
{
    b.get(i)
}

/// A value that may be missing (NA).
#[derive(Debug, Clone, PartialEq, Eq, PartialOrd, Ord)]
pub enum MaybeNa<T> {
    /// A missing value.
    Na,
    /// An existing value.
    Exists(T),
}

impl<T> MaybeNa<T> {
    /// The value inside; the caller guarantees that it exists.
    pub fn unwrap(self) -> (r: T)
        requires
            self is Exists,
        ensures
            self == MaybeNa::Exists(r),
    {
        match self {
            MaybeNa::Exists(t) => t,
            MaybeNa::Na => vstd::pervasive::unreached(),
        }
    }

    /// Whether this value exists.
    pub fn has_value(&self) -> (r: bool)
        ensures
            r == (*self is Exists),
    {
        match self {
            MaybeNa::Exists(_) => true,
            MaybeNa::Na => false,
        }
    }

    /// Whether this value is missing.
    pub fn is_na(&self) -> (r: bool)
        ensures
            r == (*self is Na),
    {
        match self {
            MaybeNa::Exists(_) => false,
            MaybeNa::Na => true,
        }
    }

    /// A `MaybeNa` holding a reference to this value.
    pub fn as_ref(&self) -> (r: MaybeNa<&T>)
        ensures
            r is Na <==> *self is Na,
            r matches MaybeNa::Exists(v) ==> *self == MaybeNa::Exists(*v),
    {
        match self {
            MaybeNa::Exists(v) => MaybeNa::Exists(v),
            MaybeNa::Na => MaybeNa::Na,
        }
    }

    /// Applies `f` to the value if it exists.
    pub fn map<U, F: Fn(T) -> U>(self, f: F) -> (r: MaybeNa<U>)
        requires
            self matches MaybeNa::Exists(v) ==> f.requires((v,)),
        ensures
            r is Na <==> self is Na,
            self matches MaybeNa::Exists(v) ==> (r matches MaybeNa::Exists(u) && f.ensures((v,), u)),
    {
        match self {
            MaybeNa::Exists(v) => MaybeNa::Exists(f(v)),
            MaybeNa::Na => MaybeNa::Na,
        }
    }
}

impl<'a, T: DataType> MaybeNa<&'a T> {
    /// An owned copy of the referenced value.
    pub fn cloned(self) -> (r: MaybeNa<T>)
        ensures
            r is Na <==> self is Na,
            self matches MaybeNa::Exists(v) ==> r == MaybeNa::Exists(*v),
    {
        match self {
            MaybeNa::Exists(v) => MaybeNa::Exists(v.duplicate()),
            MaybeNa::Na => MaybeNa::Na,
        }
    }
}

/// A data vector along with a bit mask that records which values exist.
#[derive(Debug)]
pub struct MaskedData<T> {
    mask: BitVec,
    data: Vec<T>,
}

impl<T> View for MaskedData<T> {
    type V = Seq<MaybeNa<T>>;

    closed spec fn view(&self) -> Seq<MaybeNa<T>> {
        Seq::new(
            self.data@.len(),
            |i: int|
                if mask_bits(self.mask)[i] {
                    MaybeNa::Exists(self.data@[i])
                } else {
                    MaybeNa::Na
                },
        )
    }
}

impl<T> MaskedData<T> {
    #[verifier::type_invariant]
    spec fn inv(&self) -> bool {
        mask_bits(self.mask).len() == self.data@.len()
    }

    /// Length of this data vector.
    pub fn len(&self) -> (r: usize)
        ensures
            r == self@.len(),
    {
        self.data.len()
    }

    /// The value at `index` (or an indication that it is missing), or `None` past the end.
    pub fn get(&self, index: usize) -> (r: Option<MaybeNa<&T>>)
        ensures
            index >= self@.len() ==> r.is_none(),
            index < self@.len() ==> (r matches Some(v) && (v is Na <==> self@[index as int] is Na)
                && (v matches MaybeNa::Exists(x) ==> self@[index as int] == MaybeNa::Exists(*x))),
    {
        proof {
            use_type_invariant(self);
        }
        if index >= self.data.len() {
            None
        } else {
            match bits_get(&self.mask, index) {
                Some(true) => Some(MaybeNa::Exists(&self.data[index])),
                _ => Some(MaybeNa::Na),
            }
        }
    }

    /// The value at `idx`, failing with `IndexError` past the end.
    pub fn get_data(&self, idx: usize) -> (r: Result<MaybeNa<&T>, AgnesError>)
        ensures
            idx >= self@.len() ==> r == Err::<MaybeNa<&T>, AgnesError>(
                AgnesError::IndexError { index: idx, len: self@.len() as usize },
            ),
            idx < self@.len() ==> (r matches Ok(v) && (v is Na <==> self@[idx as int] is Na)
                && (v matches MaybeNa::Exists(x) ==> self@[idx as int] == MaybeNa::Exists(*x))),
    {
        match self.get(idx) {
            Some(v) => Ok(v),
            None => Err(AgnesError::IndexError { index: idx, len: self.len() }),
        }
    }

    /// This data vector as a vector of `MaybeNa` references.
    pub fn as_vec(&self) -> (r: Vec<MaybeNa<&T>>)
        ensures
            r@.len() == self@.len(),
            forall|i: int|
                0 <= i < r@.len() ==> (#[trigger] r@[i] is Na <==> self@[i] is Na) && (r@[i] matches MaybeNa::Exists(x)
                    ==> self@[i] == MaybeNa::Exists(*x)),
    {
        let mut r: Vec<MaybeNa<&T>> = Vec::new();
        let n = self.len();
        let mut i: usize = 0;
        while i < n
            invariant
                n == self@.len(),
                i <= n,
                r@.len() == i,
                forall|k: int|
                    0 <= k < i ==> (#[trigger] r@[k] is Na <==> self@[k] is Na) && (r@[k] matches MaybeNa::Exists(x)
                        ==> self@[k] == MaybeNa::Exists(*x)),
            decreases n - i,
        {
            match self.get(i) {
                Some(v) => r.push(v),
                None => { proof { assert(false); } },
            }
            i += 1;
        }
        r
    }
}

impl<T: DataType> MaskedData<T> {
    /// A new, empty data vector.
    pub fn new() -> (r: MaskedData<T>)
        ensures
            r@ == Seq::<MaybeNa<T>>::empty(),
    {
        let r = MaskedData { mask: bits_new(), data: Vec::new() };
        assert(r@ =~= Seq::<MaybeNa<T>>::empty());
        r
    }

    /// A data vector holding the single value `value`.
    pub fn new_with_elem(value: MaybeNa<T>) -> (r: MaskedData<T>)
        ensures
            r@ == seq![value],
    {
        let mut r = MaskedData::new();
        r.push(value);
        assert(r@ =~= seq![value]);
        r
    }

    /// Adds a value (or an indication of a missing one) to the end of the data vector.
    pub fn push(&mut self, value: MaybeNa<T>)
        requires
            old(self)@.len() < usize::MAX,
        ensures
            final(self)@ == old(self)@.push(value),
    {
        let ghost before = self@;
        let mut cur = MaskedData::new();
        std::mem::swap(self, &mut cur);
        proof {
            use_type_invariant(&cur);
        }
        let MaskedData { mut mask, mut data } = cur;
        match value {
            MaybeNa::Exists(v) => {
                data.push(v);
                bits_push(&mut mask, true);
            },
            MaybeNa::Na => {
                data.push(T::placeholder());
                bits_push(&mut mask, false);
            },
        }
        *self = MaskedData { mask, data };
        assert(self@ =~= before.push(value));
    }

    /// The stable ascending sort order of this data vector: missing values first, then the
    /// existing values in their type's order, equivalent values in their input order.
    pub fn sort_order(&self) -> (r: Vec<usize>)
        ensures
            crate::order::is_sort_order(self@, r@),
    {
        let mut vals: Vec<MaybeNa<T>> = Vec::new();
        let n = self.len();
        let mut i: usize = 0;
        while i < n
            invariant
                n == self@.len(),
                i <= n,
                vals@ == self@.subrange(0, i as int),
            decreases n - i,
        {
            let v = match self.get(i) {
                Some(v) => v.cloned(),
                None => MaybeNa::Na,
            };
            vals.push(v);
            i += 1;
            assert(vals@ =~= self@.subrange(0, i as int));
        }
        assert(self@.subrange(0, i as int) =~= self@);
        crate::order::sort_order(&vals)
    }

    /// A data vector of existing values only.
    pub fn from_vec(v: Vec<T>) -> (r: MaskedData<T>)
        ensures
            r@ == Seq::new(v@.len(), |i: int| MaybeNa::Exists(v@[i])),
    {
        let n = v.len();
        let r = MaskedData { mask: bits_from_elem(n, true), data: v };
        assert(r@ =~= Seq::new(v@.len(), |i: int| MaybeNa::Exists(v@[i])));
        r
    }

    /// A data vector of the given values, each of which may be missing.
    pub fn from_masked_vec(v: Vec<MaybeNa<T>>) -> (r: MaskedData<T>)
        ensures
            r@ == v@,
    {
        let mut r = MaskedData::new();
        let n = v.len();
        let mut k: usize = 0;
        while k < n
            invariant
                n == v@.len(),
                k <= n,
                r@ == v@.subrange(0, k as int),
            decreases n - k,
        {
            let x = v[k].as_ref().cloned();
            r.push(x);
            k += 1;
            assert(r@ =~= v@.subrange(0, k as int));
        }
        assert(v@.subrange(0, n as int) =~= v@);
        r
    }
}

/// The data of one field: a masked data vector of one of the supported kinds.
#[derive(Debug)]
pub enum FieldData {
    /// Unsigned 64-bit integers.
    Unsigned(MaskedData<u64>),
    /// Signed 64-bit integers.
    Signed(MaskedData<i64>),
    /// Text.
    Text(MaskedData<String>),
    /// Booleans.
    Boolean(MaskedData<bool>),
    /// 64-bit floats.
    Float(MaskedData<F64>),
}

impl FieldData {
    /// The kind of data held.
    pub open spec fn spec_kind(&self) -> FieldType {
        match self {
            FieldData::Unsigned(_) => FieldType::Unsigned,
            FieldData::Signed(_) => FieldType::Signed,
            FieldData::Text(_) => FieldType::Text,
            FieldData::Boolean(_) => FieldType::Boolean,
            FieldData::Float(_) => FieldType::Float,
        }
    }

    /// The number of values held.
    pub open spec fn spec_len(&self) -> nat {
        match self {
            FieldData::Unsigned(c) => c@.len(),
            FieldData::Signed(c) => c@.len(),
            FieldData::Text(c) => c@.len(),
            FieldData::Boolean(c) => c@.len(),
            FieldData::Float(c) => c@.len(),
        }
    }

    /// The kind of data held.
    pub fn kind(&self) -> (r: FieldType)
        ensures
            r == self.spec_kind(),
    {
        match self {
            FieldData::Unsigned(_) => FieldType::Unsigned,
            FieldData::Signed(_) => FieldType::Signed,
            FieldData::Text(_) => FieldType::Text,
            FieldData::Boolean(_) => FieldType::Boolean,
            FieldData::Float(_) => FieldType::Float,
        }
    }

    /// The number of values held.
    pub fn len(&self) -> (r: usize)
        ensures
            r == self.spec_len(),
    {
        match self {
            FieldData::Unsigned(c) => c.len(),
            FieldData::Signed(c) => c.len(),
            FieldData::Text(c) => c.len(),
            FieldData::Boolean(c) => c.len(),
            FieldData::Float(c) => c.len(),
        }
    }
}

impl DataType for u64 {
    open spec fn spec_kind() -> FieldType {
        FieldType::Unsigned
    }

    open spec fn spec_le(a: u64, b: u64) -> bool {
        a <= b
    }

    open spec fn spec_column(data: FieldData) -> Option<MaskedData<u64>> {
        match data {
            FieldData::Unsigned(c) => Some(c),
            _ => None,
        }
    }

    fn kind() -> FieldType {
        FieldType::Unsigned
    }

    fn placeholder() -> u64 {
        0
    }

    fn duplicate(&self) -> u64 {
        *self
    }

    fn le(&self, other: &u64) -> bool {
        *self <= *other
    }

    proof fn lemma_le_total(a: u64, b: u64) {
    }

    proof fn lemma_le_trans(a: u64, b: u64, c: u64) {
    }

    fn column(data: &FieldData) -> Option<&MaskedData<u64>> {
        match data {
            FieldData::Unsigned(c) => Some(c),
            _ => None,
        }
    }

    proof fn lemma_column_len(data: FieldData) {
    }

    proof fn lemma_column_kind(data: FieldData) {
    }

    fn into_field(col: MaskedData<u64>) -> FieldData {
        FieldData::Unsigned(col)
    }
}

impl DataType for i64 {
    open spec fn spec_kind() -> FieldType {
        FieldType::Signed
    }

    open spec fn spec_le(a: i64, b: i64) -> bool {
        a <= b
    }

    open spec fn spec_column(data: FieldData) -> Option<MaskedData<i64>> {
        match data {
            FieldData::Signed(c) => Some(c),
            _ => None,
        }
    }

    fn kind() -> FieldType {
        FieldType::Signed
    }

    fn placeholder() -> i64 {
        0
    }

    fn duplicate(&self) -> i64 {
        *self
    }

    fn le(&self, other: &i64) -> bool {
        *self <= *other
    }

    proof fn lemma_le_total(a: i64, b: i64) {
    }

    proof fn lemma_le_trans(a: i64, b: i64, c: i64) {
    }

    fn column(data: &FieldData) -> Option<&MaskedData<i64>> {
        match data {
            FieldData::Signed(c) => Some(c),
            _ => None,
        }
    }

    proof fn lemma_column_len(data: FieldData) {
    }

    proof fn lemma_column_kind(data: FieldData) {
    }

    fn into_field(col: MaskedData<i64>) -> FieldData {
        FieldData::Signed(col)
    }
}

impl DataType for String {
    open spec fn spec_kind() -> FieldType {
        FieldType::Text
    }

    open spec fn spec_le(a: String, b: String) -> bool {
        text_le(a@, b@)
    }

    open spec fn spec_column(data: FieldData) -> Option<MaskedData<String>> {
        match data {
            FieldData::Text(c) => Some(c),
            _ => None,
        }
    }

    fn kind() -> FieldType {
        FieldType::Text
    }

    fn placeholder() -> String {
        String::new()
    }

    fn duplicate(&self) -> String {
        self.clone()
    }

    fn le(&self, other: &String) -> bool {
        string_le(self, other)
    }

    proof fn lemma_le_total(a: String, b: String) {
        lemma_text_le_total(a@, b@);
    }

    proof fn lemma_le_trans(a: String, b: String, c: String) {
        lemma_text_le_trans(a@, b@, c@);
    }

    fn column(data: &FieldData) -> Option<&MaskedData<String>> {
        match data {
            FieldData::Text(c) => Some(c),
            _ => None,
        }
    }

    proof fn lemma_column_len(data: FieldData) {
    }

    proof fn lemma_column_kind(data: FieldData) {
    }

    fn into_field(col: MaskedData<String>) -> FieldData {
        FieldData::Text(col)
    }
}

impl DataType for bool {
    open spec fn spec_kind() -> FieldType {
        FieldType::Boolean
    }

    open spec fn spec_le(a: bool, b: bool) -> bool {
        !a || b
    }

    open spec fn spec_column(data: FieldData) -> Option<MaskedData<bool>> {
        match data {
            FieldData::Boolean(c) => Some(c),
            _ => None,
        }
    }

    fn kind() -> FieldType {
        FieldType::Boolean
    }

    fn placeholder() -> bool {
        false
    }

    fn duplicate(&self) -> bool {
        *self
    }

    fn le(&self, other: &bool) -> bool {
        !*self || *other
    }

    proof fn lemma_le_total(a: bool, b: bool) {
    }

    proof fn lemma_le_trans(a: bool, b: bool, c: bool) {
    }

    fn column(data: &FieldData) -> Option<&MaskedData<bool>> {
        match data {
            FieldData::Boolean(c) => Some(c),
            _ => None,
        }
    }

    proof fn lemma_column_len(data: FieldData) {
    }

    proof fn lemma_column_kind(data: FieldData) {
    }

    fn into_field(col: MaskedData<bool>) -> FieldData {
        FieldData::Boolean(col)
    }
}

impl DataType for F64 {
    open spec fn spec_kind() -> FieldType {
        FieldType::Float
    }

    open spec fn spec_le(a: F64, b: F64) -> bool {
        float_rank(a.bits) <= float_rank(b.bits)
    }

    open spec fn spec_column(data: FieldData) -> Option<MaskedData<F64>> {
        match data {
            FieldData::Float(c) => Some(c),
            _ => None,
        }
    }

    fn kind() -> FieldType {
        FieldType::Float
    }

    fn placeholder() -> F64 {
        F64 { bits: 0 }
    }

    fn duplicate(&self) -> F64 {
        *self
    }

    fn le(&self, other: &F64) -> bool {
        self.rank() <= other.rank()
    }

    proof fn lemma_le_total(a: F64, b: F64) {
    }

    proof fn lemma_le_trans(a: F64, b: F64, c: F64) {
    }

    fn column(data: &FieldData) -> Option<&MaskedData<F64>> {
        match data {
            FieldData::Float(c) => Some(c),
            _ => None,
        }
    }

    proof fn lemma_column_len(data: FieldData) {
    }

    proof fn lemma_column_kind(data: FieldData) {
    }

    fn into_field(col: MaskedData<F64>) -> FieldData {
        FieldData::Float(col)
    }
}

} // verus!
