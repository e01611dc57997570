//! Field identifiers, column kinds and the value types that columns hold.
use vstd::prelude::*;
use crate::masked::{FieldData, MaskedData};

verus! {

/// The identity of a field as a mathematical value: strings are compared by their characters.
pub enum IdentView {
    /// A positional identifier.
    Index(usize),
    /// A named identifier.
    Name(Seq<char>),
}

/// Identifies a field (column) by name or by position.
#[derive(Debug, Clone, PartialEq, Eq, Hash)]
pub enum FieldIdent {
    /// A positional identifier.
    Index(usize),
    /// A named identifier.
    Name(String),
}

impl View for FieldIdent {
    type V = IdentView;

    open spec fn view(&self) -> IdentView {
        match self {
            FieldIdent::Index(i) => IdentView::Index(*i),
            FieldIdent::Name(s) => IdentView::Name(s@),
        }
    }
}

impl FieldIdent {
    /// A named identifier holding a copy of `s`.
    pub fn name(s: &str) -> (r: FieldIdent)
        ensures
            r@ == IdentView::Name(s@),
    {
        FieldIdent::Name(s.to_string())
    }

    /// A copy of this identifier.
    pub fn duplicate(&self) -> (r: FieldIdent)
        ensures
            r == *self,
    {
        match self {
            FieldIdent::Index(i) => FieldIdent::Index(*i),
            FieldIdent::Name(s) => FieldIdent::Name(s.clone()),
        }
    }

    /// Whether two identifiers name the same field.
    pub fn same_as(&self, other: &FieldIdent) -> (r: bool)
        ensures
            r == (self@ == other@),
    {
        match (self, other) {
            (FieldIdent::Index(a), FieldIdent::Index(b)) => *a == *b,
            (FieldIdent::Name(a), FieldIdent::Name(b)) => *a == *b,
            _ => false,
        }
    }
}

/// The identity of a possibly renamed field, as a mathematical value.
pub struct RIdentView {
    /// The field's identity in its store.
    pub ident: IdentView,
    /// The identity it is known by in a view, if it was renamed.
    pub rename: Option<IdentView>,
}

/// A field identifier along with the name it was renamed to, if any.
#[derive(Debug, Clone, PartialEq, Eq, Hash)]
pub struct RFieldIdent {
    /// The identifier of the field in its store.
    pub ident: FieldIdent,
    /// The identifier the field was renamed to, if it was.
    pub rename: Option<FieldIdent>,
}

impl View for RFieldIdent {
    type V = RIdentView;

    open spec fn view(&self) -> RIdentView {
        RIdentView {
            ident: self.ident@,
            rename: match self.rename {
                Some(n) => Some(n@),
                None => None,
            },
        }
    }
}

/// The identity by which a possibly renamed field is known.
pub open spec fn renamed_view(r: RIdentView) -> IdentView {
    match r.rename {
        Some(n) => n,
        None => r.ident,
    }
}

impl RFieldIdent {
    /// The identifier by which this field is known: its new name if renamed, else the store identifier.
    pub fn to_renamed_field_ident(&self) -> (r: FieldIdent)
        ensures
            r@ == renamed_view(self@),
    {
        match &self.rename {
            Some(n) => n.duplicate(),
            None => self.ident.duplicate(),
        }
    }

    /// A copy of this identifier.
    pub fn duplicate(&self) -> (r: RFieldIdent)
        ensures
            r == *self,
    {
        RFieldIdent {
            ident: self.ident.duplicate(),
            rename: match &self.rename {
                Some(n) => Some(n.duplicate()),
                None => None,
            },
        }
    }
}

/// The kind of data that a column holds.
#[derive(Debug, Clone, Copy, PartialEq, Eq, Structural)]
pub enum FieldType {
    /// Unsigned 64-bit integers.
    Unsigned,
    /// Signed 64-bit integers.
    Signed,
    /// Text.
    Text,
    /// Booleans.
    Boolean,
    /// 64-bit floating-point numbers, held by their bit pattern.
    Float,
}

/// A 64-bit floating-point number held by its IEEE-754 bit pattern.
#[derive(Debug, Clone, Copy, PartialEq, Eq, Hash)]
pub struct F64 {
    /// The IEEE-754 binary64 encoding.
    pub bits: u64,
}

/// Sign bit of a binary64 encoding.
pub const SIGN_BIT: u64 = 0x8000_0000_0000_0000;

/// Encoding of positive infinity; larger magnitudes are NaN.
pub const INF_BITS: u64 = 0x7FF0_0000_0000_0000;

/// The position of a float in the column order: every NaN first (rank 0), then all other
/// numbers ascending, with both zeros at one rank.
pub open spec fn float_rank(bits: u64) -> int {
    let mag = bits as int % (SIGN_BIT as int);
    if mag > INF_BITS as int {
        0
    } else if bits as int >= SIGN_BIT as int {
        SIGN_BIT as int - mag
    } else {
        SIGN_BIT as int + mag
    }
}

impl F64 {
    /// A float from its IEEE-754 bit pattern.
    pub fn from_bits(bits: u64) -> (r: F64)
        ensures
            r.bits == bits,
    {
        F64 { bits }
    }

    /// The IEEE-754 bit pattern of this float.
    pub fn to_bits(&self) -> (r: u64)
        ensures
            r == self.bits,
    {
        self.bits
    }

    /// Whether this float is a NaN.
    pub fn is_nan(&self) -> (r: bool)
        ensures
            r == (self.bits as int % (SIGN_BIT as int) > INF_BITS as int),
    {
        self.bits % SIGN_BIT > INF_BITS
    }

    /// The rank of this float in the column order.
    pub fn rank(&self) -> (r: u64)
        ensures
            r as int == float_rank(self.bits),
    {
        let mag = self.bits % SIGN_BIT;
        if mag > INF_BITS {
            0
        } else if self.bits >= SIGN_BIT {
            SIGN_BIT - mag
        } else {
            SIGN_BIT + mag
        }
    }
}

/// Lexicographic order of character sequences, by code point.
pub open spec fn text_le(a: Seq<char>, b: Seq<char>) -> bool
    decreases a.len(),
{
    if a.len() == 0 {
        true
    } else if b.len() == 0 {
        false
    } else if (a[0] as u32) < (b[0] as u32) {
        true
    } else if (b[0] as u32) < (a[0] as u32) {
        false
    } else {
        text_le(a.drop_first(), b.drop_first())
    }
}

/// Any two texts are ordered one way or the other.
pub proof fn lemma_text_le_total(a: Seq<char>, b: Seq<char>)
    ensures
        text_le(a, b) || text_le(b, a),
    decreases a.len(),
{
    if a.len() > 0 && b.len() > 0 && (a[0] as u32) == (b[0] as u32) {
        lemma_text_le_total(a.drop_first(), b.drop_first());
    }
}

/// The text order is transitive.
pub proof fn lemma_text_le_trans(a: Seq<char>, b: Seq<char>, c: Seq<char>)
    requires
        text_le(a, b),
        text_le(b, c),
    ensures
        text_le(a, c),
    decreases a.len(),
{
    if a.len() > 0 && b.len() > 0 && c.len() > 0 && (a[0] as u32) == (b[0] as u32)
        && (b[0] as u32) == (c[0] as u32) {
        lemma_text_le_trans(a.drop_first(), b.drop_first(), c.drop_first());
    }
}

/// Relies on `<String as PartialOrd>::le`: strings compare lexicographically by their UTF-8
/// bytes, which orders them as their sequences of code points.
#[verifier::external_body]
pub(crate) fn string_le(a: &String, b: &String) -> (r: bool)
    ensures
        r == text_le(a@, b@),
{
    a <= b
}

/// A type of value that a column can hold.
pub trait DataType: Sized {
    /// The kind of column that holds values of this type.
    spec fn spec_kind() -> FieldType;

    /// The column order on values of this type.
    spec fn spec_le(a: Self, b: Self) -> bool;

    /// The column of this type in `data`, if `data` holds this type.
    spec fn spec_column(data: FieldData) -> Option<MaskedData<Self>>;

    /// The kind of column that holds values of this type.
    fn kind() -> (r: FieldType)
        ensures
            r == Self::spec_kind(),
    ;

    /// The value stored in the data vector under a missing cell.
    fn placeholder() -> Self;

    /// A copy of this value.
    fn duplicate(&self) -> (r: Self)
        ensures
            r == *self,
    ;

    /// Compares two values in the column order.
    fn le(&self, other: &Self) -> (r: bool)
        ensures
            r == Self::spec_le(*self, *other),
    ;

    /// The column order is total.
    proof fn lemma_le_total(a: Self, b: Self)
        ensures
            Self::spec_le(a, b) || Self::spec_le(b, a),
    ;

    /// The column order is transitive.
    proof fn lemma_le_trans(a: Self, b: Self, c: Self)
        requires
            Self::spec_le(a, b),
            Self::spec_le(b, c),
        ensures
            Self::spec_le(a, c),
    ;

    /// The column of this type in `data`, if `data` holds this type.
    fn column(data: &FieldData) -> (r: Option<&MaskedData<Self>>)
        ensures
            match r {
                Some(c) => Self::spec_column(*data) == Some(*c),
                None => Self::spec_column(*data).is_none(),
            },
            Self::spec_column(*data).is_some() <==> data.spec_kind() == Self::spec_kind(),
    ;

    /// The column of this type in a field holds as many values as the field.
    proof fn lemma_column_len(data: FieldData)
        ensures
            Self::spec_column(data) matches Some(c) ==> c@.len() == data.spec_len(),
    ;

    /// A field holds a column of this type exactly when it is of this type's kind.
    proof fn lemma_column_kind(data: FieldData)
        ensures
            Self::spec_column(data).is_some() <==> data.spec_kind() == Self::spec_kind(),
    ;

    /// A field holding `col`.
    fn into_field(col: MaskedData<Self>) -> (r: FieldData)
        ensures
            Self::spec_column(r) == Some(col),
            r.spec_kind() == Self::spec_kind(),
            r.spec_len() == col@.len(),
    ;
}

} // verus!
