//! Counting and extrema over the values of a column.
use vstd::prelude::*;
use crate::field::DataType;
use crate::masked::{MaskedData, MaybeNa};

verus! {

/// The number of missing values in `s`.
pub open spec fn count_na<T>(s: Seq<MaybeNa<T>>) -> nat
    decreases s.len(),
{
    if s.len() == 0 {
        0
    } else {
        count_na(s.drop_last()) + if s.last() is Na { 1nat } else { 0nat }
    }
}

/// The number of existing values in `s`.
pub open spec fn count_exists<T>(s: Seq<MaybeNa<T>>) -> nat
    decreases s.len(),
{
    if s.len() == 0 {
        0
    } else {
        count_exists(s.drop_last()) + if s.last() is Exists { 1nat } else { 0nat }
    }
}

/// Counting missing and existing values in a field.
pub trait NaCount {
    /// The type of the values.
    type DType;

    /// The values of the field.
    spec fn spec_values(&self) -> Seq<MaybeNa<Self::DType>>;

    /// The number of missing (NA) values.
    fn num_na(&self) -> (r: usize)
        ensures
            r == count_na(self.spec_values()),
    ;

    /// The number of existing values.
    fn num_exists(&self) -> (r: usize)
        ensures
            r == count_exists(self.spec_values()),
    ;
}

/// `x` is an existing value of `s` that is no larger (when `smallest`), or no smaller, than
/// every existing value of `s`.
pub open spec fn is_extreme<T: DataType>(s: Seq<MaybeNa<T>>, x: T, smallest: bool) -> bool {
    &&& exists|i: int| 0 <= i < s.len() && s[i] == MaybeNa::Exists(x)
    &&& forall|j: int|
        0 <= j < s.len() ==> (#[trigger] s[j] matches MaybeNa::Exists(y) ==> if smallest {
            T::spec_le(x, y)
        } else {
            T::spec_le(y, x)
        })
}

/// The smallest and largest existing values of a field, in the column order.
pub trait Extrema {
    /// The type of the values.
    type Output: DataType;

    /// The values of the field.
    spec fn spec_values(&self) -> Seq<MaybeNa<Self::Output>>;

    /// The minimum existing value, or `None` if no value exists.
    fn min(&self) -> (r: Option<&Self::Output>)
        ensures
            r is None <==> count_exists(self.spec_values()) == 0,
            r matches Some(x) ==> is_extreme(self.spec_values(), *x, true),
    ;

    /// The maximum existing value, or `None` if no value exists.
    fn max(&self) -> (r: Option<&Self::Output>)
        ensures
            r is None <==> count_exists(self.spec_values()) == 0,
            r matches Some(x) ==> is_extreme(self.spec_values(), *x, false),
    ;
}

/// No value exists exactly when the count of existing values is zero.
proof fn lemma_none_exist<T>(s: Seq<MaybeNa<T>>)
    ensures
        count_exists(s) == 0 <==> forall|i: int| 0 <= i < s.len() ==> #[trigger] s[i] is Na,
    decreases s.len(),
{
    if s.len() > 0 {
        lemma_none_exist(s.drop_last());
        if count_exists(s) == 0 {
            assert forall|i: int| 0 <= i < s.len() implies #[trigger] s[i] is Na by {
                if i < s.len() - 1 {
                    assert(s.drop_last()[i] == s[i]);
                }
            }
        }
        if forall|i: int| 0 <= i < s.len() ==> #[trigger] s[i] is Na {
            assert forall|i: int| 0 <= i < s.drop_last().len() implies #[trigger] s.drop_last()[i] is Na by {
                assert(s[i] is Na);
            }
            assert(s[s.len() - 1] is Na);
        }
    }
}

impl<T: DataType> MaskedData<T> {
    /// The extreme existing value of this data vector: the first minimum when `smallest`,
    /// else the first maximum.
    fn extreme(&self, smallest: bool) -> (r: Option<&T>)
        ensures
            r is None <==> count_exists(self@) == 0,
            r matches Some(x) ==> is_extreme(self@, *x, smallest),
    {
        let n = self.len();
        let mut best: Option<&T> = None;
        let mut i: usize = 0;
        while i < n
            invariant
                n == self@.len(),
                i <= n,
                best is None <==> forall|k: int| 0 <= k < i ==> #[trigger] self@[k] is Na,
                best matches Some(x) ==> (exists|k: int| 0 <= k < i && self@[k] == MaybeNa::Exists(*x)),
                best matches Some(x) ==> forall|j: int| 0 <= j < i ==> (#[trigger] self@[j] matches MaybeNa::Exists(y) ==> if smallest {
                    T::spec_le(*x, y)
                } else {
                    T::spec_le(y, *x)
                }),
            decreases n - i,
        {
            match self.get(i) {
                Some(MaybeNa::Exists(v)) => {
                    let better = match best {
                        None => true,
                        Some(b) => if smallest { !b.le(v) } else { !v.le(b) },
                    };
                    if better {
                        proof {
                            T::lemma_le_total(*v, *v);
                            if let Some(b) = best {
                                T::lemma_le_total(*b, *v);
                                assert forall|j: int| 0 <= j < i implies (#[trigger] self@[j] matches MaybeNa::Exists(y) ==> if smallest {
                                    T::spec_le(*v, y)
                                } else {
                                    T::spec_le(y, *v)
                                }) by {
                                    if let MaybeNa::Exists(y) = self@[j] {
                                        if smallest {
                                            T::lemma_le_trans(*v, *b, y);
                                        } else {
                                            T::lemma_le_trans(y, *b, *v);
                                        }
                                    }
                                }
                            }
                        }
                        best = Some(v);
                        proof {
                            assert(self@[i as int] == MaybeNa::Exists(*v));
                        }
                    } else {
                        proof {
                            T::lemma_le_total(*best->Some_0, *v);
                        }
                    }
                },
                _ => {},
            }
            i += 1;
        }
        proof {
            lemma_none_exist(self@);
        }
        best
    }
}

impl<T: DataType> NaCount for MaskedData<T> {
    type DType = T;

    open spec fn spec_values(&self) -> Seq<MaybeNa<T>> {
        self@
    }

    fn num_na(&self) -> usize {
        let n = self.len();
        let mut count: usize = 0;
        let mut i: usize = 0;
        while i < n
            invariant
                n == self@.len(),
                i <= n,
                count == count_na(self@.subrange(0, i as int)),
                count <= i,
            decreases n - i,
        {
            proof {
                assert(self@.subrange(0, i + 1).drop_last() =~= self@.subrange(0, i as int));
            }
            match self.get(i) {
                Some(MaybeNa::Na) => { count += 1; },
                _ => {},
            }
            i += 1;
        }
        assert(self@.subrange(0, n as int) =~= self@);
        count
    }

    fn num_exists(&self) -> usize {
        let n = self.len();
        let mut count: usize = 0;
        let mut i: usize = 0;
        while i < n
            invariant
                n == self@.len(),
                i <= n,
                count == count_exists(self@.subrange(0, i as int)),
                count <= i,
            decreases n - i,
        {
            proof {
                assert(self@.subrange(0, i + 1).drop_last() =~= self@.subrange(0, i as int));
            }
            match self.get(i) {
                Some(MaybeNa::Exists(_)) => { count += 1; },
                _ => {},
            }
            i += 1;
        }
        assert(self@.subrange(0, n as int) =~= self@);
        count
    }
}

impl<T: DataType> Extrema for MaskedData<T> {
    type Output = T;

    open spec fn spec_values(&self) -> Seq<MaybeNa<T>> {
        self@
    }

    fn min(&self) -> Option<&T> {
        self.extreme(true)
    }

    fn max(&self) -> Option<&T> {
        self.extreme(false)
    }
}

} // verus!
