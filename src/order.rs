//! The column order on possibly missing values, and the stable sort order of a column.
use vstd::prelude::*;
use crate::field::{DataType, F64, INF_BITS, SIGN_BIT, float_rank};
use crate::masked::MaybeNa;

verus! {

/// The column order: missing values first, then existing values in their type's order.
pub open spec fn value_le<T: DataType>(a: MaybeNa<T>, b: MaybeNa<T>) -> bool {
    match (a, b) {
        (MaybeNa::Na, _) => true,
        (MaybeNa::Exists(_), MaybeNa::Na) => false,
        (MaybeNa::Exists(x), MaybeNa::Exists(y)) => T::spec_le(x, y),
    }
}

/// Two values are equivalent in the column order.
pub open spec fn value_eq<T: DataType>(a: MaybeNa<T>, b: MaybeNa<T>) -> bool {
    value_le(a, b) && value_le(b, a)
}

/// The column order is total.
pub proof fn lemma_value_le_total<T: DataType>(a: MaybeNa<T>, b: MaybeNa<T>)
    ensures
        value_le(a, b) || value_le(b, a),
{
    if let (MaybeNa::Exists(x), MaybeNa::Exists(y)) = (a, b) {
        T::lemma_le_total(x, y);
    }
}

/// The column order is transitive.
pub proof fn lemma_value_le_trans<T: DataType>(a: MaybeNa<T>, b: MaybeNa<T>, c: MaybeNa<T>)
    requires
        value_le(a, b),
        value_le(b, c),
    ensures
        value_le(a, c),
{
    if let (MaybeNa::Exists(x), MaybeNa::Exists(y), MaybeNa::Exists(z)) = (a, b, c) {
        T::lemma_le_trans(x, y, z);
    }
}

/// Compares two possibly missing values in the column order.
pub fn value_le_exec<T: DataType>(a: &MaybeNa<T>, b: &MaybeNa<T>) -> (r: bool)
    ensures
        r == value_le(*a, *b),
{
    match (a, b) {
        (MaybeNa::Na, _) => true,
        (MaybeNa::Exists(_), MaybeNa::Na) => false,
        (MaybeNa::Exists(x), MaybeNa::Exists(y)) => x.le(y),
    }
}

/// Row `i` comes strictly before row `j` when sorting `keys` stably: its key is smaller, or
/// the keys are equivalent and `i` comes first.
pub open spec fn before<T: DataType>(keys: Seq<MaybeNa<T>>, i: int, j: int) -> bool {
    value_le(keys[i], keys[j]) && (!value_le(keys[j], keys[i]) || i < j)
}

/// `before` is transitive.
pub proof fn lemma_before_trans<T: DataType>(keys: Seq<MaybeNa<T>>, i: int, j: int, k: int)
    requires
        before(keys, i, j),
        before(keys, j, k),
    ensures
        before(keys, i, k),
{
    lemma_value_le_trans(keys[i], keys[j], keys[k]);
    if value_le(keys[k], keys[i]) {
        lemma_value_le_trans(keys[j], keys[k], keys[i]);
        lemma_value_le_trans(keys[k], keys[i], keys[j]);
    }
}

/// Rows `s` are listed in stable ascending order of their keys.
pub open spec fn sorted_by<T: DataType>(keys: Seq<MaybeNa<T>>, s: Seq<usize>) -> bool {
    &&& forall|p: int| 0 <= p < s.len() ==> #[trigger] s[p] < keys.len()
    &&& forall|p: int, q: int| 0 <= p < q < s.len() ==> before(keys, #[trigger] s[p] as int, #[trigger] s[q] as int)
}

/// `order` is the stable ascending sort order of `keys`: every row once, in stable order.
pub open spec fn is_sort_order<T: DataType>(keys: Seq<MaybeNa<T>>, order: Seq<usize>) -> bool {
    &&& order.len() == keys.len()
    &&& sorted_by(keys, order)
    &&& forall|x: usize| #[trigger] order.contains(x) <==> x < keys.len()
}

/// Membership after a push.
pub proof fn lemma_push_contains<A>(s: Seq<A>, x: A, y: A)
    ensures
        s.push(x).contains(y) <==> (s.contains(y) || y == x),
{
    if s.push(x).contains(y) {
        let k = choose|k: int| 0 <= k < s.push(x).len() && s.push(x)[k] == y;
        if k < s.len() {
            assert(s[k] == y);
        }
    }
    if s.contains(y) {
        let k = choose|k: int| 0 <= k < s.len() && s[k] == y;
        assert(s.push(x)[k] == y);
    }
    if y == x {
        assert(s.push(x)[s.len() as int] == y);
    }
}

/// Merges two sorted runs, all of whose rows in `a` precede those in `b`.
fn merge_runs<T: DataType>(keys: &Vec<MaybeNa<T>>, a: Vec<usize>, b: Vec<usize>) -> (r: Vec<usize>)
    requires
        sorted_by(keys@, a@),
        sorted_by(keys@, b@),
        forall|i: int, j: int| 0 <= i < a@.len() && 0 <= j < b@.len() ==> #[trigger] a@[i] < #[trigger] b@[j],
    ensures
        sorted_by(keys@, r@),
        r@.len() == a@.len() + b@.len(),
        forall|x: usize| #[trigger] r@.contains(x) <==> (a@.contains(x) || b@.contains(x)),
{
    let mut r: Vec<usize> = Vec::new();
    let mut i: usize = 0;
    let mut j: usize = 0;
    while i < a.len() || j < b.len()
        invariant
            i <= a@.len(),
            j <= b@.len(),
            r@.len() == i + j,
            sorted_by(keys@, a@),
            sorted_by(keys@, b@),
            forall|i: int, j: int| 0 <= i < a@.len() && 0 <= j < b@.len() ==> #[trigger] a@[i] < #[trigger] b@[j],
            sorted_by(keys@, r@),
            forall|p: int| 0 <= p < r@.len() && i < a@.len() ==> before(keys@, #[trigger] r@[p] as int, a@[i as int] as int),
            forall|p: int| 0 <= p < r@.len() && j < b@.len() ==> before(keys@, #[trigger] r@[p] as int, b@[j as int] as int),
            forall|x: usize| #[trigger] r@.contains(x) <==> (a@.subrange(0, i as int).contains(x) || b@.subrange(0, j as int).contains(x)),
        decreases a@.len() + b@.len() - i - j,
    {
        let take_a = if i < a.len() && j < b.len() {
            value_le_exec(&keys[a[i]], &keys[b[j]])
        } else {
            i < a.len()
        };
        let ghost old_r = r@;
        let x = if take_a { a[i] } else { b[j] };
        proof {
            if take_a && j < b@.len() {
                assert(a@[i as int] < b@[j as int]);
            }
            if !take_a && i < a@.len() {
                lemma_value_le_total(keys@[a@[i as int] as int], keys@[b@[j as int] as int]);
            }
        }
        r.push(x);
        if take_a {
            i += 1;
        } else {
            j += 1;
        }
        proof {
            assert(r@.last() == x);
            assert forall|p: int, q: int| 0 <= p < q < r@.len() implies before(keys@, #[trigger] r@[p] as int, #[trigger] r@[q] as int) by {
                if q < old_r.len() {
                    assert(old_r[p] == r@[p] && old_r[q] == r@[q]);
                } else {
                    assert(old_r[p] == r@[p]);
                }
            }
            if i < a@.len() {
                assert forall|p: int| 0 <= p < r@.len() implies before(keys@, #[trigger] r@[p] as int, a@[i as int] as int) by {
                    if take_a {
                        assert(before(keys@, a@[i - 1] as int, a@[i as int] as int));
                        if p < old_r.len() {
                            lemma_before_trans(keys@, r@[p] as int, a@[i - 1] as int, a@[i as int] as int);
                        }
                    } else {
                        if p < old_r.len() {
                            assert(old_r[p] == r@[p]);
                        }
                    }
                }
            }
            if j < b@.len() {
                assert forall|p: int| 0 <= p < r@.len() implies before(keys@, #[trigger] r@[p] as int, b@[j as int] as int) by {
                    if !take_a {
                        assert(before(keys@, b@[j - 1] as int, b@[j as int] as int));
                        if p < old_r.len() {
                            lemma_before_trans(keys@, r@[p] as int, b@[j - 1] as int, b@[j as int] as int);
                        }
                    } else {
                        if p < old_r.len() {
                            assert(old_r[p] == r@[p]);
                        }
                    }
                }
            }
            assert forall|y: usize| #[trigger] r@.contains(y) <==> (a@.subrange(0, i as int).contains(y) || b@.subrange(0, j as int).contains(y)) by {
                if take_a {
                    assert(a@.subrange(0, i as int) =~= a@.subrange(0, i - 1).push(x));
                    lemma_push_contains(a@.subrange(0, i - 1), x, y);
                } else {
                    assert(b@.subrange(0, j as int) =~= b@.subrange(0, j - 1).push(x));
                    lemma_push_contains(b@.subrange(0, j - 1), x, y);
                }
                assert(r@ =~= old_r.push(x));
                lemma_push_contains(old_r, x, y);
            }
        }
    }
    proof {
        assert(a@.subrange(0, i as int) =~= a@);
        assert(b@.subrange(0, j as int) =~= b@);
    }
    r
}

/// The stable sort order of the rows `lo..hi` of `keys`.
fn sort_range<T: DataType>(keys: &Vec<MaybeNa<T>>, lo: usize, hi: usize) -> (r: Vec<usize>)
    requires
        lo <= hi <= keys@.len(),
    ensures
        sorted_by(keys@, r@),
        r@.len() == hi - lo,
        forall|x: usize| #[trigger] r@.contains(x) <==> lo <= x < hi,
    decreases hi - lo,
{
    if hi - lo == 0 {
        let r: Vec<usize> = Vec::new();
        assert forall|x: usize| #[trigger] r@.contains(x) <==> lo <= x < hi by {}
        r
    } else if hi - lo == 1 {
        let mut r: Vec<usize> = Vec::new();
        r.push(lo);
        assert forall|x: usize| #[trigger] r@.contains(x) <==> lo <= x < hi by {
            if lo <= x < hi {
                assert(r@[0] == x);
            }
        }
        r
    } else {
        let mid = lo + (hi - lo) / 2;
        let a = sort_range(keys, lo, mid);
        let b = sort_range(keys, mid, hi);
        assert forall|i: int, j: int| 0 <= i < a@.len() && 0 <= j < b@.len() implies #[trigger] a@[i] < #[trigger] b@[j] by {
            assert(a@.contains(a@[i]));
            assert(b@.contains(b@[j]));
        }
        merge_runs(keys, a, b)
    }
}

/// The stable ascending sort order of `keys`: the row indices, ordered by key, with rows of
/// equivalent keys in their input order.
pub fn sort_order<T: DataType>(keys: &Vec<MaybeNa<T>>) -> (r: Vec<usize>)
    ensures
        is_sort_order(keys@, r@),
{
    sort_range(keys, 0, keys.len())
}

/// A sort order lists the keys in non-decreasing column order.
pub proof fn lemma_sort_order_ascending<T: DataType>(keys: Seq<MaybeNa<T>>, order: Seq<usize>)
    requires
        is_sort_order(keys, order),
    ensures
        forall|a: int, b: int| 0 <= a < b < order.len() ==> value_le(keys[#[trigger] order[a] as int], keys[#[trigger] order[b] as int]),
{
    assert forall|a: int, b: int| 0 <= a < b < order.len() implies value_le(keys[#[trigger] order[a] as int], keys[#[trigger] order[b] as int]) by {
        assert(before(keys, order[a] as int, order[b] as int));
    }
}

/// A float value that exists and is a NaN.
pub open spec fn is_nan_value(v: MaybeNa<F64>) -> bool {
    v matches MaybeNa::Exists(x) && x.bits as int % (SIGN_BIT as int) > INF_BITS as int
}

/// Sorting floats puts missing values first, then NaNs, then the other numbers ascending.
pub proof fn lemma_float_sort_order(keys: Seq<MaybeNa<F64>>, order: Seq<usize>)
    requires
        is_sort_order(keys, order),
    ensures
        forall|a: int, b: int| 0 <= a < b < order.len() ==> (keys[#[trigger] order[b] as int] is Na
            ==> keys[#[trigger] order[a] as int] is Na),
        forall|a: int, b: int| 0 <= a < b < order.len() ==> (is_nan_value(keys[#[trigger] order[b] as int])
            ==> (keys[#[trigger] order[a] as int] is Na || is_nan_value(keys[order[a] as int]))),
        forall|a: int, b: int| 0 <= a < b < order.len() ==> (keys[#[trigger] order[a] as int] is Exists
            && keys[#[trigger] order[b] as int] is Exists ==> float_rank(keys[order[a] as int]->Exists_0.bits)
            <= float_rank(keys[order[b] as int]->Exists_0.bits)),
{
    lemma_sort_order_ascending(keys, order);
    assert forall|a: int, b: int| 0 <= a < b < order.len() implies (is_nan_value(keys[#[trigger] order[b] as int])
        ==> (keys[#[trigger] order[a] as int] is Na || is_nan_value(keys[order[a] as int]))) by {
        assert(value_le(keys[order[a] as int], keys[order[b] as int]));
    }
    assert forall|a: int, b: int| 0 <= a < b < order.len() implies (keys[#[trigger] order[a] as int] is Exists
        && keys[#[trigger] order[b] as int] is Exists ==> float_rank(keys[order[a] as int]->Exists_0.bits)
        <= float_rank(keys[order[b] as int]->Exists_0.bits)) by {
        assert(value_le(keys[order[a] as int], keys[order[b] as int]));
    }
}

} // verus!
