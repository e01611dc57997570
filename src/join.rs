//! The join engine: sort-merge and cross joins of two views into a new store.
use vstd::prelude::*;
use crate::error::AgnesError;
use crate::field::{DataType, FieldIdent, FieldType, IdentView, F64};
use crate::view::{DataView, ViewField, unique_keys};
use crate::masked::{FieldData, MaskedData, MaybeNa};
use crate::store::DataStore;
use crate::order::{before, is_sort_order, lemma_push_contains, lemma_value_le_total, lemma_value_le_trans, sort_order, value_eq, value_le, value_le_exec};

verus! {

/// The kind of a join.
#[derive(Debug, Clone, Copy, PartialEq, Eq, Structural)]
pub enum JoinKind {
    /// Inner join: the pairs of rows that match.
    Inner,
    /// Left outer join: as inner, plus each left row that matches nothing, once, with missing
    /// values on the right (swap the operands for a right outer join).
    Outer,
    /// Cross join: every left row with every right row.
    Cross,
}

/// The predicate that join keys must satisfy, left key against right key, in the column order
/// (where missing keys are equivalent to each other and smaller than every existing key).
#[derive(Debug, Clone, Copy, PartialEq, Eq, Structural)]
pub enum Predicate {
    /// The keys are equivalent.
    Equal,
    /// The left key is smaller.
    LessThan,
    /// The left key is smaller or equivalent.
    LessThanEqual,
    /// The left key is larger.
    GreaterThan,
    /// The left key is larger or equivalent.
    GreaterThanEqual,
}

/// Whether left key `l` and right key `r` satisfy `pred`.
pub open spec fn key_matches<T: DataType>(pred: Predicate, l: MaybeNa<T>, r: MaybeNa<T>) -> bool {
    match pred {
        Predicate::Equal => value_eq(l, r),
        Predicate::LessThan => !value_le(r, l),
        Predicate::LessThanEqual => value_le(l, r),
        Predicate::GreaterThan => !value_le(l, r),
        Predicate::GreaterThanEqual => value_le(r, l),
    }
}

/// Whether left row `p` and right row `q` are joined.
pub open spec fn rows_match<T: DataType>(kind: JoinKind, pred: Predicate, ls: Seq<MaybeNa<T>>, rs: Seq<MaybeNa<T>>, p: int, q: int) -> bool {
    kind is Cross || key_matches(pred, ls[p], rs[q])
}

/// `out` lists the row pairs of the join of left keys `ls` and right keys `rs`, each once: a
/// left row with `Some` right row for each matching pair, and, in an outer join, a left row
/// with `None` for each left row that matches nothing.
pub open spec fn join_result<T: DataType>(kind: JoinKind, pred: Predicate, ls: Seq<MaybeNa<T>>, rs: Seq<MaybeNa<T>>, out: Seq<(usize, Option<usize>)>) -> bool {
    &&& out.no_duplicates()
    &&& forall|k: int| 0 <= k < out.len() ==> (#[trigger] out[k]).0 < ls.len() && (out[k].1 matches Some(q) ==> q < rs.len())
    &&& forall|p: usize, q: usize|
        p < ls.len() && q < rs.len() ==> (#[trigger] out.contains((p, Some(q))) <==> rows_match(kind, pred, ls, rs, p as int, q as int))
    &&& forall|p: usize|
        p < ls.len() ==> (#[trigger] out.contains((p, None)) <==> (kind is Outer && forall|q: int|
            0 <= q < rs.len() ==> !rows_match(kind, pred, ls, rs, p as int, q)))
}

/// `s` is in ascending column order.
pub open spec fn ascending<T: DataType>(s: Seq<MaybeNa<T>>) -> bool {
    forall|a: int, b: int| 0 <= a < b < s.len() ==> value_le(#[trigger] s[a], #[trigger] s[b])
}

/// Pair `x` lies in the block of left rows `i..i2` and right rows `j..j2`.
pub open spec fn in_block(x: (usize, Option<usize>), i: int, i2: int, j: int, j2: int) -> bool {
    i <= x.0 < i2 && (x.1 matches Some(q) && j <= q < j2)
}

/// Pushing a new element keeps a sequence free of duplicates.
pub proof fn lemma_push_no_dup<A>(s: Seq<A>, x: A)
    requires
        s.no_duplicates(),
        !s.contains(x),
    ensures
        s.push(x).no_duplicates(),
{
    assert forall|a: int, b: int| 0 <= a < b < s.push(x).len() implies s.push(x)[a] != s.push(x)[b] by {
        if b == s.len() {
            assert(s[a] == s.push(x)[a]);
        } else {
            assert(s[a] == s.push(x)[a] && s[b] == s.push(x)[b]);
        }
    }
}

/// Appends the pairs `(p, Some(q))` for `p` in `i..i2` and `q` in `j..j2`.
fn emit_block(out: &mut Vec<(usize, Option<usize>)>, i: usize, i2: usize, j: usize, j2: usize)
    requires
        i <= i2,
        j <= j2,
        old(out)@.no_duplicates(),
        forall|p: usize, q: usize| i <= p < i2 && j <= q < j2 ==> !old(out)@.contains((p, Some(q))),
    ensures
        final(out)@.no_duplicates(),
        final(out)@.len() >= old(out)@.len(),
        forall|k: int| 0 <= k < old(out)@.len() ==> #[trigger] final(out)@[k] == old(out)@[k],
        forall|k: int| old(out)@.len() <= k < final(out)@.len() ==> i <= (#[trigger] final(out)@[k]).0 < i2
            && (final(out)@[k].1 matches Some(q) && j <= q < j2),
        forall|x: (usize, Option<usize>)| #[trigger] final(out)@.contains(x) <==> (old(out)@.contains(x)
            || in_block(x, i as int, i2 as int, j as int, j2 as int)),
{
    let ghost start = out@;
    let mut p = i;
    while p < i2
        invariant
            i <= p <= i2,
            j <= j2,
            start.no_duplicates(),
            forall|p: usize, q: usize| i <= p < i2 && j <= q < j2 ==> !start.contains((p, Some(q))),
            out@.no_duplicates(),
            out@.len() >= start.len(),
            forall|k: int| 0 <= k < start.len() ==> #[trigger] out@[k] == start[k],
            forall|k: int| start.len() <= k < out@.len() ==> i <= (#[trigger] out@[k]).0 < p
                && (out@[k].1 matches Some(q) && j <= q < j2),
            forall|x: (usize, Option<usize>)| #[trigger] out@.contains(x) <==> (start.contains(x)
                || in_block(x, i as int, p as int, j as int, j2 as int)),
        decreases i2 - p,
    {
        let mut q = j;
        while q < j2
            invariant
                i <= p < i2,
                j <= q <= j2,
                start.no_duplicates(),
                forall|p: usize, q: usize| i <= p < i2 && j <= q < j2 ==> !start.contains((p, Some(q))),
                out@.no_duplicates(),
                out@.len() >= start.len(),
                forall|k: int| 0 <= k < start.len() ==> #[trigger] out@[k] == start[k],
                forall|k: int| start.len() <= k < out@.len() ==> i <= (#[trigger] out@[k]).0 <= p
                    && (out@[k].1 matches Some(r) && j <= r < j2) && ((out@[k]).0 == p ==> (out@[k].1 matches Some(r) && r < q)),
                forall|x: (usize, Option<usize>)| #[trigger] out@.contains(x) <==> (start.contains(x)
                    || in_block(x, i as int, p as int, j as int, j2 as int)
                    || in_block(x, p as int, p + 1, j as int, q as int)),
            decreases j2 - q,
        {
            let ghost before = out@;
            proof {
                if before.contains((p, Some(q))) {
                    let k = choose|k: int| 0 <= k < before.len() && before[k] == (p, Some(q));
                    if k < start.len() {
                        assert(start.contains((p, Some(q))));
                    }
                }
                lemma_push_no_dup(before, (p, Some(q)));
            }
            out.push((p, Some(q)));
            proof {
                assert forall|x: (usize, Option<usize>)| #[trigger] out@.contains(x) <==> (start.contains(x)
                    || in_block(x, i as int, p as int, j as int, j2 as int)
                    || in_block(x, p as int, p + 1, j as int, q + 1)) by {
                    lemma_push_contains(before, (p, Some(q)), x);
                }
                assert forall|k: int| 0 <= k < start.len() implies #[trigger] out@[k] == start[k] by {
                    assert(out@[k] == before[k]);
                }
                assert forall|k: int| start.len() <= k < out@.len() implies i <= (#[trigger] out@[k]).0 <= p
                    && (out@[k].1 matches Some(r) && j <= r < j2) && ((out@[k]).0 == p ==> (out@[k].1 matches Some(r) && r < q + 1)) by {
                    if k < before.len() {
                        assert(out@[k] == before[k]);
                    }
                }
            }
            q += 1;
        }
        p += 1;
    }
}

/// The last of a run of keys equivalent to `key`, starting at `start`: the first position
/// from `start` on whose key is larger than `key`, or the end.
fn run_end<T: DataType>(s: &Vec<MaybeNa<T>>, start: usize, key: &MaybeNa<T>) -> (r: usize)
    requires
        ascending(s@),
        start < s@.len(),
        value_eq(s@[start as int], *key),
    ensures
        start < r <= s@.len(),
        forall|p: int| start <= p < r ==> value_eq(#[trigger] s@[p], *key),
        forall|p: int| r <= p < s@.len() ==> !value_le(#[trigger] s@[p], *key),
{
    let len = s.len();
    let mut r = start + 1;
    while r < len && value_le_exec(&s[r], key)
        invariant
            ascending(s@),
            len == s@.len(),
            start < r <= s@.len(),
            value_eq(s@[start as int], *key),
            forall|p: int| start <= p < r ==> value_eq(#[trigger] s@[p], *key),
        decreases s@.len() - r,
    {
        proof {
            assert(value_le(s@[start as int], s@[r as int]));
            lemma_value_le_trans(*key, s@[start as int], s@[r as int]);
        }
        r += 1;
    }
    proof {
        assert forall|p: int| r <= p < s@.len() implies !value_le(#[trigger] s@[p], *key) by {
            if value_le(s@[p], *key) && p > r {
                assert(value_le(s@[r as int], s@[p]));
                lemma_value_le_trans(s@[r as int], s@[p], *key);
            }
        }
    }
    r
}

/// The equi-join of ascending left keys `ls` and right keys `rs`, by a merge scan: runs of
/// equivalent keys on both sides give every pair of their rows.
fn equi_join<T: DataType>(ls: &Vec<MaybeNa<T>>, rs: &Vec<MaybeNa<T>>, kind: JoinKind) -> (r: Vec<(usize, Option<usize>)>)
    requires
        ascending(ls@),
        ascending(rs@),
        !(kind is Cross),
    ensures
        join_result(kind, Predicate::Equal, ls@, rs@, r@),
{
    let n = ls.len();
    let m = rs.len();
    let outer = matches!(kind, JoinKind::Outer);
    let mut out: Vec<(usize, Option<usize>)> = Vec::new();
    let mut i: usize = 0;
    let mut j: usize = 0;
    while i < n
        invariant
            ascending(ls@),
            ascending(rs@),
            !(kind is Cross),
            outer == (kind is Outer),
            n == ls@.len(),
            m == rs@.len(),
            i <= n,
            j <= m,
            out@.no_duplicates(),
            forall|k: int| 0 <= k < out@.len() ==> (#[trigger] out@[k]).0 < i && (out@[k].1 matches Some(q) ==> q < j),
            forall|p: usize, q: usize| p < n && q < m ==> (#[trigger] out@.contains((p, Some(q))) <==> (p < i && q < j
                && value_eq(ls@[p as int], rs@[q as int]))),
            forall|p: usize| p < n ==> (#[trigger] out@.contains((p, None)) <==> (outer && p < i
                && forall|q: int| 0 <= q < m ==> !value_eq(ls@[p as int], rs@[q]))),
            forall|p: int, q: int| 0 <= p < i && j <= q < m ==> !value_eq(#[trigger] ls@[p], #[trigger] rs@[q]),
            forall|p: int, q: int| i <= p < n && 0 <= q < j ==> !value_eq(#[trigger] ls@[p], #[trigger] rs@[q]),
        decreases (n - i) + (m - j),
    {
        let ghost before = out@;
        if j < m && value_le_exec(&ls[i], &rs[j]) && value_le_exec(&rs[j], &ls[i]) {
            proof {
                lemma_value_le_total(ls@[i as int], ls@[i as int]);
            }
            let i2 = run_end(ls, i, &ls[i]);
            let j2 = run_end(rs, j, &ls[i]);
            emit_block(&mut out, i, i2, j, j2);
            proof {
                let key = ls@[i as int];
                assert forall|p: int, q: int| 0 <= p < i2 && j2 <= q < m implies !value_eq(#[trigger] ls@[p], #[trigger] rs@[q]) by {
                    if p >= i && value_eq(ls@[p], rs@[q]) {
                        lemma_value_le_trans(rs@[q], ls@[p], key);
                    }
                }
                assert forall|p: int, q: int| i2 <= p < n && 0 <= q < j2 implies !value_eq(#[trigger] ls@[p], #[trigger] rs@[q]) by {
                    if q >= j && value_eq(ls@[p], rs@[q]) {
                        lemma_value_le_trans(ls@[p], rs@[q], key);
                    }
                }
                assert forall|p: usize, q: usize| p < n && q < m implies (#[trigger] out@.contains((p, Some(q))) <==> (p < i2 && q < j2
                    && value_eq(ls@[p as int], rs@[q as int]))) by {
                    if i <= p < i2 && j <= q < j2 {
                        lemma_value_le_trans(ls@[p as int], key, rs@[q as int]);
                        lemma_value_le_trans(rs@[q as int], key, ls@[p as int]);
                    }
                }
                assert forall|p: usize| p < n implies (#[trigger] out@.contains((p, None)) <==> (outer && p < i2
                    && forall|q: int| 0 <= q < m ==> !value_eq(ls@[p as int], rs@[q]))) by {
                    if i <= p < i2 {
                        lemma_value_le_trans(ls@[p as int], key, rs@[j as int]);
                        lemma_value_le_trans(rs@[j as int], key, ls@[p as int]);
                        if out@.contains((p, None)) {
                            let k = choose|k: int| 0 <= k < out@.len() && out@[k] == (p, None::<usize>);
                        }
                    }
                }
            }
            i = i2;
            j = j2;
        } else if j < m && value_le_exec(&rs[j], &ls[i]) {
            proof {
                assert forall|p: int, q: int| i <= p < n && 0 <= q < j + 1 implies !value_eq(#[trigger] ls@[p], #[trigger] rs@[q]) by {
                    if q == j && value_eq(ls@[p], rs@[q]) {
                        if p > i {
                            assert(value_le(ls@[i as int], ls@[p]));
                            lemma_value_le_trans(ls@[i as int], ls@[p], rs@[q]);
                        }
                    }
                }
            }
            j += 1;
        } else {
            proof {
                assert forall|q: int| 0 <= q < m implies !value_eq(ls@[i as int], #[trigger] rs@[q]) by {
                    if q >= j && value_eq(ls@[i as int], rs@[q]) {
                        if q > j {
                            assert(value_le(rs@[j as int], rs@[q]));
                            lemma_value_le_trans(rs@[j as int], rs@[q], ls@[i as int]);
                        }
                        lemma_value_le_total(ls@[i as int], rs@[j as int]);
                    }
                }
            }
            if outer {
                proof {
                    if before.contains((i, None::<usize>)) {
                        let k = choose|k: int| 0 <= k < before.len() && before[k] == (i, None::<usize>);
                    }
                    lemma_push_no_dup(before, (i, None::<usize>));
                }
                out.push((i, None));
                proof {
                    assert forall|x: (usize, Option<usize>)| #[trigger] out@.contains(x) <==> (before.contains(x) || x == (i, None::<usize>)) by {
                        lemma_push_contains(before, (i, None::<usize>), x);
                    }
                }
            }
            i += 1;
        }
    }
    proof {
        assert forall|p: usize, q: usize| p < ls@.len() && q < rs@.len() implies (#[trigger] out@.contains((p, Some(q)))
            <==> rows_match(kind, Predicate::Equal, ls@, rs@, p as int, q as int)) by {
            if q >= j {
                assert(!value_eq(ls@[p as int], rs@[q as int]));
            }
        }
        assert forall|p: usize| p < ls@.len() implies (#[trigger] out@.contains((p, None)) <==> (kind is Outer && forall|q: int|
            0 <= q < rs@.len() ==> !rows_match(kind, Predicate::Equal, ls@, rs@, p as int, q))) by {
            if kind is Outer {
                if forall|q: int| 0 <= q < rs@.len() ==> !rows_match(kind, Predicate::Equal, ls@, rs@, p as int, q) {
                    assert forall|q: int| 0 <= q < rs@.len() implies !value_eq(ls@[p as int], rs@[q]) by {
                        assert(!rows_match(kind, Predicate::Equal, ls@, rs@, p as int, q));
                    }
                }
            }
        }
        assert forall|k: int| 0 <= k < out@.len() implies (#[trigger] out@[k]).0 < ls@.len() && (out@[k].1 matches Some(q) ==> q < rs@.len()) by {
        }
    }
    out
}

/// Whether `x` lies above `key`: strictly, or else at or above it.
pub open spec fn above<T: DataType>(strict: bool, key: MaybeNa<T>, x: MaybeNa<T>) -> bool {
    if strict {
        !value_le(x, key)
    } else {
        value_le(key, x)
    }
}

/// The first position of ascending `s` whose key lies above `key` (or the end), by binary
/// search.
fn first_above<T: DataType>(s: &Vec<MaybeNa<T>>, key: &MaybeNa<T>, strict: bool) -> (r: usize)
    requires
        ascending(s@),
    ensures
        r <= s@.len(),
        forall|q: int| 0 <= q < r ==> !above(strict, *key, #[trigger] s@[q]),
        forall|q: int| r <= q < s@.len() ==> above(strict, *key, #[trigger] s@[q]),
{
    let mut lo: usize = 0;
    let mut hi: usize = s.len();
    while lo < hi
        invariant
            ascending(s@),
            lo <= hi <= s@.len(),
            forall|q: int| 0 <= q < lo ==> !above(strict, *key, #[trigger] s@[q]),
            forall|q: int| hi <= q < s@.len() ==> above(strict, *key, #[trigger] s@[q]),
        decreases hi - lo,
    {
        let mid = lo + (hi - lo) / 2;
        let up = if strict {
            !value_le_exec(&s[mid], key)
        } else {
            value_le_exec(key, &s[mid])
        };
        if up {
            proof {
                assert forall|q: int| mid <= q < s@.len() implies above(strict, *key, #[trigger] s@[q]) by {
                    if q > mid {
                        assert(value_le(s@[mid as int], s@[q]));
                        if strict {
                            if value_le(s@[q], *key) {
                                lemma_value_le_trans(s@[mid as int], s@[q], *key);
                            }
                        } else {
                            lemma_value_le_trans(*key, s@[mid as int], s@[q]);
                        }
                    }
                }
            }
            hi = mid;
        } else {
            proof {
                assert forall|q: int| 0 <= q < mid + 1 implies !above(strict, *key, #[trigger] s@[q]) by {
                    if q < mid {
                        assert(value_le(s@[q], s@[mid as int]));
                        if strict {
                            if !value_le(s@[q], *key) {
                                lemma_value_le_total(s@[mid as int], *key);
                                if value_le(s@[mid as int], *key) {
                                    lemma_value_le_trans(s@[q], s@[mid as int], *key);
                                }
                            }
                        } else {
                            if value_le(*key, s@[q]) {
                                lemma_value_le_trans(*key, s@[q], s@[mid as int]);
                            }
                        }
                    }
                }
            }
            lo = mid + 1;
        }
    }
    lo
}

/// The join in which the right rows that match each left row form a range of the ascending
/// right keys `rs`: a cross join, or an order predicate. Each range is found by binary search.
fn range_join<T: DataType>(ls: &Vec<MaybeNa<T>>, rs: &Vec<MaybeNa<T>>, kind: JoinKind, pred: Predicate) -> (r: Vec<(usize, Option<usize>)>)
    requires
        ascending(rs@),
        kind is Cross || !(pred is Equal),
    ensures
        join_result(kind, pred, ls@, rs@, r@),
{
    let n = ls.len();
    let m = rs.len();
    let outer = matches!(kind, JoinKind::Outer);
    let cross = matches!(kind, JoinKind::Cross);
    let mut out: Vec<(usize, Option<usize>)> = Vec::new();
    let mut p: usize = 0;
    while p < n
        invariant
            ascending(rs@),
            kind is Cross || !(pred is Equal),
            outer == (kind is Outer),
            cross == (kind is Cross),
            n == ls@.len(),
            m == rs@.len(),
            p <= n,
            out@.no_duplicates(),
            forall|k: int| 0 <= k < out@.len() ==> (#[trigger] out@[k]).0 < p && (out@[k].1 matches Some(q) ==> q < m),
            forall|a: usize, q: usize| a < n && q < m ==> (#[trigger] out@.contains((a, Some(q))) <==> (a < p
                && rows_match(kind, pred, ls@, rs@, a as int, q as int))),
            forall|a: usize| a < n ==> (#[trigger] out@.contains((a, None)) <==> (outer && a < p
                && forall|q: int| 0 <= q < m ==> !rows_match(kind, pred, ls@, rs@, a as int, q))),
        decreases n - p,
    {
        let (lo, hi) = if cross {
            (0, m)
        } else {
            match pred {
                Predicate::LessThan => (first_above(rs, &ls[p], true), m),
                Predicate::LessThanEqual => (first_above(rs, &ls[p], false), m),
                Predicate::GreaterThan => (0, first_above(rs, &ls[p], false)),
                Predicate::GreaterThanEqual => (0, first_above(rs, &ls[p], true)),
                Predicate::Equal => (0, 0),
            }
        };
        proof {
            assert forall|q: int| 0 <= q < m implies (rows_match(kind, pred, ls@, rs@, p as int, q) <==> lo <= q < hi) by {
                let x = rs@[q];
                if !cross {
                    if pred is LessThan {
                        assert(above(true, ls@[p as int], x) == (q >= lo));
                    } else if pred is LessThanEqual {
                        assert(above(false, ls@[p as int], x) == (q >= lo));
                    } else if pred is GreaterThan {
                        assert(above(false, ls@[p as int], x) == (q >= hi));
                    } else if pred is GreaterThanEqual {
                        assert(above(true, ls@[p as int], x) == (q >= hi));
                    }
                }
            }
        }
        let ghost start = out@;
        emit_block(&mut out, p, p + 1, lo, hi);
        let ghost mid = out@;
        if lo >= hi && outer {
            proof {
                if mid.contains((p, None::<usize>)) {
                    let k = choose|k: int| 0 <= k < mid.len() && mid[k] == (p, None::<usize>);
                    if k < start.len() {
                        assert(mid[k] == start[k]);
                    }
                }
                lemma_push_no_dup(mid, (p, None::<usize>));
            }
            out.push((p, None));
            proof {
                assert forall|x: (usize, Option<usize>)| #[trigger] out@.contains(x) <==> (mid.contains(x) || x == (p, None::<usize>)) by {
                    lemma_push_contains(mid, (p, None::<usize>), x);
                }
            }
        }
        proof {
            assert forall|a: usize| a < n implies (#[trigger] out@.contains((a, None)) <==> (outer && a < p + 1
                && forall|q: int| 0 <= q < m ==> !rows_match(kind, pred, ls@, rs@, a as int, q))) by {
                if a == p && !(lo >= hi) {
                    assert(rows_match(kind, pred, ls@, rs@, a as int, lo as int));
                }
            }
        }
        p += 1;
    }
    out
}

/// The rows that a pair of sorted positions stands for.
pub open spec fn map_pair(x: (usize, Option<usize>), lo: Seq<usize>, ro: Seq<usize>) -> (usize, Option<usize>) {
    (
        lo[x.0 as int],
        match x.1 {
            Some(q) => Some(ro[q as int]),
            None => None,
        },
    )
}

/// The keys of `keys` in the order `order`.
fn keys_in_order<T: DataType>(keys: &Vec<MaybeNa<T>>, order: &Vec<usize>) -> (r: Vec<MaybeNa<T>>)
    requires
        is_sort_order(keys@, order@),
    ensures
        r@.len() == order@.len(),
        forall|p: int| 0 <= p < r@.len() ==> #[trigger] r@[p] == keys@[order@[p] as int],
        ascending(r@),
{
    let mut r: Vec<MaybeNa<T>> = Vec::new();
    let mut p: usize = 0;
    while p < order.len()
        invariant
            is_sort_order(keys@, order@),
            p <= order@.len(),
            r@.len() == p,
            forall|k: int| 0 <= k < p ==> #[trigger] r@[k] == keys@[order@[k] as int],
        decreases order@.len() - p,
    {
        r.push(keys[order[p]].as_ref().cloned());
        p += 1;
    }
    proof {
        assert forall|a: int, b: int| 0 <= a < b < r@.len() implies value_le(#[trigger] r@[a], #[trigger] r@[b]) by {
            assert(before(keys@, order@[a] as int, order@[b] as int));
        }
    }
    r
}

/// Row pairs from pairs of sorted positions.
fn map_pairs(out: &Vec<(usize, Option<usize>)>, lo: &Vec<usize>, ro: &Vec<usize>) -> (r: Vec<(usize, Option<usize>)>)
    requires
        forall|k: int| 0 <= k < out@.len() ==> (#[trigger] out@[k]).0 < lo@.len() && (out@[k].1 matches Some(q) ==> q < ro@.len()),
    ensures
        r@.len() == out@.len(),
        forall|k: int| 0 <= k < r@.len() ==> #[trigger] r@[k] == map_pair(out@[k], lo@, ro@),
{
    let mut r: Vec<(usize, Option<usize>)> = Vec::new();
    let mut k: usize = 0;
    while k < out.len()
        invariant
            forall|k: int| 0 <= k < out@.len() ==> (#[trigger] out@[k]).0 < lo@.len() && (out@[k].1 matches Some(q) ==> q < ro@.len()),
            k <= out@.len(),
            r@.len() == k,
            forall|j: int| 0 <= j < k ==> #[trigger] r@[j] == map_pair(out@[j], lo@, ro@),
        decreases out@.len() - k,
    {
        let x = out[k];
        let right = match x.1 {
            Some(q) => Some(ro[q]),
            None => None,
        };
        r.push((lo[x.0], right));
        k += 1;
    }
    r
}

/// A sort order lists distinct rows.
pub proof fn lemma_sort_order_distinct<T: DataType>(keys: Seq<MaybeNa<T>>, order: Seq<usize>, a: int, b: int)
    requires
        is_sort_order(keys, order),
        0 <= a < order.len(),
        0 <= b < order.len(),
        a != b,
    ensures
        order[a] != order[b],
{
    if a < b {
        assert(before(keys, order[a] as int, order[b] as int));
    } else {
        assert(before(keys, order[b] as int, order[a] as int));
    }
}

/// A sort order lists every row.
pub proof fn lemma_sort_order_has<T: DataType>(keys: Seq<MaybeNa<T>>, order: Seq<usize>, x: usize) -> (p: int)
    requires
        is_sort_order(keys, order),
        x < keys.len(),
    ensures
        0 <= p < order.len(),
        order[p] == x,
{
    assert(order.contains(x));
    choose|p: int| 0 <= p < order.len() && order[p] == x
}

/// Mapping the join of the sorted keys back to rows gives the join of the keys.
proof fn lemma_join_rows<T: DataType>(
    kind: JoinKind,
    pred: Predicate,
    lkeys: Seq<MaybeNa<T>>,
    rkeys: Seq<MaybeNa<T>>,
    lo: Seq<usize>,
    ro: Seq<usize>,
    ls: Seq<MaybeNa<T>>,
    rs: Seq<MaybeNa<T>>,
    out: Seq<(usize, Option<usize>)>,
    rows: Seq<(usize, Option<usize>)>,
)
    requires
        lkeys.len() <= usize::MAX,
        rkeys.len() <= usize::MAX,
        is_sort_order(lkeys, lo),
        is_sort_order(rkeys, ro),
        ls.len() == lo.len(),
        forall|p: int| 0 <= p < ls.len() ==> #[trigger] ls[p] == lkeys[lo[p] as int],
        rs.len() == ro.len(),
        forall|q: int| 0 <= q < rs.len() ==> #[trigger] rs[q] == rkeys[ro[q] as int],
        join_result(kind, pred, ls, rs, out),
        rows.len() == out.len(),
        forall|k: int| 0 <= k < rows.len() ==> #[trigger] rows[k] == map_pair(out[k], lo, ro),
    ensures
        join_result(kind, pred, lkeys, rkeys, rows),
{
    assert forall|a: int, b: int| 0 <= a < b < rows.len() implies rows[a] != rows[b] by {
        assert(out[a] != out[b]);
        let (x, y) = (out[a], out[b]);
        if x.0 != y.0 {
            lemma_sort_order_distinct(lkeys, lo, x.0 as int, y.0 as int);
        } else if let (Some(qa), Some(qb)) = (x.1, y.1) {
            lemma_sort_order_distinct(rkeys, ro, qa as int, qb as int);
        }
    }
    assert forall|k: int| 0 <= k < rows.len() implies (#[trigger] rows[k]).0 < lkeys.len() && (rows[k].1 matches Some(q) ==> q < rkeys.len()) by {
        assert(out[k].0 < ls.len());
        assert(lo.contains(lo[out[k].0 as int]));
        if let Some(q) = out[k].1 {
            assert(ro.contains(ro[q as int]));
        }
    }
    assert forall|l: usize, r: usize| l < lkeys.len() && r < rkeys.len() implies (#[trigger] rows.contains((l, Some(r)))
        <==> rows_match(kind, pred, lkeys, rkeys, l as int, r as int)) by {
        let p = lemma_sort_order_has(lkeys, lo, l);
        let q = lemma_sort_order_has(rkeys, ro, r);
        if rows.contains((l, Some(r))) {
            let k = choose|k: int| 0 <= k < rows.len() && rows[k] == (l, Some(r));
            let x = out[k];
            assert(x.0 < ls.len());
            let xq = x.1->Some_0;
            assert(x.1 is Some);
            if x.0 != p as usize {
                lemma_sort_order_distinct(lkeys, lo, x.0 as int, p);
            }
            if xq != q as usize {
                lemma_sort_order_distinct(rkeys, ro, xq as int, q);
            }
            assert(out.contains((p as usize, Some(q as usize))));
        }
        if rows_match(kind, pred, lkeys, rkeys, l as int, r as int) {
            assert(rows_match(kind, pred, ls, rs, p, q));
            assert(out.contains((p as usize, Some(q as usize))));
            let k = choose|k: int| 0 <= k < out.len() && out[k] == (p as usize, Some(q as usize));
            assert(rows[k] == (l, Some(r)));
        }
    }
    assert forall|l: usize| l < lkeys.len() implies (#[trigger] rows.contains((l, None)) <==> (kind is Outer && forall|r: int|
        0 <= r < rkeys.len() ==> !rows_match(kind, pred, lkeys, rkeys, l as int, r))) by {
        let p = lemma_sort_order_has(lkeys, lo, l);
        let none_l = forall|r: int| 0 <= r < rkeys.len() ==> !rows_match(kind, pred, lkeys, rkeys, l as int, r);
        let none_p = forall|q: int| 0 <= q < rs.len() ==> !rows_match(kind, pred, ls, rs, p, q);
        if none_l {
            assert forall|q: int| 0 <= q < rs.len() implies !rows_match(kind, pred, ls, rs, p, q) by {
                assert(ro.contains(ro[q]));
                assert(!rows_match(kind, pred, lkeys, rkeys, l as int, ro[q] as int));
            }
        }
        if none_p {
            assert forall|r: int| 0 <= r < rkeys.len() implies !rows_match(kind, pred, lkeys, rkeys, l as int, r) by {
                let q = lemma_sort_order_has(rkeys, ro, r as usize);
                assert(!rows_match(kind, pred, ls, rs, p, q));
            }
        }
        if rows.contains((l, None)) {
            let k = choose|k: int| 0 <= k < rows.len() && rows[k] == (l, None::<usize>);
            let x = out[k];
            if x.0 != p as usize {
                lemma_sort_order_distinct(lkeys, lo, x.0 as int, p);
            }
            assert(out.contains((p as usize, None::<usize>)));
        }
        if kind is Outer && none_l {
            assert(out.contains((p as usize, None::<usize>)));
            let k = choose|k: int| 0 <= k < out.len() && out[k] == (p as usize, None::<usize>);
            assert(rows[k] == (l, None::<usize>));
        }
    }
}

/// The row pairs of the join of left keys `lkeys` and right keys `rkeys`: both sides are
/// sorted (stably, ascending); an equi-join then merges the two orders, and a cross join or an
/// order predicate takes for each left row a range of the sorted right side.
pub fn join_rows<T: DataType>(lkeys: &Vec<MaybeNa<T>>, rkeys: &Vec<MaybeNa<T>>, kind: JoinKind, pred: Predicate) -> (r: Vec<(usize, Option<usize>)>)
    ensures
        join_result(kind, pred, lkeys@, rkeys@, r@),
{
    let nl = lkeys.len();
    let nr = rkeys.len();
    let lo = sort_order(lkeys);
    let ro = sort_order(rkeys);
    let ls = keys_in_order(lkeys, &lo);
    let rs = keys_in_order(rkeys, &ro);
    let out = if matches!(pred, Predicate::Equal) && !matches!(kind, JoinKind::Cross) {
        equi_join(&ls, &rs, kind)
    } else {
        range_join(&ls, &rs, kind, pred)
    };
    let rows = map_pairs(&out, &lo, &ro);
    proof {
        lemma_join_rows(kind, pred, lkeys@, rkeys@, lo@, ro@, ls@, rs@, out@, rows@);
    }
    rows
}

/// A join specification: its kind, its predicate, and the key field of each side.
#[derive(Debug, Clone)]
pub struct Join {
    /// The kind of join.
    pub kind: JoinKind,
    /// The predicate that the keys must satisfy.
    pub predicate: Predicate,
    /// The key field of the left view.
    pub left_field: FieldIdent,
    /// The key field of the right view.
    pub right_field: FieldIdent,
}

impl Join {
    /// A join of the given kind and predicate on the given key fields.
    pub fn new(kind: JoinKind, predicate: Predicate, left_field: FieldIdent, right_field: FieldIdent) -> (r: Join)
        ensures
            r == (Join { kind, predicate, left_field, right_field }),
    {
        Join { kind, predicate, left_field, right_field }
    }

    /// A join on equivalent keys.
    pub fn equal(kind: JoinKind, left_field: FieldIdent, right_field: FieldIdent) -> (r: Join)
        ensures
            r == (Join { kind, predicate: Predicate::Equal, left_field, right_field }),
    {
        Join::new(kind, Predicate::Equal, left_field, right_field)
    }

    /// A join on left keys smaller than right keys.
    pub fn less_than(kind: JoinKind, left_field: FieldIdent, right_field: FieldIdent) -> (r: Join)
        ensures
            r == (Join { kind, predicate: Predicate::LessThan, left_field, right_field }),
    {
        Join::new(kind, Predicate::LessThan, left_field, right_field)
    }

    /// A join on left keys smaller than or equivalent to right keys.
    pub fn less_than_equal(kind: JoinKind, left_field: FieldIdent, right_field: FieldIdent) -> (r: Join)
        ensures
            r == (Join { kind, predicate: Predicate::LessThanEqual, left_field, right_field }),
    {
        Join::new(kind, Predicate::LessThanEqual, left_field, right_field)
    }

    /// A join on left keys larger than right keys.
    pub fn greater_than(kind: JoinKind, left_field: FieldIdent, right_field: FieldIdent) -> (r: Join)
        ensures
            r == (Join { kind, predicate: Predicate::GreaterThan, left_field, right_field }),
    {
        Join::new(kind, Predicate::GreaterThan, left_field, right_field)
    }

    /// A join on left keys larger than or equivalent to right keys.
    pub fn greater_than_equal(kind: JoinKind, left_field: FieldIdent, right_field: FieldIdent) -> (r: Join)
        ensures
            r == (Join { kind, predicate: Predicate::GreaterThanEqual, left_field, right_field }),
    {
        Join::new(kind, Predicate::GreaterThanEqual, left_field, right_field)
    }
}

/// `pairs` is the join of the key columns of `left` and `right` that `join` names, of the kind
/// that the left key has.
pub open spec fn keys_joined(left: DataView, right: DataView, join: Join, pairs: Seq<(usize, Option<usize>)>) -> bool {
    let (lf, rf) = (join.left_field@, join.right_field@);
    match left.kind_of(lf) {
        Some(FieldType::Unsigned) => left.column::<u64>(lf) matches Some(l) && right.column::<u64>(rf) matches Some(r)
            && join_result(join.kind, join.predicate, l, r, pairs),
        Some(FieldType::Signed) => left.column::<i64>(lf) matches Some(l) && right.column::<i64>(rf) matches Some(r)
            && join_result(join.kind, join.predicate, l, r, pairs),
        Some(FieldType::Text) => left.column::<String>(lf) matches Some(l) && right.column::<String>(rf) matches Some(r)
            && join_result(join.kind, join.predicate, l, r, pairs),
        Some(FieldType::Boolean) => left.column::<bool>(lf) matches Some(l) && right.column::<bool>(rf) matches Some(r)
            && join_result(join.kind, join.predicate, l, r, pairs),
        Some(FieldType::Float) => left.column::<F64>(lf) matches Some(l) && right.column::<F64>(rf) matches Some(r)
            && join_result(join.kind, join.predicate, l, r, pairs),
        None => false,
    }
}

/// The failure of a join whose key fields are missing or of different kinds, if it fails so.
pub open spec fn key_error(left: DataView, right: DataView, join: Join) -> Option<AgnesError> {
    if left.lookup(join.left_field@).is_none() {
        Some(AgnesError::FieldNotFound(join.left_field))
    } else if right.lookup(join.right_field@).is_none() {
        Some(AgnesError::FieldNotFound(join.right_field))
    } else if left.kind_of(join.left_field@) != right.kind_of(join.right_field@) {
        Some(AgnesError::IncompatibleTypes {
            expected: left.kind_of(join.left_field@)->Some_0,
            actual: right.kind_of(join.right_field@)->Some_0,
        })
    } else {
        None
    }
}

/// The row pairs that `join` gives on `left` and `right`. Fails with `FieldNotFound` for a
/// missing key field and with `IncompatibleTypes` for key fields of different kinds.
pub fn join_pairs(left: &DataView, right: &DataView, join: &Join) -> (r: Result<Vec<(usize, Option<usize>)>, AgnesError>)
    requires
        left.wf(),
        right.wf(),
    ensures
        match key_error(*left, *right, *join) {
            Some(e) => r == Err::<Vec<(usize, Option<usize>)>, AgnesError>(e),
            None => r matches Ok(pairs) && keys_joined(*left, *right, *join, pairs@),
        },
{
    proof {
        left.lemma_kind_of(join.left_field@);
        right.lemma_kind_of(join.right_field@);
    }
    let lkind = match left.get_field_type(&join.left_field) {
        Some(k) => k,
        None => { return Err(AgnesError::FieldNotFound(join.left_field.duplicate())); },
    };
    let rkind = match right.get_field_type(&join.right_field) {
        Some(k) => k,
        None => { return Err(AgnesError::FieldNotFound(join.right_field.duplicate())); },
    };
    if lkind != rkind {
        return Err(AgnesError::IncompatibleTypes { expected: lkind, actual: rkind });
    }
    match lkind {
        FieldType::Unsigned => typed_join_pairs::<u64>(left, right, join),
        FieldType::Signed => typed_join_pairs::<i64>(left, right, join),
        FieldType::Text => typed_join_pairs::<String>(left, right, join),
        FieldType::Boolean => typed_join_pairs::<bool>(left, right, join),
        FieldType::Float => typed_join_pairs::<F64>(left, right, join),
    }
}

/// The row pairs of `join` on key fields of the kind of `T`.
fn typed_join_pairs<T: DataType>(left: &DataView, right: &DataView, join: &Join) -> (r: Result<Vec<(usize, Option<usize>)>, AgnesError>)
    requires
        left.wf(),
        right.wf(),
        left.kind_of(join.left_field@) == Some(T::spec_kind()),
        right.kind_of(join.right_field@) == Some(T::spec_kind()),
    ensures
        r matches Ok(pairs) && left.column::<T>(join.left_field@) matches Some(l) && right.column::<T>(join.right_field@) matches Some(rr)
            && join_result(join.kind, join.predicate, l, rr, pairs@),
{
    proof {
        left.lemma_column_of_kind::<T>(join.left_field@);
        right.lemma_column_of_kind::<T>(join.right_field@);
    }
    let lkeys = match left.field::<T>(&join.left_field) {
        Ok(v) => v,
        Err(_) => { proof { assert(false); } return Err(AgnesError::FieldNotFound(join.left_field.duplicate())); },
    };
    let rkeys = match right.field::<T>(&join.right_field) {
        Ok(v) => v,
        Err(_) => { proof { assert(false); } return Err(AgnesError::FieldNotFound(join.right_field.duplicate())); },
    };
    Ok(join_rows(&lkeys, &rkeys, join.kind, join.predicate))
}

/// The values of `vals` at `rows`, missing where a row is `None`.
pub open spec fn regather<T>(vals: Seq<MaybeNa<T>>, rows: Seq<Option<usize>>) -> Seq<MaybeNa<T>> {
    rows.map_values(|r: Option<usize>| match r {
        Some(i) => vals[i as int],
        None => MaybeNa::Na,
    })
}

/// `out` holds the values of the field `id` of `src` at `rows`, in a column of its kind.
pub open spec fn copied(out: FieldData, src: DataView, id: IdentView, rows: Seq<Option<usize>>) -> bool {
    match out {
        FieldData::Unsigned(c) => src.column::<u64>(id) matches Some(v) && c@ == regather(v, rows),
        FieldData::Signed(c) => src.column::<i64>(id) matches Some(v) && c@ == regather(v, rows),
        FieldData::Text(c) => src.column::<String>(id) matches Some(v) && c@ == regather(v, rows),
        FieldData::Boolean(c) => src.column::<bool>(id) matches Some(v) && c@ == regather(v, rows),
        FieldData::Float(c) => src.column::<F64>(id) matches Some(v) && c@ == regather(v, rows),
    }
}

/// A column of the values of `vals` at `rows`.
fn regather_exec<T: DataType>(vals: &Vec<MaybeNa<T>>, rows: &Vec<Option<usize>>) -> (r: MaskedData<T>)
    requires
        forall|k: int| 0 <= k < rows@.len() ==> (#[trigger] rows@[k] matches Some(i) ==> i < vals@.len()),
    ensures
        r@ == regather(vals@, rows@),
{
    let mut r = MaskedData::new();
    let mut k: usize = 0;
    while k < rows.len()
        invariant
            forall|k: int| 0 <= k < rows@.len() ==> (#[trigger] rows@[k] matches Some(i) ==> i < vals@.len()),
            k <= rows@.len(),
            r@ == regather(vals@, rows@.subrange(0, k as int)),
        decreases rows@.len() - k,
    {
        let v = match rows[k] {
            Some(i) => vals[i].as_ref().cloned(),
            None => MaybeNa::Na,
        };
        r.push(v);
        k += 1;
        assert(r@ =~= regather(vals@, rows@.subrange(0, k as int)));
    }
    assert(rows@.subrange(0, k as int) =~= rows@);
    r
}

/// The values of the field `id` of `src` at `rows`, as a new column.
fn copy_field(src: &DataView, id: &FieldIdent, rows: &Vec<Option<usize>>) -> (r: FieldData)
    requires
        src.wf(),
        src.lookup(id@).is_some(),
        forall|k: int| 0 <= k < rows@.len() ==> (#[trigger] rows@[k] matches Some(i) ==> i < src.spec_nrows()),
    ensures
        copied(r, *src, id@, rows@),
        r.spec_len() == rows@.len(),
{
    proof {
        src.lemma_kind_of(id@);
    }
    match src.get_field_type(id) {
        Some(FieldType::Unsigned) => FieldData::Unsigned(copy_typed::<u64>(src, id, rows)),
        Some(FieldType::Signed) => FieldData::Signed(copy_typed::<i64>(src, id, rows)),
        Some(FieldType::Text) => FieldData::Text(copy_typed::<String>(src, id, rows)),
        Some(FieldType::Boolean) => FieldData::Boolean(copy_typed::<bool>(src, id, rows)),
        Some(FieldType::Float) => FieldData::Float(copy_typed::<F64>(src, id, rows)),
        None => { proof { assert(false); } FieldData::Boolean(MaskedData::new()) },
    }
}

/// The values of the field `id` of `src`, of the kind of `T`, at `rows`.
fn copy_typed<T: DataType>(src: &DataView, id: &FieldIdent, rows: &Vec<Option<usize>>) -> (r: MaskedData<T>)
    requires
        src.wf(),
        src.kind_of(id@) == Some(T::spec_kind()),
        forall|k: int| 0 <= k < rows@.len() ==> (#[trigger] rows@[k] matches Some(i) ==> i < src.spec_nrows()),
    ensures
        src.column::<T>(id@) matches Some(v) && r@ == regather(v, rows@),
{
    proof {
        src.lemma_column_of_kind::<T>(id@);
    }
    match src.field::<T>(id) {
        Ok(vals) => regather_exec(&vals, rows),
        Err(_) => { proof { assert(false); } MaskedData::new() },
    }
}

/// The right entries that a join keeps: all but the right key field when it shares the left
/// key field's identifier (that column would repeat the left key).
pub open spec fn kept_right(entries: Seq<(FieldIdent, ViewField)>, join: Join) -> Seq<(FieldIdent, ViewField)>
    decreases entries.len(),
{
    if entries.len() == 0 {
        Seq::empty()
    } else {
        let prev = kept_right(entries.drop_last(), join);
        if entries.last().0@ == join.right_field@ && join.right_field@ == join.left_field@ {
            prev
        } else {
            prev.push(entries.last())
        }
    }
}

/// `ds` holds the join output: the fields of `left`, then the kept fields of `right`, each
/// holding its source's values at the left, respectively right, rows of `pairs`.
pub open spec fn joined_store(left: DataView, right: DataView, join: Join, pairs: Seq<(usize, Option<usize>)>, ds: DataStore) -> bool {
    let lrows = pairs.map_values(|x: (usize, Option<usize>)| Some(x.0));
    let rrows = pairs.map_values(|x: (usize, Option<usize>)| x.1);
    let kept = kept_right(right.spec_fields(), join);
    let na = left.spec_fields().len();
    &&& ds.wf()
    &&& ds.spec_fields().len() == na + kept.len()
    &&& forall|i: int| 0 <= i < na ==> #[trigger] ds.spec_fields()[i].0 == left.spec_fields()[i].0
        && copied(ds.spec_fields()[i].1, left, left.spec_fields()[i].0@, lrows)
    &&& forall|j: int| 0 <= j < kept.len() ==> #[trigger] ds.spec_fields()[na + j].0 == kept[j].0
        && copied(ds.spec_fields()[na + j].1, right, kept[j].0@, rrows)
}

/// The kept right entries are entries of `entries`, with unique keys when those are.
pub proof fn lemma_kept_right(entries: Seq<(FieldIdent, ViewField)>, join: Join)
    ensures
        kept_right(entries, join).len() <= entries.len(),
        forall|k: int| 0 <= k < kept_right(entries, join).len() ==> exists|i: int| 0 <= i < entries.len()
            && #[trigger] kept_right(entries, join)[k] == entries[i],
        unique_keys(entries) ==> unique_keys(kept_right(entries, join)),
    decreases entries.len(),
{
    if entries.len() > 0 {
        let prev = entries.drop_last();
        lemma_kept_right(prev, join);
        let kept = kept_right(entries, join);
        let kp = kept_right(prev, join);
        assert forall|k: int| 0 <= k < kept.len() implies exists|i: int| 0 <= i < entries.len() && #[trigger] kept[k] == entries[i] by {
            if k < kp.len() {
                let i = choose|i: int| 0 <= i < prev.len() && kp[k] == prev[i];
                assert(kept[k] == entries[i]);
            } else {
                assert(kept[k] == entries[entries.len() - 1]);
            }
        }
        if unique_keys(entries) {
            assert(unique_keys(prev));
            assert forall|a: int, b: int| 0 <= a < b < kept.len() implies #[trigger] kept[a].0@ != #[trigger] kept[b].0@ by {
                if b < kp.len() {
                    assert(kept[a] == kp[a] && kept[b] == kp[b]);
                } else {
                    assert(kept[a] == kp[a]);
                    let i = choose|i: int| 0 <= i < prev.len() && kp[a] == prev[i];
                    assert(entries[i] == prev[i]);
                    assert(kept[b] == entries[entries.len() - 1]);
                }
            }
        }
    }
}

/// The row pairs of a join lie within the rows of the two views.
pub proof fn lemma_pairs_in_range(left: DataView, right: DataView, join: Join, pairs: Seq<(usize, Option<usize>)>)
    requires
        left.wf(),
        right.wf(),
        keys_joined(left, right, join, pairs),
    ensures
        forall|k: int| 0 <= k < pairs.len() ==> (#[trigger] pairs[k]).0 < left.spec_nrows()
            && (pairs[k].1 matches Some(q) ==> q < right.spec_nrows()),
{
    let (lf, rf) = (join.left_field@, join.right_field@);
    match left.kind_of(lf) {
        Some(FieldType::Unsigned) => {
            left.lemma_column_of_kind::<u64>(lf);
            right.lemma_kind_of(rf);
            if right.kind_of(rf) == Some(FieldType::Unsigned) { right.lemma_column_of_kind::<u64>(rf); } else {
                right.lemma_no_column_of_other_kind::<u64>(rf);
            }
        },
        Some(FieldType::Signed) => {
            left.lemma_column_of_kind::<i64>(lf);
            right.lemma_kind_of(rf);
            if right.kind_of(rf) == Some(FieldType::Signed) { right.lemma_column_of_kind::<i64>(rf); } else {
                right.lemma_no_column_of_other_kind::<i64>(rf);
            }
        },
        Some(FieldType::Text) => {
            left.lemma_column_of_kind::<String>(lf);
            right.lemma_kind_of(rf);
            if right.kind_of(rf) == Some(FieldType::Text) { right.lemma_column_of_kind::<String>(rf); } else {
                right.lemma_no_column_of_other_kind::<String>(rf);
            }
        },
        Some(FieldType::Boolean) => {
            left.lemma_column_of_kind::<bool>(lf);
            right.lemma_kind_of(rf);
            if right.kind_of(rf) == Some(FieldType::Boolean) { right.lemma_column_of_kind::<bool>(rf); } else {
                right.lemma_no_column_of_other_kind::<bool>(rf);
            }
        },
        Some(FieldType::Float) => {
            left.lemma_column_of_kind::<F64>(lf);
            right.lemma_kind_of(rf);
            if right.kind_of(rf) == Some(FieldType::Float) { right.lemma_column_of_kind::<F64>(rf); } else {
                right.lemma_no_column_of_other_kind::<F64>(rf);
            }
        },
        None => {},
    }
}

/// Joins `left` and `right` as `join` says into a new store: the fields of `left`, then those
/// of `right` (but the right key when it shares the left key's identifier), with the values of
/// each pair of joined rows. Fails with `FieldNotFound` for a missing key field, with
/// `IncompatibleTypes` for key fields of different kinds, and with `FieldCollision` naming the
/// right fields that `left` has too.
pub fn sort_merge_join(left: &DataView, right: &DataView, join: &Join) -> (r: Result<DataStore, AgnesError>)
    requires
        left.wf(),
        right.wf(),
    ensures
        key_error(*left, *right, *join) matches Some(e) ==> r == Err::<DataStore, AgnesError>(e),
        r is Ok <==> (key_error(*left, *right, *join).is_none()
            && DataView::colliding(left.spec_fields(), kept_right(right.spec_fields(), *join)).len() == 0),
        key_error(*left, *right, *join).is_none()
            && DataView::colliding(left.spec_fields(), kept_right(right.spec_fields(), *join)).len() != 0
            ==> (r matches Err(AgnesError::FieldCollision(v)) && v@.map_values(|f: FieldIdent| f@)
            == DataView::colliding(left.spec_fields(), kept_right(right.spec_fields(), *join))),
        r matches Ok(ds) ==> exists|pairs: Seq<(usize, Option<usize>)>| keys_joined(*left, *right, *join, pairs)
            && joined_store(*left, *right, *join, pairs, ds),
{
    let pairs = join_pairs(left, right, join)?;
    let ghost kept = kept_right(right.spec_fields(), *join);
    proof {
        lemma_kept_right(right.spec_fields(), *join);
        lemma_pairs_in_range(*left, *right, *join, pairs@);
    }
    // the right fields that the output keeps
    let rnames = right.fieldnames();
    let drop_key = join.right_field.same_as(&join.left_field);
    let mut kept_ids: Vec<FieldIdent> = Vec::new();
    let mut j: usize = 0;
    while j < rnames.len()
        invariant
            rnames@.len() == right.spec_fields().len(),
            forall|i: int| 0 <= i < rnames@.len() ==> #[trigger] rnames@[i] == right.spec_fields()[i].0,
            drop_key == (join.right_field@ == join.left_field@),
            j <= rnames@.len(),
            kept_ids@ == kept_right(right.spec_fields().subrange(0, j as int), *join).map_values(|e: (FieldIdent, ViewField)| e.0),
        decreases rnames@.len() - j,
    {
        proof {
            assert(right.spec_fields().subrange(0, j + 1).drop_last() =~= right.spec_fields().subrange(0, j as int));
        }
        let ghost before = kept_ids@;
        if !(drop_key && rnames[j].same_as(&join.right_field)) {
            kept_ids.push(rnames[j].duplicate());
        }
        j += 1;
        assert(kept_ids@ =~= kept_right(right.spec_fields().subrange(0, j as int), *join).map_values(|e: (FieldIdent, ViewField)| e.0));
    }
    assert(right.spec_fields().subrange(0, j as int) =~= right.spec_fields());
    // kept right fields that the left view has too
    let mut coll: Vec<FieldIdent> = Vec::new();
    let mut k: usize = 0;
    while k < kept_ids.len()
        invariant
            left.wf(),
            kept_ids@ == kept.map_values(|e: (FieldIdent, ViewField)| e.0),
            k <= kept_ids@.len(),
            coll@.map_values(|f: FieldIdent| f@) == DataView::colliding(left.spec_fields(), kept.subrange(0, k as int)),
            coll@.len() == 0 ==> forall|x: int| 0 <= x < k ==> left.lookup(#[trigger] kept[x].0@).is_none(),
        decreases kept_ids@.len() - k,
    {
        proof {
            assert(kept.subrange(0, k + 1).drop_last() =~= kept.subrange(0, k as int));
            assert(kept_ids@[k as int] == kept[k as int].0);
        }
        if left.has_field(&kept_ids[k]) {
            let ghost before = coll@;
            coll.push(kept_ids[k].duplicate());
            assert(coll@.map_values(|f: FieldIdent| f@) =~= before.map_values(|f: FieldIdent| f@).push(kept_ids@[k as int]@));
        }
        k += 1;
    }
    assert(kept.subrange(0, k as int) =~= kept);
    if coll.len() != 0 {
        return Err(AgnesError::FieldCollision(coll));
    }
    // the output columns
    let mut lrows: Vec<Option<usize>> = Vec::new();
    let mut rrows: Vec<Option<usize>> = Vec::new();
    let mut p: usize = 0;
    while p < pairs.len()
        invariant
            p <= pairs@.len(),
            lrows@ == pairs@.subrange(0, p as int).map_values(|x: (usize, Option<usize>)| Some(x.0)),
            rrows@ == pairs@.subrange(0, p as int).map_values(|x: (usize, Option<usize>)| x.1),
        decreases pairs@.len() - p,
    {
        lrows.push(Some(pairs[p].0));
        rrows.push(pairs[p].1);
        p += 1;
        assert(lrows@ =~= pairs@.subrange(0, p as int).map_values(|x: (usize, Option<usize>)| Some(x.0)));
        assert(rrows@ =~= pairs@.subrange(0, p as int).map_values(|x: (usize, Option<usize>)| x.1));
    }
    assert(pairs@.subrange(0, p as int) =~= pairs@);
    let lnames = left.fieldnames();
    let na = lnames.len();
    let mut ds = DataStore::empty();
    let mut i: usize = 0;
    while i < na
        invariant
            left.wf(),
            right.wf(),
            na == left.spec_fields().len(),
            lnames@.len() == na,
            forall|x: int| 0 <= x < na ==> #[trigger] lnames@[x] == left.spec_fields()[x].0,
            forall|k: int| 0 <= k < pairs@.len() ==> (#[trigger] pairs@[k]).0 < left.spec_nrows()
                && (pairs@[k].1 matches Some(q) ==> q < right.spec_nrows()),
            lrows@ == pairs@.map_values(|x: (usize, Option<usize>)| Some(x.0)),
            i <= na,
            ds.wf(),
            ds.spec_fields().len() == i,
            i > 0 ==> ds.spec_nrows() == pairs@.len(),
            forall|x: int| 0 <= x < i ==> #[trigger] ds.spec_fields()[x].0 == left.spec_fields()[x].0
                && copied(ds.spec_fields()[x].1, *left, left.spec_fields()[x].0@, lrows@),
        decreases na - i,
    {
        proof {
            assert(left.entry_ok(left.spec_fields()[i as int]));
            crate::view::lemma_entry_pos(left.spec_fields(), i as int);
            assert forall|k: int| 0 <= k < lrows@.len() implies (#[trigger] lrows@[k] matches Some(r) ==> r < left.spec_nrows()) by {
                assert(lrows@[k] == Some(pairs@[k].0));
            }
        }
        let data = copy_field(left, &lnames[i], &lrows);
        let ghost before = ds.spec_fields();
        proof {
            assert forall|x: int| 0 <= x < before.len() implies #[trigger] before[x].0@ != lnames@[i as int]@ by {
                assert(before[x].0 == left.spec_fields()[x].0);
            }
        }
        match ds.add_field(lnames[i].duplicate(), data) {
            Ok(()) => {},
            Err(_) => { proof { assert(false); } },
        }
        i += 1;
    }
    let nk = kept_ids.len();
    let mut j: usize = 0;
    while j < nk
        invariant
            left.wf(),
            right.wf(),
            na == left.spec_fields().len(),
            nk == kept.len(),
            kept == kept_right(right.spec_fields(), *join),
            kept_ids@ == kept.map_values(|e: (FieldIdent, ViewField)| e.0),
            unique_keys(kept),
            forall|k: int| 0 <= k < kept.len() ==> exists|i: int| 0 <= i < right.spec_fields().len()
                && #[trigger] kept[k] == right.spec_fields()[i],
            forall|x: int| 0 <= x < kept.len() ==> left.lookup(#[trigger] kept[x].0@).is_none(),
            forall|k: int| 0 <= k < pairs@.len() ==> (#[trigger] pairs@[k]).0 < left.spec_nrows()
                && (pairs@[k].1 matches Some(q) ==> q < right.spec_nrows()),
            lrows@ == pairs@.map_values(|x: (usize, Option<usize>)| Some(x.0)),
            rrows@ == pairs@.map_values(|x: (usize, Option<usize>)| x.1),
            j <= nk,
            ds.wf(),
            ds.spec_fields().len() == na + j,
            na + j > 0 ==> ds.spec_nrows() == pairs@.len(),
            forall|x: int| 0 <= x < na ==> #[trigger] ds.spec_fields()[x].0 == left.spec_fields()[x].0
                && copied(ds.spec_fields()[x].1, *left, left.spec_fields()[x].0@, lrows@),
            forall|y: int| 0 <= y < j ==> #[trigger] ds.spec_fields()[na + y].0 == kept[y].0
                && copied(ds.spec_fields()[na + y].1, *right, kept[y].0@, rrows@),
        decreases nk - j,
    {
        proof {
            let ix = choose|ix: int| 0 <= ix < right.spec_fields().len() && #[trigger] kept[j as int] == right.spec_fields()[ix];
            assert(right.entry_ok(right.spec_fields()[ix]));
            crate::view::lemma_entry_pos(right.spec_fields(), ix);
            assert(kept_ids@[j as int] == kept[j as int].0);
            assert forall|k: int| 0 <= k < rrows@.len() implies (#[trigger] rrows@[k] matches Some(r) ==> r < right.spec_nrows()) by {
                assert(rrows@[k] == pairs@[k].1);
            }
        }
        let data = copy_field(right, &kept_ids[j], &rrows);
        let ghost before = ds.spec_fields();
        proof {
            assert forall|x: int| 0 <= x < before.len() implies #[trigger] before[x].0@ != kept_ids@[j as int]@ by {
                if x < na {
                    assert(before[x].0 == left.spec_fields()[x].0);
                    crate::view::lemma_entry_pos(left.spec_fields(), x);
                    assert(left.lookup(kept[j as int].0@).is_none());
                } else {
                    let y = x - na;
                    assert(before[na + y].0 == kept[y].0);
                }
            }
        }
        match ds.add_field(kept_ids[j].duplicate(), data) {
            Ok(()) => {},
            Err(_) => { proof { assert(false); } },
        }
        proof {
            assert forall|x: int| 0 <= x < na implies #[trigger] ds.spec_fields()[x].0 == left.spec_fields()[x].0
                && copied(ds.spec_fields()[x].1, *left, left.spec_fields()[x].0@, lrows@) by {
                assert(ds.spec_fields()[x] == before[x]);
            }
            assert forall|y: int| 0 <= y < j + 1 implies #[trigger] ds.spec_fields()[na + y].0 == kept[y].0
                && copied(ds.spec_fields()[na + y].1, *right, kept[y].0@, rrows@) by {
                if y < j {
                    assert(ds.spec_fields()[na + y] == before[na + y]);
                }
            }
        }
        j += 1;
    }
    proof {
        assert(keys_joined(*left, *right, *join, pairs@));
        assert(joined_store(*left, *right, *join, pairs@, ds));
    }
    Ok(ds)
}

/// The value at row `k` of `d` is missing.
pub open spec fn missing_at(d: FieldData, k: int) -> bool {
    match d {
        FieldData::Unsigned(c) => c@[k] is Na,
        FieldData::Signed(c) => c@[k] is Na,
        FieldData::Text(c) => c@[k] is Na,
        FieldData::Boolean(c) => c@[k] is Na,
        FieldData::Float(c) => c@[k] is Na,
    }
}

/// An outer join keeps every left row at least once.
pub proof fn lemma_outer_keeps_left<T: DataType>(pred: Predicate, ls: Seq<MaybeNa<T>>, rs: Seq<MaybeNa<T>>, pairs: Seq<(usize, Option<usize>)>, l: usize)
    requires
        join_result(JoinKind::Outer, pred, ls, rs, pairs),
        l < ls.len(),
        rs.len() <= usize::MAX,
    ensures
        exists|k: int| 0 <= k < pairs.len() && (#[trigger] pairs[k]).0 == l,
{
    if exists|q: int| 0 <= q < rs.len() && rows_match(JoinKind::Outer, pred, ls, rs, l as int, q) {
        let q = choose|q: int| 0 <= q < rs.len() && rows_match(JoinKind::Outer, pred, ls, rs, l as int, q);
        assert(pairs.contains((l, Some(q as usize))));
        let k = choose|k: int| 0 <= k < pairs.len() && pairs[k] == (l, Some(q as usize));
        assert(pairs[k].0 == l);
    } else {
        assert(pairs.contains((l, None::<usize>)));
        let k = choose|k: int| 0 <= k < pairs.len() && pairs[k] == (l, None::<usize>);
        assert(pairs[k].0 == l);
    }
}

/// In a join's output, a row with no right row holds missing values in every right field.
pub proof fn lemma_unmatched_rows_missing(left: DataView, right: DataView, join: Join, pairs: Seq<(usize, Option<usize>)>, ds: DataStore, k: int, j: int)
    requires
        joined_store(left, right, join, pairs, ds),
        0 <= k < pairs.len(),
        pairs[k].1 is None,
        0 <= j < kept_right(right.spec_fields(), join).len(),
    ensures
        missing_at(ds.spec_fields()[left.spec_fields().len() + j].1, k),
{
    let na = left.spec_fields().len();
    assert(ds.spec_fields()[na + j].0 == kept_right(right.spec_fields(), join)[j].0);
}

} // verus!
