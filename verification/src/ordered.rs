//! Lists that are kept in ascending order.

use core::cmp::Ordering;
use vstd::laws_cmp::*;
use vstd::laws_eq::*;
use vstd::prelude::*;
use vstd::seq_lib::{
    to_multiset_contains, to_multiset_insert, to_multiset_remove, to_multiset_update,
};
use vstd::std_specs::cmp::{OrdSpec, PartialEqSpec, PartialOrdSpec};

verus! {

/// The order of `T` is total, and its comparisons agree with one another.
pub open spec fn lawful<T: Ord>() -> bool {
    obeys_cmp::<T>()
}

/// `a` comes before `b`.
pub open spec fn before<T: Ord>(a: T, b: T) -> bool {
    a.cmp_spec(&b) is Less
}

/// `a` and `b` have the same place in the order.
pub open spec fn level<T: Ord>(a: T, b: T) -> bool {
    a.cmp_spec(&b) is Equal
}

/// No item of `s` comes before an earlier one.
pub open spec fn ordered<T: Ord>(s: Seq<T>) -> bool {
    forall|i: int, j: int| 0 <= i < j < s.len() ==> !before(#[trigger] s[j], #[trigger] s[i])
}

/// Each item of `s` comes before the next.
pub open spec fn strictly_ordered<T: Ord>(s: Seq<T>) -> bool {
    forall|i: int, j: int| 0 <= i < j < s.len() ==> before(#[trigger] s[i], #[trigger] s[j])
}

/// An item level with `x` stands in `s`.
pub open spec fn exists_in<T: Ord>(s: Seq<T>, x: T) -> bool {
    exists|i: int| 0 <= i < s.len() && level(#[trigger] s[i], x)
}

/// The item of `s` at `i` is level with `x`.
pub open spec fn stands_at<T: Ord>(s: Seq<T>, i: usize, x: T) -> bool {
    i < s.len() && level(s[i as int], x)
}

/// All items of `s` below `k` come before `x`, and `x` comes before all others.
pub open spec fn belongs_at<T: Ord>(s: Seq<T>, k: usize, x: T) -> bool {
    &&& k <= s.len()
    &&& forall|i: int| 0 <= i < k ==> before(#[trigger] s[i], x)
    &&& forall|i: int| k <= i < s.len() ==> before(x, #[trigger] s[i])
}

/// `t` is the ordered list `s` from which one item level with `gone` was taken out, and into
/// which `come` was put; the other items stand as they stood to one another.
pub open spec fn exchanged<T: Ord>(s: Seq<T>, t: Seq<T>, gone: T, come: T) -> bool {
    &&& ordered(t)
    &&& exists|i: int, k: int|
        {
            &&& 0 <= i < s.len()
            &&& 0 <= k < s.len()
            &&& level(s[i], gone)
            &&& t == #[trigger] s.remove(i).insert(k, come)
        }
}

/// `t` is the ordered list `s` in which `one` and `other` have swapped their existence.
pub open spec fn existence_swapped<T: Ord>(s: Seq<T>, t: Seq<T>, one: T, other: T) -> bool {
    if exists_in(s, one) && !exists_in(s, other) {
        exchanged(s, t, one, other)
    } else if exists_in(s, other) && !exists_in(s, one) {
        exchanged(s, t, other, one)
    } else {
        t == s
    }
}

/// `t` is ordered, and holds what `s` holds but for one item level with `gone`, in whose place it
/// holds `come`.
pub open spec fn replaced<T: Ord>(s: Seq<T>, t: Seq<T>, gone: T, come: T) -> bool {
    &&& ordered(t)
    &&& exists|i: int|
        {
            &&& 0 <= i < s.len()
            &&& level(s[i], gone)
            &&& t.to_multiset() == #[trigger] s.update(i, come).to_multiset()
        }
}

proof fn lemma_total_order<T: Ord>()
    requires
        lawful::<T>(),
    ensures
        T::obeys_cmp_spec(),
        forall|a: T, b: T| #[trigger] before(a, b) <==> b.cmp_spec(&a) is Greater,
        forall|a: T, b: T| #[trigger] level(a, b) ==> level(b, a),
        forall|a: T, b: T, c: T| #[trigger] before(a, b) && #[trigger] before(b, c) ==> before(a, c),
        forall|a: T, b: T, c: T| !#[trigger] before(b, a) && !#[trigger] before(c, b) ==> !before(c, a),
        forall|a: T, b: T, c: T| #[trigger] level(a, b) && #[trigger] before(b, c) ==> before(a, c),
{
    reveal(obeys_eq_spec_properties);
    reveal(obeys_partial_cmp_spec_properties);
    reveal(obeys_cmp_partial_ord);
    reveal(obeys_cmp_ord);
    assert forall|a: T, b: T| #[trigger] before(a, b) <==> b.cmp_spec(&a) is Greater by {
        assert(a.partial_cmp_spec(&b) == Some(a.cmp_spec(&b)));
        assert(b.partial_cmp_spec(&a) == Some(b.cmp_spec(&a)));
    }
}

/// In a list of which each item comes before the next, two items that swap their existence change
/// places: the one is there where the other was. Whether any other item is there stays as it was.
pub proof fn law_existence_swapped<T: Ord>(s: Seq<T>, t: Seq<T>, one: T, other: T, x: T)
    requires
        lawful::<T>(),
        strictly_ordered(s),
        existence_swapped(s, t, one, other),
    ensures
        exists_in(t, one) <==> exists_in(s, other),
        exists_in(t, other) <==> exists_in(s, one),
        !level(x, one) && !level(x, other) ==> (exists_in(t, x) <==> exists_in(s, x)),
{
    if exists_in(s, one) && !exists_in(s, other) {
        lemma_exchanged_exists(s, t, one, other, x);
    } else if exists_in(s, other) && !exists_in(s, one) {
        lemma_exchanged_exists(s, t, other, one, x);
    }
}

proof fn lemma_exchanged_exists<T: Ord>(s: Seq<T>, t: Seq<T>, gone: T, come: T, x: T)
    requires
        lawful::<T>(),
        strictly_ordered(s),
        exchanged(s, t, gone, come),
        exists_in(s, gone),
        !exists_in(s, come),
    ensures
        !exists_in(t, gone),
        exists_in(t, come),
        !level(x, gone) && !level(x, come) ==> (exists_in(t, x) <==> exists_in(s, x)),
{
    lemma_total_order::<T>();
    lemma_level::<T>();
    let (i, k) = choose|i: int, k: int|
        {
            &&& 0 <= i < s.len()
            &&& 0 <= k < s.len()
            &&& level(s[i], gone)
            &&& t == #[trigger] s.remove(i).insert(k, come)
        };
    let r = s.remove(i);
    assert(t[k] == come);
    assert(level(come, come));
    if exists_in(t, gone) {
        let j = choose|j: int| 0 <= j < t.len() && level(#[trigger] t[j], gone);
        if j == k {
            assert(level(s[i], come));
        } else {
            let m = if j < k {
                j
            } else {
                j - 1
            };
            let n = if m < i {
                m
            } else {
                m + 1
            };
            assert(t[j] == s[n]);
            assert(level(s[n], s[i]));
            if n < i {
                assert(before(s[n], s[i]));
            } else {
                assert(before(s[i], s[n]));
            }
        }
    }
    if !level(x, come) && exists_in(t, x) {
        let j = choose|j: int| 0 <= j < t.len() && level(#[trigger] t[j], x);
        let m = if j < k {
            j
        } else {
            j - 1
        };
        let n = if m < i {
            m
        } else {
            m + 1
        };
        assert(j != k);
        assert(t[j] == s[n]);
    }
    if !level(x, gone) && exists_in(s, x) {
        let n = choose|n: int| 0 <= n < s.len() && level(#[trigger] s[n], x);
        assert(n != i) by {
            if n == i {
                assert(level(x, s[n]));
            }
        }
        let m = if n < i {
            n
        } else {
            n - 1
        };
        let j = if m < k {
            m
        } else {
            m + 1
        };
        assert(t[j] == s[n]);
    }
}

proof fn lemma_swapped_strictly<T: Ord>(s: Seq<T>, t: Seq<T>, gone: T, come: T)
    requires
        lawful::<T>(),
        strictly_ordered(s),
        exchanged(s, t, gone, come),
        !exists_in(s, come),
    ensures
        strictly_ordered(t),
{
    lemma_total_order::<T>();
    lemma_level::<T>();
    let (i, k) = choose|i: int, k: int|
        {
            &&& 0 <= i < s.len()
            &&& 0 <= k < s.len()
            &&& level(s[i], gone)
            &&& t == #[trigger] s.remove(i).insert(k, come)
        };
    assert forall|a: int, b: int| 0 <= a < b < t.len() implies before(
        #[trigger] t[a],
        #[trigger] t[b],
    ) by {
        assert(!before(t[b], t[a]));
        let m = if a < k {
            a
        } else {
            a - 1
        };
        let n = if b < k {
            b
        } else {
            b - 1
        };
        let x = if m < i {
            m
        } else {
            m + 1
        };
        let y = if n < i {
            n
        } else {
            n + 1
        };
        if a != k && b != k {
            assert(t[a] == s[x] && t[b] == s[y]);
        } else if a == k {
            assert(t[a] == come && t[b] == s[y]);
            assert(!level(s[y], come));
        } else {
            assert(t[b] == come && t[a] == s[x]);
            assert(!level(s[x], come));
        }
    }
}

/// Two strictly ordered lists in which the same items exist are level item by item.
proof fn lemma_same_existence<T: Ord>(s: Seq<T>, t: Seq<T>)
    requires
        lawful::<T>(),
        strictly_ordered(s),
        strictly_ordered(t),
        forall|x: T| #[trigger] exists_in(s, x) <==> exists_in(t, x),
    ensures
        s.len() == t.len(),
        forall|i: int| 0 <= i < s.len() ==> level(#[trigger] s[i], t[i]),
    decreases s.len(),
{
    lemma_total_order::<T>();
    lemma_level::<T>();
    if s.len() == 0 || t.len() == 0 {
        if s.len() > 0 {
            assert(level(s[0], s[0]));
            assert(exists_in(s, s[0]));
        }
        if t.len() > 0 {
            assert(level(t[0], t[0]));
            assert(exists_in(t, t[0]));
            assert(exists_in(s, t[0]));
        }
    } else {
        let a = s.len() - 1;
        let b = t.len() - 1;
        assert(level(s[a], s[a]) && level(t[b], t[b]));
        assert(exists_in(s, s[a]) && exists_in(t, t[b]));
        assert(exists_in(t, s[a]) && exists_in(s, t[b]));
        let j = choose|j: int| 0 <= j < t.len() && level(#[trigger] t[j], s[a]);
        let i = choose|i: int| 0 <= i < s.len() && level(#[trigger] s[i], t[b]);
        assert(level(s[a], t[b])) by {
            if j < b && i < a {
                assert(before(t[j], t[b]));
                assert(before(s[i], s[a]));
                assert(level(s[a], t[j]));
                assert(before(s[a], t[b]));
                assert(level(t[b], s[i]));
                assert(before(t[b], s[a]));
            }
        }
        let p = s.drop_last();
        let q = t.drop_last();
        assert forall|x: T| #[trigger] exists_in(p, x) <==> exists_in(q, x) by {
            lemma_without_last(s, x);
            lemma_without_last(t, x);
            assert(exists_in(s, x) <==> exists_in(t, x));
            assert(level(s[a], x) <==> level(t[b], x));
        }
        lemma_same_existence(p, q);
        assert forall|k: int| 0 <= k < s.len() implies level(#[trigger] s[k], t[k]) by {
            if k < a {
                assert(p[k] == s[k] && q[k] == t[k]);
            }
        }
    }
}

proof fn lemma_without_last<T: Ord>(s: Seq<T>, x: T)
    requires
        lawful::<T>(),
        strictly_ordered(s),
        s.len() > 0,
    ensures
        exists_in(s.drop_last(), x) <==> exists_in(s, x) && !level(s.last(), x),
{
    lemma_total_order::<T>();
    lemma_level::<T>();
    let r = s.drop_last();
    if exists_in(r, x) {
        let i = choose|i: int| 0 <= i < r.len() && level(#[trigger] r[i], x);
        assert(s[i] == r[i]);
        assert(before(s[i], s[s.len() - 1]));
        if level(s.last(), x) {
            assert(level(x, s.last()));
            assert(level(s[i], s.last()));
        }
    }
    if exists_in(s, x) && !level(s.last(), x) {
        let i = choose|i: int| 0 <= i < s.len() && level(#[trigger] s[i], x);
        assert(r[i] == s[i]);
    }
}

/// To swap the existence of the same two items a second time undoes the first, in a list of which
/// each item comes before the next: every item of it is level with the one that stood there. It is
/// the same one where items that are level are equal.
pub proof fn law_swapped_back<T: Ord>(s: Seq<T>, t: Seq<T>, u: Seq<T>, one: T, other: T)
    requires
        lawful::<T>(),
        strictly_ordered(s),
        existence_swapped(s, t, one, other),
        existence_swapped(t, u, one, other),
    ensures
        u.len() == s.len(),
        forall|i: int| 0 <= i < s.len() ==> level(#[trigger] u[i], s[i]),
        (forall|a: T, b: T| #[trigger] level(a, b) ==> a == b) ==> u == s,
{
    lemma_total_order::<T>();
    lemma_level::<T>();
    lemma_swap_strictly(s, t, one, other);
    lemma_swap_strictly(t, u, one, other);
    assert forall|x: T| #[trigger] exists_in(u, x) <==> exists_in(s, x) by {
        law_existence_swapped(s, t, one, other, x);
        law_existence_swapped(t, u, one, other, x);
        if level(x, one) {
            lemma_level_exists(u, x, one);
            lemma_level_exists(s, x, one);
        } else if level(x, other) {
            lemma_level_exists(u, x, other);
            lemma_level_exists(s, x, other);
        }
    }
    lemma_same_existence(u, s);
    if forall|a: T, b: T| #[trigger] level(a, b) ==> a == b {
        assert(u =~= s);
    }
}

/// The order in which the two items are named makes no difference.
pub proof fn law_swapped_either_way<T: Ord>(s: Seq<T>, t: Seq<T>, one: T, other: T)
    ensures
        existence_swapped(s, t, one, other) <==> existence_swapped(s, t, other, one),
{
}

/// In a list of which each item comes before the next, there is one way only to swap the existence
/// of two items, in whichever order they are named.
pub proof fn law_swapped_one_way<T: Ord>(s: Seq<T>, t: Seq<T>, u: Seq<T>, one: T, other: T)
    requires
        lawful::<T>(),
        strictly_ordered(s),
        existence_swapped(s, t, one, other),
        existence_swapped(s, u, other, one),
    ensures
        t == u,
{
    if exists_in(s, one) && !exists_in(s, other) {
        lemma_exchanged_unique(s, t, u, one, other);
    } else if exists_in(s, other) && !exists_in(s, one) {
        lemma_exchanged_unique(s, t, u, other, one);
    }
}

proof fn lemma_exchanged_unique<T: Ord>(s: Seq<T>, t: Seq<T>, u: Seq<T>, gone: T, come: T)
    requires
        lawful::<T>(),
        strictly_ordered(s),
        exchanged(s, t, gone, come),
        exchanged(s, u, gone, come),
        !exists_in(s, come),
    ensures
        t == u,
{
    lemma_total_order::<T>();
    lemma_level::<T>();
    let (i, k) = choose|i: int, k: int|
        {
            &&& 0 <= i < s.len()
            &&& 0 <= k < s.len()
            &&& level(s[i], gone)
            &&& t == #[trigger] s.remove(i).insert(k, come)
        };
    let (j, l) = choose|j: int, l: int|
        {
            &&& 0 <= j < s.len()
            &&& 0 <= l < s.len()
            &&& level(s[j], gone)
            &&& u == #[trigger] s.remove(j).insert(l, come)
        };
    assert(level(gone, s[j]));
    assert(level(s[i], s[j]));
    assert(i == j) by {
        if i < j {
            assert(before(s[i], s[j]));
        } else if j < i {
            assert(before(s[j], s[i]));
        }
    }
    lemma_insert_unique(s, i, t, u, k, l, come);
    lemma_insert_unique(s, i, u, t, l, k, come);
}

proof fn lemma_insert_unique<T: Ord>(
    s: Seq<T>,
    i: int,
    t: Seq<T>,
    u: Seq<T>,
    k: int,
    l: int,
    come: T,
)
    requires
        lawful::<T>(),
        0 <= i < s.len(),
        0 <= k < s.len(),
        0 <= l < s.len(),
        t == s.remove(i).insert(k, come),
        u == s.remove(i).insert(l, come),
        ordered(t),
        ordered(u),
        !exists_in(s, come),
    ensures
        k >= l,
{
    lemma_total_order::<T>();
    if k < l {
        let r = s.remove(i);
        let n = if k < i {
            k
        } else {
            k + 1
        };
        assert(t[k] == come && t[k + 1] == r[k]);
        assert(u[k] == r[k] && u[l] == come);
        assert(r[k] == s[n]);
        assert(!before(r[k], come) && !before(come, r[k]));
        assert(level(s[n], come));
    }
}

proof fn lemma_swap_strictly<T: Ord>(s: Seq<T>, t: Seq<T>, one: T, other: T)
    requires
        lawful::<T>(),
        strictly_ordered(s),
        existence_swapped(s, t, one, other),
    ensures
        strictly_ordered(t),
{
    if exists_in(s, one) && !exists_in(s, other) {
        lemma_swapped_strictly(s, t, one, other);
    } else if exists_in(s, other) && !exists_in(s, one) {
        lemma_swapped_strictly(s, t, other, one);
    }
}

proof fn lemma_level_exists<T: Ord>(s: Seq<T>, x: T, y: T)
    requires
        lawful::<T>(),
        level(x, y),
    ensures
        exists_in(s, x) <==> exists_in(s, y),
{
    lemma_level::<T>();
    if exists_in(s, x) {
        let i = choose|i: int| 0 <= i < s.len() && level(#[trigger] s[i], x);
        assert(level(s[i], y));
    }
    if exists_in(s, y) {
        let i = choose|i: int| 0 <= i < s.len() && level(#[trigger] s[i], y);
        assert(level(y, x));
        assert(level(s[i], x));
    }
}

proof fn lemma_level<T: Ord>()
    requires
        lawful::<T>(),
    ensures
        forall|a: T| #[trigger] level(a, a),
        forall|a: T, b: T| #[trigger] level(a, b) ==> level(b, a),
        forall|a: T, b: T, c: T| #[trigger] level(a, b) && #[trigger] level(b, c) ==> level(a, c),
        forall|a: T, b: T| #[trigger] level(a, b) ==> !before(a, b) && !before(b, a),
{
    reveal(obeys_eq_spec_properties);
    reveal(obeys_partial_cmp_spec_properties);
    reveal(obeys_cmp_partial_ord);
    reveal(obeys_cmp_ord);
    lemma_total_order::<T>();
}

/// Where `x` stands in an ordered list or, as the error, where it would have to be put.
///
/// In a list that is not ordered, `x` may stand and not be found; what is found stands there.
pub fn binary_search<T: Ord>(ids: &[T], x: &T) -> (r: Result<usize, usize>)
    requires
        lawful::<T>(),
    ensures
        match r {
            Ok(i) => stands_at(ids@, i, *x),
            Err(k) => k <= ids@.len() && (ordered(ids@) ==> belongs_at(ids@, k, *x)),
        },
        r is Ok ==> exists_in(ids@, *x),
        ordered(ids@) && exists_in(ids@, *x) ==> r is Ok,
{
    proof {
        lemma_total_order::<T>();
    }
    let mut lo: usize = 0;
    let mut hi: usize = ids.len();
    while lo < hi
        invariant
            lawful::<T>(),
            lo <= hi <= ids@.len(),
            ordered(ids@) ==> forall|i: int| 0 <= i < lo ==> before(#[trigger] ids@[i], *x),
            ordered(ids@) ==> forall|i: int|
                hi <= i < ids@.len() ==> before(*x, #[trigger] ids@[i]),
        decreases hi - lo,
    {
        proof {
            lemma_total_order::<T>();
        }
        let mid: usize = lo + (hi - lo) / 2;
        match ids[mid].cmp(x) {
            Ordering::Equal => {
                return Ok(mid);
            },
            Ordering::Less => {
                lo = mid + 1;
            },
            Ordering::Greater => {
                hi = mid;
            },
        }
    }
    Err(lo)
}

/// Whether `a` comes before `b`.
fn is_before<T: Ord>(a: &T, b: &T) -> (r: bool)
    requires
        lawful::<T>(),
    ensures
        r == before(*a, *b),
{
    proof {
        lemma_total_order::<T>();
    }
    match a.cmp(b) {
        Ordering::Less => true,
        _ => false,
    }
}

/// Puts `x` in the place of the item at `at`, and moves it towards where it belongs.
fn replace_ordered<T: Ord + Copy>(ids: &mut [T], at: usize, x: T)
    requires
        lawful::<T>(),
        at < old(ids)@.len(),
    ensures
        ordered(old(ids)@) ==> ordered(final(ids)@),
        exists|k: int|
            0 <= k < old(ids)@.len() && final(ids)@ == #[trigger] old(ids)@.remove(at as int).insert(
                k,
                x,
            ),
{
    let ghost rest = ids@.remove(at as int);
    let ghost n: int = ids@.len() as int;
    let len: usize = ids.len();
    proof {
        if ordered(ids@) {
            assert forall|i: int, j: int| 0 <= i < j < rest.len() implies !before(
                #[trigger] rest[j],
                #[trigger] rest[i],
            ) by {
                let i0 = if i < at {
                    i
                } else {
                    i + 1
                };
                let j0 = if j < at {
                    j
                } else {
                    j + 1
                };
                assert(rest[i] == ids@[i0] && rest[j] == ids@[j0]);
            }
        }
    }
    ids[at] = x;
    assert(ids@ =~= rest.insert(at as int, x));
    let mut k: usize = at;
    while k > 0 && is_before(&ids[k], &ids[k - 1])
        invariant
            lawful::<T>(),
            rest.len() == n - 1,
            len == n,
            k < n,
            ids@ == rest.insert(k as int, x),
        decreases k,
    {
        let y: T = ids[k - 1];
        ids[k] = y;
        k = k - 1;
        ids[k] = x;
        assert(ids@ =~= rest.insert(k as int, x));
    }
    assert(k > 0 ==> !before(x, rest[k - 1]));
    while k < len - 1 && is_before(&ids[k + 1], &ids[k])
        invariant
            lawful::<T>(),
            rest.len() == n - 1,
            len == n == ids@.len(),
            k < n,
            ids@ == rest.insert(k as int, x),
            k > 0 ==> !before(x, rest[k - 1]),
        decreases n - k,
    {
        proof {
            lemma_total_order::<T>();
        }
        let y: T = ids[k + 1];
        ids[k] = y;
        k = k + 1;
        ids[k] = x;
        assert(ids@ =~= rest.insert(k as int, x));
    }
    proof {
        lemma_total_order::<T>();
        if ordered(rest) {
            lemma_insert_ordered(rest, k as int, x);
        }
    }
}

/// Moves the item at `at` down to where it belongs among those before it, which are ordered.
fn sink<T: Ord + Copy>(ids: &mut [T], at: usize)
    requires
        lawful::<T>(),
        at < old(ids)@.len(),
        ordered(old(ids)@.take(at as int)),
    ensures
        ordered(final(ids)@.take(at + 1)),
        final(ids)@.to_multiset() == old(ids)@.to_multiset(),
        final(ids)@.len() == old(ids)@.len(),
        ordered(old(ids)@) ==> final(ids)@ == old(ids)@,
{
    let ghost start = ids@;
    let x: T = ids[at];
    let mut k: usize = at;
    proof {
        assert forall|i: int, j: int| 0 <= i < j < at implies !before(
            #[trigger] start[j],
            #[trigger] start[i],
        ) by {
            let low = start.take(at as int);
            assert(low[i] == start[i] && low[j] == start[j]);
        }
    }
    while k > 0 && is_before(&x, &ids[k - 1])
        invariant
            lawful::<T>(),
            k <= at < ids@.len(),
            ids@.len() == start.len(),
            ids@[k as int] == x,
            ids@.to_multiset() == start.to_multiset(),
            forall|i: int, j: int|
                0 <= i < j <= at && i != k && j != k ==> !before(
                    #[trigger] ids@[j],
                    #[trigger] ids@[i],
                ),
            forall|j: int| k < j <= at ==> before(x, #[trigger] ids@[j]),
            ordered(start) ==> k == at && ids@ == start,
        decreases k,
    {
        let ghost held = ids@;
        let y: T = ids[k - 1];
        ids[k] = y;
        ids[k - 1] = x;
        proof {
            broadcast use vstd::multiset::group_multiset_axioms;

            lemma_total_order::<T>();
            to_multiset_update(held, k as int, y);
            to_multiset_update(held.update(k as int, y), k - 1, x);
            to_multiset_contains(held, x);
            assert(held.contains(x));
            assert(ids@.to_multiset() =~= held.to_multiset());
        }
        k = k - 1;
    }
    proof {
        lemma_total_order::<T>();
        let low = ids@.take(at + 1);
        assert forall|i: int, j: int| 0 <= i < j < low.len() implies !before(
            #[trigger] low[j],
            #[trigger] low[i],
        ) by {
            assert(low[i] == ids@[i] && low[j] == ids@[j]);
            if j == k && i < k - 1 {
                assert(!before(ids@[k - 1], ids@[i]));
            }
        }
    }
}

/// Puts the items into order.
fn sort<T: Ord + Copy>(ids: &mut [T])
    requires
        lawful::<T>(),
    ensures
        ordered(final(ids)@),
        final(ids)@.to_multiset() == old(ids)@.to_multiset(),
        ordered(old(ids)@) ==> final(ids)@ == old(ids)@,
{
    let ghost start = ids@;
    let len: usize = ids.len();
    let mut i: usize = 0;
    while i < len
        invariant
            lawful::<T>(),
            i <= len == ids@.len(),
            ordered(ids@.take(i as int)),
            ids@.to_multiset() == start.to_multiset(),
            ordered(start) ==> ids@ == start,
        decreases len - i,
    {
        sink(ids, i);
        i = i + 1;
    }
    assert(ids@.take(len as int) =~= ids@);
}

proof fn lemma_insert_ordered<T: Ord>(s: Seq<T>, k: int, x: T)
    requires
        lawful::<T>(),
        ordered(s),
        0 <= k <= s.len(),
        k > 0 ==> !before(x, s[k - 1]),
        k < s.len() ==> !before(s[k], x),
    ensures
        ordered(s.insert(k, x)),
{
    lemma_total_order::<T>();
    let t = s.insert(k, x);
    assert forall|i: int, j: int| 0 <= i < j < t.len() implies !before(
        #[trigger] t[j],
        #[trigger] t[i],
    ) by {
        if i < k && k < j {
            assert(t[i] == s[i] && t[j] == s[j - 1]);
        } else if j == k {
            assert(t[i] == s[i] && t[j] == x);
            assert(i == k - 1 || !before(s[k - 1], s[i]));
        } else if i == k {
            assert(t[j] == s[j - 1] && t[i] == x);
            assert(j - 1 == k || !before(s[j - 1], s[k]));
        } else if j < k {
            assert(t[i] == s[i] && t[j] == s[j]);
        } else {
            assert(t[i] == s[i - 1] && t[j] == s[j - 1]);
        }
    }
}

/// Swap the existence of two items, provided by value, within an ordered list.
///
/// If neither item exists, or if both items exist this will do nothing. If exactly one of the
/// items exists, then it will be removed and the other inserted.
///
/// A list that is not ordered is searched as though it were: an item may stand in it and not be
/// found. If one of the two is found and the other is not, the list is put into order.
pub fn swap_ordered_existence<T: PartialOrd + Ord + Copy>(ids: &mut [T], one: T, other: T)
    requires
        lawful::<T>(),
    ensures
        ordered(old(ids)@) ==> existence_swapped(old(ids)@, final(ids)@, one, other),
        !exists_in(old(ids)@, one) && !exists_in(old(ids)@, other) ==> final(ids)@ == old(ids)@,
        final(ids)@ == old(ids)@ || replaced(old(ids)@, final(ids)@, one, other) || replaced(
            old(ids)@,
            final(ids)@,
            other,
            one,
        ),
{
    let maybe_one_pos: Result<usize, usize> = binary_search(ids, &one);
    let maybe_other_pos: Result<usize, usize> = binary_search(ids, &other);
    match (maybe_one_pos, maybe_other_pos) {
        (Ok(one_pos), Err(_)) => exchange(ids, one_pos, other),
        (Err(_), Ok(other_pos)) => exchange(ids, other_pos, one),
        _ => (),
    }
}

/// Puts `x` in the place of the item at `at`, and the list into order.
fn exchange<T: Ord + Copy>(ids: &mut [T], at: usize, x: T)
    requires
        lawful::<T>(),
        at < old(ids)@.len(),
    ensures
        ordered(final(ids)@),
        final(ids)@.to_multiset() == old(ids)@.update(at as int, x).to_multiset(),
        ordered(old(ids)@) ==> exists|k: int|
            0 <= k < old(ids)@.len() && final(ids)@ == #[trigger] old(ids)@.remove(at as int).insert(
                k,
                x,
            ),
{
    let ghost start = ids@;
    replace_ordered(ids, at, x);
    proof {
        broadcast use vstd::multiset::group_multiset_axioms;

        let rest = start.remove(at as int);
        let k = choose|k: int| 0 <= k < start.len() && ids@ == #[trigger] rest.insert(k, x);
        to_multiset_remove(start, at as int);
        to_multiset_insert(rest, k, x);
        to_multiset_update(start, at as int, x);
        to_multiset_contains(start, start[at as int]);
        assert(start.contains(start[at as int]));
        assert(ids@.to_multiset() =~= start.update(at as int, x).to_multiset());
    }
    sort(ids);
}

/// Searching and swapping, said of how items compare. What is found compares as equal; in a list of
/// which no item is smaller than an earlier one, what is there is found, and what is not belongs at
/// the place that is given. A list in which neither of two items is there stays as it is when they
/// swap their existence. In a list of which each item is smaller than the next, the one is there
/// afterwards where the other was, any third item where it was, and each item is smaller than the
/// next.
pub proof fn law_compared<T: Ord + Copy>(one: T, other: T, x: T, r: Result<usize, usize>)
    requires
        lawful::<T>(),
    ensures
        forall|ids: &[T]| #[trigger]
            call_ensures(binary_search::<T>, (ids, &x), r) ==> match r {
                Ok(k) => exists|i: int|
                    i == k && 0 <= i < ids@.len() && (#[trigger] ids@[i]).cmp_spec(&x) is Equal,
                Err(k) => {
                    &&& k <= ids@.len()
                    &&& (forall|i: int, j: int|
                        #![trigger ids@[i], ids@[j]]
                        0 <= i < j < ids@.len() ==> !(ids@[j].cmp_spec(&ids@[i]) is Less)) ==> {
                        &&& forall|i: int| 0 <= i < k ==> (#[trigger] ids@[i]).cmp_spec(&x) is Less
                        &&& forall|i: int|
                            #![trigger ids@[i]]
                            k <= i < ids@.len() ==> x.cmp_spec(&ids@[i]) is Less
                    }
                },
            },
        forall|ids: &mut [T]| #[trigger]
            call_ensures(swap_ordered_existence::<T>, (ids, one, other), ()) && (forall|i: int|
                0 <= i < ids@.len() ==> !((#[trigger] ids@[i]).cmp_spec(&one) is Equal) && !(
                ids@[i].cmp_spec(&other) is Equal)) ==> final(ids)@ == ids@,
        forall|ids: &mut [T]| #[trigger]
            call_ensures(swap_ordered_existence::<T>, (ids, one, other), ()) && (forall|
                i: int,
                j: int,
            |
                #![trigger ids@[i], ids@[j]]
                0 <= i < j < ids@.len() ==> ids@[i].cmp_spec(&ids@[j]) is Less) ==> {
                let s = ids@;
                let t = final(ids)@;
                &&& t.len() == s.len()
                &&& forall|i: int, j: int|
                    #![trigger t[i], t[j]]
                    0 <= i < j < t.len() ==> t[i].cmp_spec(&t[j]) is Less
                &&& (exists|i: int| 0 <= i < t.len() && (#[trigger] t[i]).cmp_spec(&one) is Equal)
                    <==> (exists|i: int|
                    0 <= i < s.len() && (#[trigger] s[i]).cmp_spec(&other) is Equal)
                &&& (exists|i: int| 0 <= i < t.len() && (#[trigger] t[i]).cmp_spec(&other) is Equal)
                    <==> (exists|i: int|
                    0 <= i < s.len() && (#[trigger] s[i]).cmp_spec(&one) is Equal)
                &&& !(x.cmp_spec(&one) is Equal) && !(x.cmp_spec(&other) is Equal) ==> ((exists|
                    i: int,
                |
                    0 <= i < t.len() && (#[trigger] t[i]).cmp_spec(&x) is Equal) <==> (exists|
                    i: int,
                |
                    0 <= i < s.len() && (#[trigger] s[i]).cmp_spec(&x) is Equal))
            },
{
    lemma_total_order::<T>();
    assert forall|ids: &mut [T]| #[trigger]
        call_ensures(swap_ordered_existence::<T>, (ids, one, other), ()) && strictly_ordered(
            ids@,
        ) implies ({
        let s = ids@;
        let t = final(ids)@;
        &&& t.len() == s.len()
        &&& strictly_ordered(t)
        &&& exists_in(t, one) <==> exists_in(s, other)
        &&& exists_in(t, other) <==> exists_in(s, one)
        &&& !level(x, one) && !level(x, other) ==> (exists_in(t, x) <==> exists_in(s, x))
    }) by {
        assert(ordered(ids@)) by {
            assert forall|i: int, j: int| 0 <= i < j < ids@.len() implies !before(
                #[trigger] ids@[j],
                #[trigger] ids@[i],
            ) by {
                assert(before(ids@[i], ids@[j]));
            }
        }
        law_existence_swapped(ids@, final(ids)@, one, other, x);
        lemma_swap_strictly(ids@, final(ids)@, one, other);
    }
    assert forall|ids: &mut [T]| #[trigger]
        call_ensures(swap_ordered_existence::<T>, (ids, one, other), ()) && (forall|i: int|
            0 <= i < ids@.len() ==> !((#[trigger] ids@[i]).cmp_spec(&one) is Equal) && !(
            ids@[i].cmp_spec(&other) is Equal)) implies final(ids)@ == ids@ by {
        assert(!exists_in(ids@, one) && !exists_in(ids@, other));
    }
}

} // verus!
