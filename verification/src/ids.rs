//! Ascending lists of para identifiers, and of parathread selections by identifier.

use crate::ordered::{
    before, belongs_at, binary_search, exchanged, existence_swapped, exists_in, lawful, level,
    swap_ordered_existence,
};
use crate::types::{CollatorId, ParaId, Selection};
use vstd::laws_cmp::*;
use vstd::prelude::*;

verus! {

/// Each identifier is larger than those before it; so none occurs twice.
pub open spec fn ascending(s: Seq<ParaId>) -> bool {
    forall|i: int, j: int| 0 <= i < j < s.len() ==> #[trigger] s[i] < #[trigger] s[j]
}

/// The identifiers below `k` are smaller than `id`, the others are larger.
pub open spec fn splits(s: Seq<ParaId>, k: int, id: ParaId) -> bool {
    &&& 0 <= k <= s.len()
    &&& forall|i: int| 0 <= i < k ==> #[trigger] s[i] < id
    &&& forall|i: int| k <= i < s.len() ==> id < #[trigger] s[i]
}

/// Where `id`, which `s` does not hold, has to be put to keep `s` ascending.
pub open spec fn place(s: Seq<ParaId>, id: ParaId) -> int {
    choose|k: int| splits(s, k, id)
}

/// The ascending list `s` with `id` added.
pub open spec fn with_id(s: Seq<ParaId>, id: ParaId) -> Seq<ParaId> {
    s.insert(place(s, id), id)
}

/// The ascending list `s` with `id` taken out.
pub open spec fn without_id(s: Seq<ParaId>, id: ParaId) -> Seq<ParaId> {
    s.remove(s.index_of(id))
}

/// The ascending list `s` in which `one` and `other` have swapped their existence.
pub open spec fn swapped_ids(s: Seq<ParaId>, one: ParaId, other: ParaId) -> Seq<ParaId> {
    if s.contains(one) && !s.contains(other) {
        with_id(without_id(s, one), other)
    } else if s.contains(other) && !s.contains(one) {
        with_id(without_id(s, other), one)
    } else {
        s
    }
}

/// The identifiers of a list of selections.
pub open spec fn ids_of(s: Seq<Selection>) -> Seq<ParaId> {
    s.map_values(|e: Selection| e.0)
}

/// A list of selections, ascending by identifier, with one more.
pub open spec fn with_selection(s: Seq<Selection>, id: ParaId, collator: CollatorId) -> Seq<
    Selection,
> {
    s.insert(place(ids_of(s), id), (id, collator))
}

pub proof fn lemma_id_order()
    ensures
        lawful::<ParaId>(),
        forall|a: ParaId, b: ParaId| #[trigger] before(a, b) <==> a < b,
        forall|a: ParaId, b: ParaId| #[trigger] level(a, b) <==> a == b,
{
    broadcast use group_laws_cmp;

}

pub proof fn lemma_place(s: Seq<ParaId>, k: int, id: ParaId)
    requires
        splits(s, k, id),
    ensures
        place(s, id) == k,
{
    let p = place(s, id);
    if p < k {
        assert(s[p] < id && id < s[p]);
    } else if k < p {
        assert(s[k] < id && id < s[k]);
    }
}

/// In an ascending list that does not hold `id`, there is a place for `id`.
pub proof fn lemma_has_place(s: Seq<ParaId>, id: ParaId)
    requires
        ascending(s),
        !s.contains(id),
    ensures
        splits(s, place(s, id), id),
    decreases s.len(),
{
    if s.len() == 0 {
        assert(splits(s, 0, id));
    } else {
        let t = s.drop_last();
        assert(!t.contains(id)) by {
            if t.contains(id) {
                let i = t.index_of(id);
                assert(s[i] == id);
            }
        }
        lemma_has_place(t, id);
        let k = place(t, id);
        let last = s[s.len() - 1];
        if last < id {
            assert(k == t.len()) by {
                if k < t.len() {
                    assert(id < t[k]);
                    assert(s[k] < last);
                }
            }
            assert(splits(s, s.len() as int, id));
        } else {
            assert(last != id);
            assert forall|i: int| k <= i < s.len() implies id < #[trigger] s[i] by {
                if i < t.len() {
                    assert(s[i] == t[i]);
                }
            }
            assert forall|i: int| 0 <= i < k implies #[trigger] s[i] < id by {
                assert(s[i] == t[i]);
            }
            assert(splits(s, k, id));
        }
    }
}

/// Adding an identifier keeps the list ascending, and changes nothing else of what it holds.
pub proof fn lemma_with_id(s: Seq<ParaId>, id: ParaId)
    requires
        ascending(s),
        !s.contains(id),
    ensures
        splits(s, place(s, id), id),
        ascending(with_id(s, id)),
        forall|x: ParaId| #[trigger] with_id(s, id).contains(x) <==> x == id || s.contains(x),
{
    lemma_has_place(s, id);
    let k = place(s, id);
    let t = with_id(s, id);
    assert forall|x: ParaId| #[trigger] t.contains(x) <==> x == id || s.contains(x) by {
        if x == id {
            assert(t[k] == id);
        }
        if s.contains(x) {
            let i = s.index_of(x);
            assert(t[if i < k { i } else { i + 1 }] == x);
        }
        if t.contains(x) && x != id {
            let i = t.index_of(x);
            assert(s[if i < k { i } else { i - 1 }] == x);
        }
    }
}

/// Taking an identifier out keeps the list ascending, and changes nothing else of what it holds.
pub proof fn lemma_without_id(s: Seq<ParaId>, id: ParaId)
    requires
        ascending(s),
        s.contains(id),
    ensures
        ascending(without_id(s, id)),
        forall|x: ParaId| #[trigger] without_id(s, id).contains(x) <==> x != id && s.contains(x),
{
    let k = s.index_of(id);
    let t = without_id(s, id);
    assert forall|x: ParaId| #[trigger] t.contains(x) <==> x != id && s.contains(x) by {
        if s.contains(x) && x != id {
            let i = s.index_of(x);
            assert(t[if i < k { i } else { i - 1 }] == x);
        }
        if t.contains(x) {
            let i = t.index_of(x);
            let j = if i < k { i } else { i + 1 };
            assert(s[j] == x);
            assert(j != k);
        }
    }
}

/// Swapping existence keeps the list ascending; `one` is in it where `other` was, and the other
/// way round.
pub proof fn lemma_swapped_ids(s: Seq<ParaId>, one: ParaId, other: ParaId)
    requires
        ascending(s),
    ensures
        ascending(swapped_ids(s, one, other)),
        swapped_ids(s, one, other).contains(one) <==> s.contains(other),
        swapped_ids(s, one, other).contains(other) <==> s.contains(one),
        forall|x: ParaId|
            x != one && x != other ==> (#[trigger] swapped_ids(s, one, other).contains(x)
                <==> s.contains(x)),
{
    if s.contains(one) && !s.contains(other) {
        lemma_without_id(s, one);
        lemma_with_id(without_id(s, one), other);
    } else if s.contains(other) && !s.contains(one) {
        lemma_without_id(s, other);
        lemma_with_id(without_id(s, other), one);
    }
}

/// An ascending list is determined by what it holds.
pub proof fn lemma_ascending_unique(s: Seq<ParaId>, t: Seq<ParaId>)
    requires
        ascending(s),
        ascending(t),
        forall|x: ParaId| s.contains(x) <==> #[trigger] t.contains(x),
    ensures
        s == t,
    decreases s.len(),
{
    if s.len() == 0 {
        if t.len() > 0 {
            assert(t.contains(t[0]));
            assert(s.contains(t[0]));
        }
        assert(s =~= t);
    } else {
        let a = s[s.len() - 1];
        assert(s.contains(a));
        assert(t.contains(a));
        let b = t[t.len() - 1];
        assert(t.contains(b));
        assert(s.contains(b));
        let i = s.index_of(b);
        let j = t.index_of(a);
        assert(b <= a) by {
            if i < s.len() - 1 {
                assert(s[i] < s[s.len() - 1]);
            }
        }
        assert(a <= b) by {
            if j < t.len() - 1 {
                assert(t[j] < t[t.len() - 1]);
            }
        }
        let s1 = s.drop_last();
        let t1 = t.drop_last();
        assert forall|x: ParaId| s1.contains(x) <==> #[trigger] t1.contains(x) by {
            if s1.contains(x) {
                let k = s1.index_of(x);
                assert(s[k] == x && s[k] < a);
                assert(s.contains(x));
                let m = t.index_of(x);
                assert(t.contains(x));
                assert(t1[m] == x);
            }
            if t1.contains(x) {
                let k = t1.index_of(x);
                assert(t[k] == x && t[k] < b);
                assert(t.contains(x));
                let m = s.index_of(x);
                assert(s1[m] == x);
            }
        }
        lemma_ascending_unique(s1, t1);
        assert(s =~= s1.push(a));
        assert(t =~= t1.push(b));
    }
}

/// Swapping the existence of two identifiers in an ascending list.
pub proof fn lemma_existence_swapped(s: Seq<ParaId>, t: Seq<ParaId>, one: ParaId, other: ParaId)
    requires
        ascending(s),
        existence_swapped(s, t, one, other),
    ensures
        t == swapped_ids(s, one, other),
{
    lemma_id_order();
    lemma_exists_in(s, one);
    lemma_exists_in(s, other);
    if s.contains(one) && !s.contains(other) {
        lemma_exchanged(s, t, one, other);
    } else if s.contains(other) && !s.contains(one) {
        lemma_exchanged(s, t, other, one);
    }
}

proof fn lemma_exists_in(s: Seq<ParaId>, id: ParaId)
    ensures
        exists_in(s, id) <==> s.contains(id),
{
    lemma_id_order();
    if exists_in(s, id) {
        let i = choose|i: int| 0 <= i < s.len() && level(#[trigger] s[i], id);
        assert(s[i] == id);
    }
    if s.contains(id) {
        assert(level(s[s.index_of(id)], id));
    }
}

proof fn lemma_exchanged(s: Seq<ParaId>, t: Seq<ParaId>, gone: ParaId, come: ParaId)
    requires
        ascending(s),
        s.contains(gone),
        !s.contains(come),
        exchanged(s, t, gone, come),
    ensures
        t == with_id(without_id(s, gone), come),
{
    lemma_id_order();
    let (i, k) = choose|i: int, k: int|
        {
            &&& 0 <= i < s.len()
            &&& 0 <= k < s.len()
            &&& level(s[i], gone)
            &&& t == #[trigger] s.remove(i).insert(k, come)
        };
    assert(s[i] == gone);
    assert(i == s.index_of(gone));
    lemma_without_id(s, gone);
    let r = without_id(s, gone);
    assert(t[k] == come);
    assert forall|j: int| 0 <= j < k implies #[trigger] r[j] < come by {
        assert(t[j] == r[j]);
        assert(!before(t[k], t[j]));
        assert(r.contains(r[j]));
    }
    assert forall|j: int| k <= j < r.len() implies come < #[trigger] r[j] by {
        assert(t[j + 1] == r[j]);
        assert(!before(t[j + 1], t[k]));
        assert(r.contains(r[j]));
    }
    lemma_place(r, k, come);
}

/// Finds `id` in an ascending list, or the place for it.
pub fn search_id(ids: &Vec<ParaId>, id: ParaId) -> (r: Result<usize, usize>)
    requires
        ascending(ids@),
    ensures
        match r {
            Ok(i) => i < ids@.len() && ids@[i as int] == id && ids@.contains(id) && i
                == ids@.index_of(id),
            Err(k) => k <= ids@.len() && !ids@.contains(id) && k == place(ids@, id),
        },
{
    proof {
        lemma_id_order();
        lemma_exists_in(ids@, id);
    }
    let r: Result<usize, usize> = binary_search(ids.as_slice(), &id);
    proof {
        if let Err(k) = r {
            assert(splits(ids@, k as int, id)) by {
                assert(belongs_at(ids@, k, id));
            }
            lemma_place(ids@, k as int, id);
        }
    }
    r
}

/// Swaps the existence of `one` and `other` in an ascending list.
pub fn swap_ids(ids: &mut Vec<ParaId>, one: ParaId, other: ParaId)
    requires
        ascending(old(ids)@),
    ensures
        final(ids)@ == swapped_ids(old(ids)@, one, other),
{
    proof {
        lemma_id_order();
    }
    let ghost before = ids@;
    swap_ordered_existence(ids.as_mut_slice(), one, other);
    proof {
        lemma_existence_swapped(before, ids@, one, other);
    }
}

/// Finds the selection of `id` in a list ascending by identifier, or the place for it.
pub fn search_selection(list: &Vec<Selection>, id: ParaId) -> (r: Result<usize, usize>)
    requires
        ascending(ids_of(list@)),
    ensures
        match r {
            Ok(i) => i < list@.len() && list@[i as int].0 == id && ids_of(list@).contains(id),
            Err(k) => k <= list@.len() && !ids_of(list@).contains(id) && k == place(
                ids_of(list@),
                id,
            ),
        },
{
    let ghost ids = ids_of(list@);
    let mut lo: usize = 0;
    let mut hi: usize = list.len();
    while lo < hi
        invariant
            ids == ids_of(list@),
            ascending(ids),
            lo <= hi <= ids.len(),
            forall|i: int| 0 <= i < lo ==> #[trigger] ids[i] < id,
            forall|i: int| hi <= i < ids.len() ==> id < #[trigger] ids[i],
        decreases hi - lo,
    {
        let mid: usize = lo + (hi - lo) / 2;
        let found: ParaId = list[mid].0;
        assert(ids[mid as int] == found);
        if found == id {
            return Ok(mid);
        } else if found < id {
            lo = mid + 1;
        } else {
            hi = mid;
        }
    }
    proof {
        assert(splits(ids, lo as int, id));
        lemma_place(ids, lo as int, id);
    }
    Err(lo)
}

} // verus!
