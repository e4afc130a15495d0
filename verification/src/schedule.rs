//! The paras that may execute in the current block.

use crate::queues::{contents, retried_later, retry_later};
use crate::types::{ActiveEntry, ParaId, Retriable, Selection};
use vstd::prelude::*;
use vstd::seq_lib::to_multiset_build;

verus! {

/// No entry stands behind one of a larger identifier.
pub open spec fn by_id(s: Seq<ActiveEntry>) -> bool {
    forall|i: int, j: int| 0 <= i < j < s.len() ==> (#[trigger] s[i]).0 <= (#[trigger] s[j]).0
}

/// The entries of one para.
pub open spec fn of_id(s: Seq<ActiveEntry>, id: ParaId) -> Seq<ActiveEntry> {
    s.filter(|e: ActiveEntry| e.0 == id)
}

/// `t` is `s` in the order of the identifiers; entries of one identifier keep their order.
pub open spec fn stably_sorted(s: Seq<ActiveEntry>, t: Seq<ActiveEntry>) -> bool {
    &&& by_id(t)
    &&& forall|id: ParaId| #[trigger] of_id(t, id) == of_id(s, id)
}

/// `s`, stably sorted by identifier.
pub open spec fn sorted_by_id(s: Seq<ActiveEntry>) -> Seq<ActiveEntry> {
    choose|t: Seq<ActiveEntry>| stably_sorted(s, t)
}

/// How a parachain is scheduled.
pub open spec fn chain_entry(id: ParaId) -> ActiveEntry {
    (id, None)
}

/// How a selected parathread is scheduled that was retried `retries` times.
pub open spec fn thread_entry(sel: Selection, retries: u32) -> ActiveEntry {
    (sel.0, Some((sel.1, Retriable::WithRetries(retries))))
}

/// What is retried in a block for which `next_up` was selected: nothing where the parathread was
/// selected anew.
pub open spec fn retrying(
    next: Option<(Selection, u32)>,
    next_up: Seq<Selection>,
) -> Option<(Selection, u32)> {
    match next {
        Some((sel, _)) => if exists|i: int|
            0 <= i < next_up.len() && (#[trigger] next_up[i]).0 == sel.0 {
            None
        } else {
            next
        },
        None => None,
    }
}

/// What one retry adds to the schedule.
pub open spec fn retry_entries(retry: Option<(Selection, u32)>) -> Seq<ActiveEntry> {
    match retry {
        Some((sel, retries)) => seq![thread_entry(sel, (retries + 1) as u32)],
        None => Seq::empty(),
    }
}

/// All that is scheduled for a block: the parachains, the selected parathreads, and the retry.
pub open spec fn upcoming(
    parachains: Seq<ParaId>,
    next_up: Seq<Selection>,
    retry: Option<(Selection, u32)>,
) -> Seq<ActiveEntry> {
    parachains.map_values(|id: ParaId| chain_entry(id)) + next_up.map_values(
        |sel: Selection| thread_entry(sel, 0),
    ) + retry_entries(retry)
}

/// What is to be retried of an entry that missed its block.
pub open spec fn to_retry(e: ActiveEntry) -> Seq<(Selection, u32)> {
    match e.1 {
        Some((c, Retriable::WithRetries(n))) => seq![((e.0, c), n)],
        _ => Seq::empty(),
    }
}

/// What is to be retried of the entries in `active` that missed their block, where `proceeded`
/// lists, in the order of `active`, the paras that did not.
pub open spec fn missed(active: Seq<ActiveEntry>, proceeded: Seq<ParaId>) -> Seq<(Selection, u32)>
    decreases active.len(),
{
    if active.len() == 0 {
        Seq::empty()
    } else if proceeded.len() > 0 && proceeded[0] == active[0].0 {
        missed(active.drop_first(), proceeded.drop_first())
    } else {
        to_retry(active[0]) + missed(active.drop_first(), proceeded)
    }
}

/// The retry queues once all of `list` is to be retried.
pub open spec fn all_retried_later(
    qs: Seq<Seq<Selection>>,
    list: Seq<(Selection, u32)>,
    max: u32,
) -> Seq<Seq<Selection>>
    decreases list.len(),
{
    if list.len() == 0 {
        qs
    } else {
        all_retried_later(
            retried_later(qs, list[0].0, list[0].1, max),
            list.drop_first(),
            max,
        )
    }
}

/// `e`, without a retry where its para matches.
pub open spec fn never_retried(e: ActiveEntry, matching: spec_fn(ParaId) -> bool) -> ActiveEntry {
    match e.1 {
        Some((c, _)) => if matching(e.0) {
            (e.0, Some((c, Retriable::Never)))
        } else {
            e
        },
        None => e,
    }
}

/// The schedule in which no para that matches is retried.
pub open spec fn all_never_retried(
    active: Seq<ActiveEntry>,
    matching: spec_fn(ParaId) -> bool,
) -> Seq<ActiveEntry> {
    active.map_values(|e: ActiveEntry| never_retried(e, matching))
}

/// An entry is among the entries of its para just where it is in the list.
pub proof fn lemma_of_id_contains(s: Seq<ActiveEntry>, e: ActiveEntry)
    ensures
        s.contains(e) <==> of_id(s, e.0).contains(e),
{
    let p = |x: ActiveEntry| x.0 == e.0;
    if s.contains(e) {
        let i = s.index_of(e);
        s.lemma_filter_contains(p, i);
    }
    if of_id(s, e.0).contains(e) {
        s.lemma_filter_contains_rev(p, e);
    }
}

/// A stably sorted list holds the same entries.
pub proof fn lemma_sorted_contains(s: Seq<ActiveEntry>, t: Seq<ActiveEntry>, e: ActiveEntry)
    requires
        stably_sorted(s, t),
    ensures
        t.contains(e) <==> s.contains(e),
{
    lemma_of_id_contains(s, e);
    lemma_of_id_contains(t, e);
    assert(of_id(t, e.0) == of_id(s, e.0));
}

proof fn lemma_of_id_count(s: Seq<ActiveEntry>, e: ActiveEntry)
    ensures
        s.to_multiset().count(e) == of_id(s, e.0).to_multiset().count(e),
    decreases s.len(),
{
    broadcast use vstd::multiset::group_multiset_axioms;

    reveal(Seq::filter);
    if s.len() > 0 {
        let r = s.drop_last();
        lemma_of_id_count(r, e);
        assert(s =~= r.push(s.last()));
        to_multiset_build(r, s.last());
        to_multiset_build(of_id(r, e.0), s.last());
    }
}

/// A stably sorted list holds each entry as often.
pub proof fn lemma_sorted_multiset(s: Seq<ActiveEntry>, t: Seq<ActiveEntry>)
    requires
        stably_sorted(s, t),
    ensures
        t.to_multiset() == s.to_multiset(),
{
    broadcast use vstd::multiset::group_multiset_axioms;

    assert forall|e: ActiveEntry| t.to_multiset().count(e) == s.to_multiset().count(e) by {
        lemma_of_id_count(s, e);
        lemma_of_id_count(t, e);
        assert(of_id(t, e.0) == of_id(s, e.0));
    }
    assert(t.to_multiset() =~= s.to_multiset());
}

/// There is one way only to sort a list stably.
pub proof fn lemma_sorted_unique(
    s: Seq<ActiveEntry>,
    t: Seq<ActiveEntry>,
    u: Seq<ActiveEntry>,
)
    requires
        stably_sorted(s, t),
        stably_sorted(s, u),
    ensures
        t == u,
{
    assert forall|id: ParaId| #[trigger] of_id(t, id) == of_id(u, id) by {
        assert(of_id(u, id) == of_id(s, id));
    }
    lemma_same_entries(t, u);
}

proof fn lemma_same_entries(t: Seq<ActiveEntry>, u: Seq<ActiveEntry>)
    requires
        by_id(t),
        by_id(u),
        forall|id: ParaId| #[trigger] of_id(t, id) == of_id(u, id),
    ensures
        t == u,
    decreases t.len(),
{
    reveal(Seq::filter);
    if t.len() == 0 {
        if u.len() > 0 {
            assert(of_id(u, u.last().0).len() > 0);
            assert(of_id(t, u.last().0).len() == 0);
        }
        assert(t =~= u);
    } else if u.len() == 0 {
        assert(of_id(t, t.last().0).len() > 0);
        assert(of_id(u, t.last().0).len() == 0);
    } else {
        let a = t.last();
        let b = u.last();
        lemma_of_id_contains(t, a);
        lemma_of_id_contains(u, a);
        lemma_of_id_contains(t, b);
        lemma_of_id_contains(u, b);
        assert(t[t.len() - 1] == a && u[u.len() - 1] == b);
        assert(t.contains(a) && u.contains(b));
        assert(of_id(t, a.0) == of_id(u, a.0));
        assert(of_id(t, b.0) == of_id(u, b.0));
        let i = u.index_of(a);
        let j = t.index_of(b);
        assert(u[i].0 <= u[u.len() - 1].0);
        assert(t[j].0 <= t[t.len() - 1].0);
        assert(a.0 == b.0);
        assert(of_id(t, a.0).last() == a);
        assert(of_id(u, b.0).last() == b);
        let t1 = t.drop_last();
        let u1 = u.drop_last();
        assert forall|id: ParaId| #[trigger] of_id(t1, id) == of_id(u1, id) by {
            assert(of_id(t, id) == of_id(u, id));
            if id == a.0 {
                assert(of_id(t, id) == of_id(t1, id).push(a));
                assert(of_id(u, id) == of_id(u1, id).push(a));
                assert(of_id(t1, id) =~= of_id(t, id).drop_last());
                assert(of_id(u1, id) =~= of_id(u, id).drop_last());
            }
        }
        lemma_same_entries(t1, u1);
        assert(t =~= t1.push(a));
        assert(u =~= u1.push(b));
    }
}

proof fn lemma_insert_sorted(s: Seq<ActiveEntry>, t: Seq<ActiveEntry>, e: ActiveEntry, k: int)
    requires
        stably_sorted(s, t),
        0 <= k <= t.len(),
        k > 0 ==> t[k - 1].0 <= e.0,
        k < t.len() ==> e.0 < t[k].0,
    ensures
        stably_sorted(s.push(e), t.insert(k, e)),
{
    let u = t.insert(k, e);
    assert forall|i: int, j: int| 0 <= i < j < u.len() implies (#[trigger] u[i]).0 <= (
    #[trigger] u[j]).0 by {
        if i < k {
            assert(i == k - 1 || t[i].0 <= t[k - 1].0);
        }
        if j > k {
            assert(j - 1 == k || t[k].0 <= t[j - 1].0);
        }
    }
    let front = t.take(k);
    let back = t.skip(k);
    assert(t =~= front + back);
    assert(u =~= front.push(e) + back);
    assert forall|id: ParaId| #[trigger] of_id(u, id) == of_id(s.push(e), id) by {
        let p = |x: ActiveEntry| x.0 == id;
        Seq::filter_distributes_over_add(front, back, p);
        Seq::filter_distributes_over_add(front.push(e), back, p);
        assert(front.push(e).drop_last() =~= front);
        assert(s.push(e).drop_last() =~= s);
        reveal(Seq::filter);
        assert(of_id(t, id) == of_id(s, id));
        if id == e.0 {
            assert forall|i: int| 0 <= i < back.len() implies !p(#[trigger] back[i]) by {
                assert(back[i] == t[k + i]);
                assert(i == 0 || t[k].0 <= t[k + i].0);
            }
            back.lemma_all_neg_filter_empty(p);
            assert(back.filter(p) =~= Seq::empty());
            assert(of_id(u, id) =~= of_id(t, id).push(e));
        } else {
            assert(of_id(u, id) =~= of_id(t, id));
        }
    }
}

spec fn insert_place(t: Seq<ActiveEntry>, e: ActiveEntry) -> int
    decreases t.len(),
{
    if t.len() > 0 && e.0 < t.last().0 {
        insert_place(t.drop_last(), e)
    } else {
        t.len() as int
    }
}

proof fn lemma_insert_place(t: Seq<ActiveEntry>, e: ActiveEntry)
    ensures
        0 <= insert_place(t, e) <= t.len(),
        insert_place(t, e) > 0 ==> t[insert_place(t, e) - 1].0 <= e.0,
        insert_place(t, e) < t.len() ==> e.0 < t[insert_place(t, e)].0,
    decreases t.len(),
{
    if t.len() > 0 && e.0 < t.last().0 {
        lemma_insert_place(t.drop_last(), e);
    }
}

/// Every list can be sorted stably.
pub proof fn lemma_sorted(s: Seq<ActiveEntry>)
    ensures
        stably_sorted(s, sorted_by_id(s)),
    decreases s.len(),
{
    if s.len() == 0 {
        assert(stably_sorted(s, s));
    } else {
        let r = s.drop_last();
        lemma_sorted(r);
        let t = sorted_by_id(r);
        let k = insert_place(t, s.last());
        lemma_insert_place(t, s.last());
        lemma_insert_sorted(r, t, s.last(), k);
        assert(s =~= r.push(s.last()));
        assert(stably_sorted(s, t.insert(k, s.last())));
    }
}

/// Puts `e` behind the entries of the same and of smaller identifiers.
fn insert_by_id(v: &mut Vec<ActiveEntry>, e: ActiveEntry, Ghost(s): Ghost<Seq<ActiveEntry>>)
    requires
        stably_sorted(s, old(v)@),
    ensures
        stably_sorted(s.push(e), final(v)@),
{
    let mut k: usize = v.len();
    while k > 0 && e.0 < v[k - 1].0
        invariant
            k <= v@.len(),
            k < v@.len() ==> e.0 < v@[k as int].0,
        decreases k,
    {
        k = k - 1;
    }
    proof {
        lemma_insert_sorted(s, v@, e, k as int);
    }
    v.insert(k, e);
}

/// Whether `id` is among the selected.
fn is_selected(list: &Vec<Selection>, id: ParaId) -> (r: bool)
    ensures
        r == exists|i: int| 0 <= i < list@.len() && (#[trigger] list@[i]).0 == id,
{
    let n: usize = list.len();
    for i in 0..n
        invariant
            n == list@.len(),
            forall|j: int| 0 <= j < i ==> (#[trigger] list@[j]).0 != id,
    {
        if list[i].0 == id {
            assert(list@[i as int].0 == id);
            return true;
        }
    }
    false
}

/// Puts together what is scheduled for a block, in the order of the identifiers. The head of the
/// retry queues is passed over where its parathread is selected for the block anyway.
pub fn schedule(
    parachains: &Vec<ParaId>,
    next_up: &Vec<Selection>,
    next: Option<(Selection, u32)>,
) -> (r: Vec<ActiveEntry>)
    requires
        next matches Some((_, retries)) ==> retries < u32::MAX,
    ensures
        r@ == sorted_by_id(upcoming(parachains@, next_up@, retrying(next, next_up@))),
{
    let mut retry: Option<(Selection, u32)> = next;
    if let Some((sel, _)) = next {
        if is_selected(next_up, sel.0) {
            retry = None;
        }
    }
    let ghost chains = parachains@.map_values(|id: ParaId| chain_entry(id));
    let ghost threads = next_up@.map_values(|sel: Selection| thread_entry(sel, 0));
    let mut r: Vec<ActiveEntry> = Vec::new();
    let n: usize = parachains.len();
    assert(stably_sorted(chains.take(0), r@)) by {
        assert(chains.take(0) =~= r@);
    }
    for i in 0..n
        invariant
            n == parachains@.len(),
            chains == parachains@.map_values(|id: ParaId| chain_entry(id)),
            stably_sorted(chains.take(i as int), r@),
    {
        insert_by_id(&mut r, (parachains[i], None), Ghost(chains.take(i as int)));
        assert(chains.take(i + 1) =~= chains.take(i as int).push(chains[i as int]));
    }
    let m: usize = next_up.len();
    assert(chains.take(n as int) + threads.take(0) =~= chains.take(n as int));
    assert(chains.take(n as int) =~= chains);
    for i in 0..m
        invariant
            m == next_up@.len(),
            threads == next_up@.map_values(|sel: Selection| thread_entry(sel, 0)),
            stably_sorted(chains + threads.take(i as int), r@),
    {
        let (para, collator): Selection = next_up[i];
        insert_by_id(
            &mut r,
            (para, Some((collator, Retriable::WithRetries(0)))),
            Ghost(chains + threads.take(i as int)),
        );
        assert(chains + threads.take(i + 1) =~= (chains + threads.take(i as int)).push(
            threads[i as int],
        ));
    }
    assert(threads.take(m as int) =~= threads);
    let ghost all = upcoming(parachains@, next_up@, retry);
    match retry {
        Some(((para, collator), retries)) => {
            insert_by_id(
                &mut r,
                (para, Some((collator, Retriable::WithRetries(retries + 1)))),
                Ghost(chains + threads),
            );
            assert(all =~= (chains + threads).push(
                thread_entry((para, collator), (retries + 1) as u32),
            ));
        },
        None => {
            assert(all =~= chains + threads);
        },
    }
    proof {
        lemma_sorted(all);
        lemma_sorted_unique(all, r@, sorted_by_id(all));
    }
    r
}

/// What stands behind in a list is queued behind.
pub proof fn lemma_retried_step(
    qs: Seq<Seq<Selection>>,
    a: Seq<(Selection, u32)>,
    b: Seq<(Selection, u32)>,
    max: u32,
)
    ensures
        all_retried_later(qs, a + b, max) == all_retried_later(
            all_retried_later(qs, a, max),
            b,
            max,
        ),
    decreases a.len(),
{
    if a.len() == 0 {
        assert(a + b =~= b);
    } else {
        assert((a + b).drop_first() =~= a.drop_first() + b);
        lemma_retried_step(retried_later(qs, a[0].0, a[0].1, max), a.drop_first(), b, max);
    }
}

/// Puts what missed its block into the retry queues.
pub fn retry_missed(
    qs: &mut Vec<Vec<Selection>>,
    active: &Vec<ActiveEntry>,
    proceeded: &Vec<ParaId>,
    max: u32,
)
    ensures
        contents(final(qs)@) == all_retried_later(
            contents(old(qs)@),
            missed(active@, proceeded@),
            max,
        ),
{
    let ghost start = contents(qs@);
    let ghost goal = all_retried_later(start, missed(active@, proceeded@), max);
    let n: usize = active.len();
    let m: usize = proceeded.len();
    let mut p: usize = 0;
    assert(active@.skip(0) =~= active@);
    assert(proceeded@.skip(0) =~= proceeded@);
    for i in 0..n
        invariant
            n == active@.len(),
            m == proceeded@.len(),
            p <= m,
            goal == all_retried_later(
                contents(qs@),
                missed(active@.skip(i as int), proceeded@.skip(p as int)),
                max,
            ),
    {
        let sched: ActiveEntry = active[i];
        let ghost rest = active@.skip(i as int);
        let ghost todo = proceeded@.skip(p as int);
        assert(rest[0] == sched);
        assert(rest.drop_first() =~= active@.skip(i + 1));
        assert(p < m ==> todo[0] == proceeded@[p as int]);
        if p < m && proceeded[p] == sched.0 {
            assert(todo.drop_first() =~= proceeded@.skip(p + 1));
            p = p + 1;
        } else {
            let ghost before = contents(qs@);
            let ghost later = missed(rest.drop_first(), todo);
            proof {
                lemma_retried_step(before, to_retry(sched), later, max);
            }
            if let (id, Some((c, Retriable::WithRetries(k)))) = sched {
                assert(to_retry(sched) =~= seq![((id, c), k)]);
                assert(to_retry(sched).drop_first() =~= Seq::empty());
                proof {
                    reveal_with_fuel(all_retried_later, 2);
                }
                retry_later(qs, (id, c), k, max);
            } else {
                assert(to_retry(sched) =~= Seq::empty());
            }
        }
    }
}

/// Keeps the paras that match from being retried.
pub(crate) fn never_retry<F: Fn(ParaId) -> bool>(
    active: &mut Vec<ActiveEntry>,
    m: &F,
    Ghost(matching): Ghost<spec_fn(ParaId) -> bool>,
)
    requires
        forall|id: ParaId| call_requires(*m, (id,)),
        forall|id: ParaId, b: bool| call_ensures(*m, (id,), b) ==> b == matching(id),
    ensures
        final(active)@ == all_never_retried(old(active)@, matching),
{
    let ghost start = active@;
    let n: usize = active.len();
    for i in 0..n
        invariant
            n == active@.len() == start.len(),
            forall|id: ParaId| call_requires(*m, (id,)),
            forall|id: ParaId, b: bool| call_ensures(*m, (id,), b) ==> b == matching(id),
            forall|j: int| 0 <= j < i ==> #[trigger] active@[j] == never_retried(start[j], matching),
            forall|j: int| i <= j < n ==> #[trigger] active@[j] == start[j],
    {
        let e: ActiveEntry = active[i];
        if m(e.0) {
            if let Some((c, _)) = e.1 {
                active[i] = (e.0, Some((c, Retriable::Never)));
            }
        }
    }
    assert(active@ =~= all_never_retried(start, matching));
}

} // verus!
