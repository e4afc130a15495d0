//! What holds of the registrar as a whole.

use crate::commits::head_hashed;
use crate::config::Trait;
use crate::hashing::{blake2_256, BlakeTwo256, Hashing};
use crate::ids::{
    ascending, ids_of, lemma_ascending_unique, lemma_swapped_ids, lemma_with_id, lemma_without_id,
    place, swapped_ids, with_selection,
};
use crate::module::genesis;
use crate::queues::{
    all_kept, any_waiting, first_waiting, is_first_waiting, kept, moved_up, queued,
    resized, retried_later,
};
use crate::schedule::{
    all_retried_later, by_id, chain_entry, lemma_retried_step, lemma_sorted,
    lemma_sorted_contains, lemma_sorted_multiset, missed, never_retried, of_id, retry_entries,
    sorted_by_id, thread_entry, to_retry, upcoming,
};
use crate::state::{entry, is, is_either, swapped_entries, State};
use crate::types::{
    ActiveEntry, CollatorId, Event, ParaId, ParaInfo, Scheduling, Selection, H256,
    LOWEST_USER_ID,
};
use crate::upkeep::{
    lemma_all_retried_len, lemma_block_begun_wf, lemma_block_ended_wf, lemma_deregistered_wf,
    lemma_first_waiting, lemma_kept, lemma_registered_wf, lemma_selected_wf, lemma_swapped_wf,
    lemma_unscheduled_wf, lemma_upcoming_contains, lemma_with_selection,
};
use crate::validity::{Error, InvalidTransaction};
use vstd::prelude::*;
use vstd::seq_lib::lemma_multiset_commutative;

verus! {

/// Whoever is registered cannot be registered again, and the attempt changes nothing.
pub proof fn law_registered_once<AccountId>(
    s: State<AccountId>,
    id: ParaId,
    info: ParaInfo,
    code: Seq<u8>,
    head: Seq<u8>,
    info2: ParaInfo,
    code2: Seq<u8>,
    head2: Seq<u8>,
)
    ensures
        ({
            let t = s.after_register(id, info, code, head);
            &&& t.paras.contains_key(id)
            &&& t.register_result(id) is Err
            &&& t.after_register(id, info2, code2, head2) == t
        }),
{
}

/// Deregistering undoes registering: nothing is left of the para.
pub proof fn law_deregister_undoes_register<AccountId>(
    s: State<AccountId>,
    id: ParaId,
    info: ParaInfo,
    code: Seq<u8>,
    head: Seq<u8>,
    max: u32,
)
    requires
        s.wf(max),
        s.register_result(id) is Ok,
    ensures
        ({
            let t = s.after_register(id, info, code, head);
            &&& t.deregister_result(id) is Ok
            &&& t.after_deregister(id) == (State { chains: s.chains.cleaned_up(id), ..s })
        }),
{
    let t = s.registered(id, info, code, head);
    let u = t.deregistered(id);
    assert(!s.parachains.contains(id));
    if info.scheduling is Always {
        lemma_with_id(s.parachains, id);
        lemma_without_id(t.parachains, id);
        assert forall|x: ParaId| s.parachains.contains(x) <==> #[trigger] u.parachains.contains(
            x,
        ) by {
            assert(t.parachains.contains(x) <==> x == id || s.parachains.contains(x));
        }
        lemma_ascending_unique(s.parachains, u.parachains);
    }
    assert(u.paras =~= s.paras);
    assert(u.chains =~= s.chains.cleaned_up(id));
}

/// Of a deregistered para neither record nor code nor head is left, and it cannot be deregistered
/// again.
pub proof fn law_deregistered_is_gone<AccountId>(s: State<AccountId>, id: ParaId, max: u32)
    requires
        s.wf(max),
    ensures
        ({
            let t = s.after_deregister(id);
            &&& !t.paras.contains_key(id)
            &&& !t.parachains.contains(id)
            &&& t.deregister_result(id) is Err
            &&& t.after_deregister(id) == t
            &&& s.paras.contains_key(id) ==> !t.chains.code.contains_key(id)
                && !t.chains.heads.contains_key(id)
        }),
{
    let t = s.after_deregister(id);
    if s.paras.contains_key(id) {
        lemma_deregistered_wf(s, id, max);
    }
    assert(t.parachains.contains(id) <==> t.is_chain(id));
}

/// What is registered of other paras is left alone by registering and deregistering.
pub proof fn law_others_unaffected<AccountId>(
    s: State<AccountId>,
    id: ParaId,
    info: ParaInfo,
    code: Seq<u8>,
    head: Seq<u8>,
    other: ParaId,
)
    requires
        other != id,
    ensures
        entry(s.after_register(id, info, code, head).paras, other) == entry(s.paras, other),
        entry(s.after_register(id, info, code, head).chains.code, other) == entry(
            s.chains.code,
            other,
        ),
        entry(s.after_register(id, info, code, head).chains.heads, other) == entry(
            s.chains.heads,
            other,
        ),
        entry(s.after_register(id, info, code, head).chains.watermarks, other) == entry(
            s.chains.watermarks,
            other,
        ),
        entry(s.after_deregister(id).paras, other) == entry(s.paras, other),
        entry(s.after_deregister(id).chains.code, other) == entry(s.chains.code, other),
        entry(s.after_deregister(id).chains.heads, other) == entry(s.chains.heads, other),
        entry(s.after_deregister(id).chains.watermarks, other) == entry(
            s.chains.watermarks,
            other,
        ),
{
}

/// `list` has an entry for `id`.
pub open spec fn listed(list: Seq<(ParaId, Seq<u8>, Seq<u8>)>, id: ParaId) -> bool {
    exists|i: int| 0 <= i < list.len() && (#[trigger] list[i]).0 == id
}

/// The entry of `list` at `i` is the first one for its identifier.
pub open spec fn listed_first(list: Seq<(ParaId, Seq<u8>, Seq<u8>)>, i: int) -> bool {
    &&& 0 <= i < list.len()
    &&& forall|j: int| 0 <= j < i ==> (#[trigger] list[j]).0 != list[i].0
}

proof fn lemma_listed(list: Seq<(ParaId, Seq<u8>, Seq<u8>)>, id: ParaId)
    requires
        list.len() > 0,
    ensures
        listed(list, id) <==> listed(list.drop_last(), id) || list.last().0 == id,
{
    let r = list.drop_last();
    if listed(list, id) {
        let i = choose|i: int| 0 <= i < list.len() && (#[trigger] list[i]).0 == id;
        if i < r.len() {
            assert(r[i].0 == id);
        }
    }
    if listed(r, id) {
        let i = choose|i: int| 0 <= i < r.len() && (#[trigger] r[i]).0 == id;
        assert(list[i].0 == id);
    }
    if list.last().0 == id {
        assert(list[list.len() - 1].0 == id);
    }
}

proof fn lemma_genesis_registered<AccountId>(list: Seq<(ParaId, Seq<u8>, Seq<u8>)>, max: u32)
    ensures
        genesis::<AccountId>(list).wf(max),
        forall|id: ParaId| #[trigger]
            genesis::<AccountId>(list).paras.contains_key(id) <==> listed(list, id),
        forall|id: ParaId| #[trigger]
            genesis::<AccountId>(list).paras.contains_key(id) ==> {
                &&& genesis::<AccountId>(list).is_chain(id)
                &&& entry(genesis::<AccountId>(list).chains.watermarks, id) == Some(0u64)
            },
        forall|id: ParaId|
            !#[trigger] genesis::<AccountId>(list).paras.contains_key(id) ==> {
                &&& entry(genesis::<AccountId>(list).chains.code, id) is None
                &&& entry(genesis::<AccountId>(list).chains.heads, id) is None
                &&& entry(genesis::<AccountId>(list).chains.watermarks, id) is None
            },
        genesis::<AccountId>(list) == (State {
            parachains: genesis::<AccountId>(list).parachains,
            paras: genesis::<AccountId>(list).paras,
            chains: genesis::<AccountId>(list).chains,
            ..State::<AccountId>::initial()
        }),
    decreases list.len(),
{
    let s = genesis::<AccountId>(list);
    if list.len() > 0 {
        let before = genesis::<AccountId>(list.drop_last());
        let (x, code, head) = list.last();
        lemma_genesis_registered::<AccountId>(list.drop_last(), max);
        assert forall|id: ParaId| #[trigger] s.paras.contains_key(id) <==> listed(list, id) by {
            lemma_listed(list, id);
            assert(before.paras.contains_key(id) <==> listed(list.drop_last(), id));
        }
        assert forall|id: ParaId| #[trigger] s.paras.contains_key(id) implies {
            &&& s.is_chain(id)
            &&& entry(s.chains.watermarks, id) == Some(0u64)
        } by {
            assert(before.paras.contains_key(id) || id == x);
        }
        assert forall|id: ParaId| !#[trigger] s.paras.contains_key(id) implies {
            &&& entry(s.chains.code, id) is None
            &&& entry(s.chains.heads, id) is None
            &&& entry(s.chains.watermarks, id) is None
        } by {
            assert(!before.paras.contains_key(id) && id != x);
        }
        if !before.paras.contains_key(x) {
            let info = ParaInfo { scheduling: Scheduling::Always };
            lemma_registered_wf(before, x, info, code, head, max);
            let t = before.registered(x, info, code, head);
            assert forall|id: ParaId| #[trigger] s.parachains.contains(id) <==> s.is_chain(id) by {
                assert(t.parachains.contains(id) <==> t.is_chain(id));
            }
        }
    }
}

proof fn lemma_genesis_first<AccountId>(list: Seq<(ParaId, Seq<u8>, Seq<u8>)>, i: int, max: u32)
    requires
        listed_first(list, i),
    ensures
        entry(genesis::<AccountId>(list).chains.code, list[i].0) == Some(list[i].1),
        entry(genesis::<AccountId>(list).chains.heads, list[i].0) == Some(list[i].2),
    decreases list.len(),
{
    let r = list.drop_last();
    let before = genesis::<AccountId>(r);
    lemma_genesis_registered::<AccountId>(r, max);
    assert(before.paras.contains_key(list[i].0) <==> listed(r, list[i].0));
    if i < r.len() {
        assert(listed_first(r, i)) by {
            assert forall|j: int| 0 <= j < i implies (#[trigger] r[j]).0 != r[i].0 by {
                assert(list[j].0 != list[i].0);
            }
        }
        assert(r[i].0 == list[i].0);
        lemma_genesis_first::<AccountId>(r, i, max);
    } else if listed(r, list[i].0) {
        let j = choose|j: int| 0 <= j < r.len() && (#[trigger] r[j]).0 == list[i].0;
        assert(list[j].0 == list[i].0);
    }
}

/// At genesis just the parachains of the list are registered, each with the code and the head of
/// its first entry, and with a watermark of zero. Nothing is kept of any other, nothing is
/// scheduled, and no identifier was handed out.
pub proof fn law_genesis<AccountId>(
    list: Seq<(ParaId, Seq<u8>, Seq<u8>)>,
    id: ParaId,
    max: u32,
)
    ensures
        ({
            let s = genesis::<AccountId>(list);
            &&& s.wf(max)
            &&& s.paras.contains_key(id) <==> listed(list, id)
            &&& s.paras.contains_key(id) ==> s.is_chain(id) && s.parachains.contains(id) && entry(
                s.chains.watermarks,
                id,
            ) == Some(0u64)
            &&& forall|i: int|
                #![trigger list[i]]
                listed_first(list, i) && list[i].0 == id ==> {
                    &&& entry(s.chains.code, id) == Some(list[i].1)
                    &&& entry(s.chains.heads, id) == Some(list[i].2)
                }
            &&& !listed(list, id) ==> {
                &&& entry(s.chains.code, id) is None
                &&& entry(s.chains.heads, id) is None
                &&& entry(s.chains.watermarks, id) is None
            }
            &&& s == (State {
                parachains: s.parachains,
                paras: s.paras,
                chains: s.chains,
                ..State::<AccountId>::initial()
            })
        }),
{
    let s = genesis::<AccountId>(list);
    lemma_genesis_registered::<AccountId>(list, max);
    assert(s.parachains.contains(id) <==> s.is_chain(id));
    assert forall|i: int| #![trigger list[i]] listed_first(list, i) && list[i].0 == id implies {
        &&& entry(s.chains.code, id) == Some(list[i].1)
        &&& entry(s.chains.heads, id) == Some(list[i].2)
    } by {
        lemma_genesis_first::<AccountId>(list, i, max);
    }
}

/// The first half of a swap is noted, and changes nothing else.
pub proof fn law_half_a_swap<AccountId>(s: State<AccountId>, id: ParaId, other: ParaId)
    ensures
        entry(s.swap_asked(id, other).pending_swap, id) == Some(other),
        s.swap_asked(id, other) == (State {
            pending_swap: s.swap_asked(id, other).pending_swap,
            ..s
        }),
        forall|x: ParaId|
            x != id ==> entry(#[trigger] s.swap_asked(id, other).pending_swap, x) == entry(
                s.pending_swap,
                x,
            ),
{
}

/// Once `id` has asked for a swap with `other`, a call of `other` completes it, and the wish is
/// no longer noted.
pub proof fn law_both_halves_swap<AccountId>(s: State<AccountId>, id: ParaId, other: ParaId)
    ensures
        s.swap_asked(id, other).swap_pending(other, id),
        entry(s.swap_asked(id, other).swapped(other, id).pending_swap, id) is None,
{
}

proof fn lemma_entries_swapped<V>(m: Map<ParaId, V>, one: ParaId, other: ParaId, x: ParaId)
    requires
        x != one,
        x != other,
    ensures
        entry(swapped_entries(m, one, other), one) == entry(m, other),
        entry(swapped_entries(m, one, other), other) == entry(m, one),
        entry(swapped_entries(m, one, other), x) == entry(m, x),
{
}

/// A swap switches how the two are scheduled and who paid their deposits. Code and heads stay,
/// and so does what is registered of all other paras.
pub proof fn law_swap_switches<AccountId>(
    s: State<AccountId>,
    id: ParaId,
    other: ParaId,
    x: ParaId,
    max: u32,
)
    requires
        s.wf(max),
        x != id,
        x != other,
    ensures
        ({
            let t = s.swapped(id, other);
            &&& entry(t.paras, id) == entry(s.paras, other)
            &&& entry(t.paras, other) == entry(s.paras, id)
            &&& entry(t.paras, x) == entry(s.paras, x)
            &&& entry(t.debtors, id) == entry(s.debtors, other)
            &&& entry(t.debtors, other) == entry(s.debtors, id)
            &&& entry(t.debtors, x) == entry(s.debtors, x)
            &&& t.parachains.contains(id) <==> s.parachains.contains(other)
            &&& t.parachains.contains(other) <==> s.parachains.contains(id)
            &&& t.parachains.contains(x) <==> s.parachains.contains(x)
            &&& t.chains == s.chains
        }),
{
    lemma_swapped_ids(s.parachains, id, other);
    lemma_entries_swapped(s.paras, id, other, x);
    lemma_entries_swapped(s.debtors, id, other, x);
}

proof fn lemma_swapped_back<V>(m: Map<ParaId, V>, one: ParaId, other: ParaId)
    ensures
        swapped_entries(swapped_entries(m, one, other), one, other) == m,
{
    assert(swapped_entries(swapped_entries(m, one, other), one, other) =~= m);
}

/// A second swap of the same two puts everything back but the schedule.
pub proof fn law_swap_back<AccountId>(
    s: State<AccountId>,
    id: ParaId,
    other: ParaId,
    max: u32,
)
    requires
        s.wf(max),
    ensures
        ({
            let t = s.swapped(id, other).swapped(id, other);
            &&& t.paras == s.paras
            &&& t.debtors == s.debtors
            &&& t.parachains == s.parachains
            &&& t.chains == s.chains
        }),
{
    lemma_swapped_back(s.paras, id, other);
    lemma_swapped_back(s.debtors, id, other);
    let t = s.swapped(id, other);
    lemma_swapped_ids(s.parachains, id, other);
    lemma_swapped_ids(t.parachains, id, other);
    let back = swapped_ids(t.parachains, id, other);
    assert forall|x: ParaId| s.parachains.contains(x) <==> #[trigger] back.contains(x) by {
        if x != id && x != other {
            assert(t.parachains.contains(x) <==> s.parachains.contains(x));
        }
    }
    lemma_ascending_unique(s.parachains, back);
}

/// Some entry of `active` that may be retried is one of `id`.
pub open spec fn may_be_retried(active: Seq<ActiveEntry>, id: ParaId) -> bool {
    exists|i: int|
        0 <= i < active.len() && (#[trigger] active[i]).0 == id && to_retry(active[i]).len() > 0
}

/// `id` is selected for no block, waits for no retry, and will not.
pub open spec fn out_of_schedule<AccountId>(s: State<AccountId>, id: ParaId) -> bool {
    &&& !queued(s.selected_threads, id)
    &&& !queued(s.retry_queue, id)
    &&& !may_be_retried(s.active, id)
}

proof fn lemma_kept_queue(
    qs: Seq<Seq<Selection>>,
    matching: spec_fn(ParaId) -> bool,
    i: int,
    e: Selection,
)
    requires
        0 <= i < qs.len(),
    ensures
        all_kept(qs, matching)[i].contains(e) <==> qs[i].contains(e) && !matching(e.0),
{
    lemma_kept(qs[i], matching);
    assert(all_kept(qs, matching)[i] == kept(qs[i], matching));
}

proof fn lemma_not_queued(qs: Seq<Seq<Selection>>, matching: spec_fn(ParaId) -> bool, id: ParaId)
    requires
        matching(id),
    ensures
        !queued(all_kept(qs, matching), id),
{
    let ks = all_kept(qs, matching);
    if queued(ks, id) {
        let i = choose|i: int| 0 <= i < ks.len() && ids_of(#[trigger] ks[i]).contains(id);
        let k = ids_of(ks[i]).index_of(id);
        let e = ks[i][k];
        assert(ks[i].contains(e));
        lemma_kept_queue(qs, matching, i, e);
    }
}

/// Paras that are removed from the schedule are out of it; all others keep their places in the
/// queues, and their entries among the active paras.
pub proof fn law_unscheduled<AccountId>(
    s: State<AccountId>,
    matching: spec_fn(ParaId) -> bool,
    id: ParaId,
    collator: CollatorId,
)
    ensures
        matching(id) ==> out_of_schedule(s.unscheduled(matching), id),
        !matching(id) ==> forall|i: int|
            0 <= i < s.selected_threads.len() ==> (s.unscheduled(
                matching,
            ).selected_threads[i].contains((id, collator)) <==> (
            #[trigger] s.selected_threads[i]).contains((id, collator))),
        !matching(id) ==> forall|i: int|
            0 <= i < s.retry_queue.len() ==> (s.unscheduled(matching).retry_queue[i].contains(
                (id, collator),
            ) <==> (#[trigger] s.retry_queue[i]).contains((id, collator))),
        !matching(id) ==> forall|i: int|
            0 <= i < s.active.len() && (#[trigger] s.active[i]).0 == id ==> s.unscheduled(
                matching,
            ).active[i] == s.active[i],
{
    let t = s.unscheduled(matching);
    if matching(id) {
        lemma_not_queued(s.selected_threads, matching, id);
        lemma_not_queued(s.retry_queue, matching, id);
        if may_be_retried(t.active, id) {
            let i = choose|i: int|
                0 <= i < t.active.len() && (#[trigger] t.active[i]).0 == id && to_retry(
                    t.active[i],
                ).len() > 0;
            assert(t.active[i] == never_retried(s.active[i], matching));
        }
    } else {
        assert forall|i: int| 0 <= i < s.selected_threads.len() implies (
        t.selected_threads[i].contains((id, collator)) <==> (
        #[trigger] s.selected_threads[i]).contains((id, collator))) by {
            lemma_kept_queue(s.selected_threads, matching, i, (id, collator));
        }
        assert forall|i: int| 0 <= i < s.retry_queue.len() implies (t.retry_queue[i].contains(
            (id, collator),
        ) <==> (#[trigger] s.retry_queue[i]).contains((id, collator))) by {
            lemma_kept_queue(s.retry_queue, matching, i, (id, collator));
        }
    }
}

/// Matches what `one` matches and what `other` matches.
pub open spec fn either_of(
    one: spec_fn(ParaId) -> bool,
    other: spec_fn(ParaId) -> bool,
) -> spec_fn(ParaId) -> bool {
    |id: ParaId| one(id) || other(id)
}

proof fn lemma_kept_twice(
    q: Seq<Selection>,
    one: spec_fn(ParaId) -> bool,
    other: spec_fn(ParaId) -> bool,
)
    ensures
        kept(kept(q, one), other) == kept(q, either_of(one, other)),
    decreases q.len(),
{
    reveal(Seq::filter);
    if q.len() > 0 {
        lemma_kept_twice(q.drop_last(), one, other);
        let k = kept(q.drop_last(), one);
        assert(k.push(q.last()).drop_last() =~= k);
    }
}

proof fn lemma_none_kept(q: Seq<Selection>)
    ensures
        kept(q, |id: ParaId| false) == q,
    decreases q.len(),
{
    reveal(Seq::filter);
    if q.len() > 0 {
        lemma_none_kept(q.drop_last());
        assert(q.drop_last().push(q.last()) =~= q);
    }
}

proof fn lemma_unscheduled_twice<AccountId>(
    s: State<AccountId>,
    one: spec_fn(ParaId) -> bool,
    other: spec_fn(ParaId) -> bool,
)
    ensures
        s.unscheduled(one).unscheduled(other) == s.unscheduled(either_of(one, other)),
{
    let t = s.unscheduled(one).unscheduled(other);
    let u = s.unscheduled(either_of(one, other));
    assert forall|i: int| 0 <= i < s.selected_threads.len() implies t.selected_threads[i]
        == u.selected_threads[i] by {
        lemma_kept_twice(s.selected_threads[i], one, other);
    }
    assert forall|i: int| 0 <= i < s.retry_queue.len() implies t.retry_queue[i]
        == u.retry_queue[i] by {
        lemma_kept_twice(s.retry_queue[i], one, other);
    }
    assert(t.selected_threads =~= u.selected_threads);
    assert(t.retry_queue =~= u.retry_queue);
    assert(t.active =~= u.active);
}

/// To remove from the schedule what one test matches, and then what another matches, is to remove
/// at once what either matches; the order of the two makes no difference, and to remove the same
/// again changes nothing.
pub proof fn law_unscheduled_together<AccountId>(
    s: State<AccountId>,
    one: spec_fn(ParaId) -> bool,
    other: spec_fn(ParaId) -> bool,
)
    ensures
        s.unscheduled(one).unscheduled(other) == s.unscheduled(either_of(one, other)),
        s.unscheduled(one).unscheduled(other) == s.unscheduled(other).unscheduled(one),
        s.unscheduled(one).unscheduled(one) == s.unscheduled(one),
{
    lemma_unscheduled_twice(s, one, other);
    lemma_unscheduled_twice(s, other, one);
    lemma_unscheduled_twice(s, one, one);
    assert(either_of(one, other) =~= either_of(other, one));
    assert(either_of(one, one) =~= one);
}

/// Nothing is removed from the schedule where nothing matches.
pub proof fn law_none_unscheduled<AccountId>(s: State<AccountId>)
    ensures
        s.unscheduled(|id: ParaId| false) == s,
{
    let t = s.unscheduled(|id: ParaId| false);
    assert forall|i: int| 0 <= i < s.selected_threads.len() implies t.selected_threads[i]
        == s.selected_threads[i] by {
        lemma_none_kept(s.selected_threads[i]);
    }
    assert forall|i: int| 0 <= i < s.retry_queue.len() implies t.retry_queue[i]
        == s.retry_queue[i] by {
        lemma_none_kept(s.retry_queue[i]);
    }
    assert(t.selected_threads =~= s.selected_threads);
    assert(t.retry_queue =~= s.retry_queue);
    assert(t.active =~= s.active);
}

/// A parathread that was deregistered, and both of two paras that were swapped, are out of the
/// schedule.
pub proof fn law_removed_from_schedule<AccountId>(s: State<AccountId>, id: ParaId, other: ParaId)
    ensures
        out_of_schedule(s.parathread_deregistered(id), id),
        out_of_schedule(s.swapped(id, other), id),
        out_of_schedule(s.swapped(id, other), other),
{
    let nobody = vstd::pervasive::arbitrary::<CollatorId>();
    law_unscheduled(s.deregistered(id), is(id), id, nobody);
    law_unscheduled(s, is_either(id, other), id, nobody);
    law_unscheduled(s, is_either(id, other), other, nobody);
}

proof fn lemma_retried_queued(
    qs: Seq<Seq<Selection>>,
    list: Seq<(Selection, u32)>,
    max: u32,
    id: ParaId,
)
    requires
        !queued(qs, id),
        forall|i: int| 0 <= i < list.len() ==> (#[trigger] list[i]).0.0 != id,
    ensures
        !queued(all_retried_later(qs, list, max), id),
    decreases list.len(),
{
    if list.len() > 0 {
        let sel = list[0].0;
        let n = list[0].1;
        let rs = retried_later(qs, sel, n, max);
        assert(!queued(rs, id)) by {
            if queued(rs, id) && n < max {
                let i = choose|i: int| 0 <= i < rs.len() && ids_of(#[trigger] rs[i]).contains(id);
                let k = ids_of(rs[i]).index_of(id);
                assert(rs[i][k].0 == id);
                let zs = resized(qs, max as nat);
                if i < qs.len() {
                    assert(zs[i] == qs[i]);
                    assert(k < qs[i].len());
                    assert(qs[i][k].0 == id);
                    assert(ids_of(qs[i])[k] == id);
                    assert(ids_of(qs[i]).contains(id));
                }
            }
        }
        let rest = list.drop_first();
        assert forall|i: int| 0 <= i < rest.len() implies (#[trigger] rest[i]).0.0 != id by {
            assert(rest[i] == list[i + 1]);
        }
        lemma_retried_queued(rs, rest, max, id);
    }
}

proof fn lemma_missed_from(active: Seq<ActiveEntry>, proceeded: Seq<ParaId>, i: int)
    requires
        0 <= i < missed(active, proceeded).len(),
    ensures
        exists|j: int|
            0 <= j < active.len() && #[trigger] active[j] == thread_entry(
                missed(active, proceeded)[i].0,
                missed(active, proceeded)[i].1,
            ),
    decreases active.len(),
{
    let m = missed(active, proceeded);
    if active.len() > 0 {
        let rest = active.drop_first();
        if proceeded.len() > 0 && proceeded[0] == active[0].0 {
            lemma_missed_from(rest, proceeded.drop_first(), i);
            let j = choose|j: int|
                0 <= j < rest.len() && #[trigger] rest[j] == thread_entry(m[i].0, m[i].1);
            assert(active[j + 1] == rest[j]);
        } else {
            let k = to_retry(active[0]).len();
            if i < k {
                assert(m[i] == to_retry(active[0])[i]);
                assert(active[0] == thread_entry(m[i].0, m[i].1));
            } else {
                lemma_missed_from(rest, proceeded, i - k);
                assert(m[i] == missed(rest, proceeded)[i - k]);
                let j = choose|j: int|
                    0 <= j < rest.len() && #[trigger] rest[j] == thread_entry(m[i].0, m[i].1);
                assert(active[j + 1] == rest[j]);
            }
        }
    }
}

/// What is out of the schedule stays out of it when the block ends.
pub proof fn law_out_at_end<AccountId>(
    s: State<AccountId>,
    did_update: Option<Seq<ParaId>>,
    max: u32,
    id: ParaId,
)
    requires
        out_of_schedule(s, id),
    ensures
        out_of_schedule(s.block_ended(did_update, max), id),
{
    if let Some(proceeded) = did_update {
        let m = missed(s.active, proceeded);
        assert forall|i: int| 0 <= i < m.len() implies (#[trigger] m[i]).0.0 != id by {
            lemma_missed_from(s.active, proceeded, i);
            let j = choose|j: int|
                0 <= j < s.active.len() && #[trigger] s.active[j] == thread_entry(
                    m[i].0,
                    m[i].1,
                );
            assert(to_retry(s.active[j]).len() > 0);
        }
        lemma_retried_queued(s.retry_queue, m, max, id);
    }
}

proof fn lemma_moved_up_queue(qs: Seq<Seq<Selection>>, size: nat, i: int)
    requires
        0 <= i < moved_up(qs, size).len(),
        size > 0 || qs.len() > 0,
    ensures
        ({
            let shift: int = if qs.len() >= size {
                1
            } else {
                0
            };
            if i + shift < qs.len() {
                moved_up(qs, size)[i] == qs[i + shift]
            } else {
                moved_up(qs, size)[i].len() == 0
            }
        }),
{
}

/// What is out of the schedule is not active in the next block, unless it is a parachain, and
/// stays out.
pub proof fn law_out_at_beginning<AccountId>(
    s: State<AccountId>,
    queue_size: usize,
    id: ParaId,
)
    requires
        queue_size > 0 || s.selected_threads.len() > 0,
        out_of_schedule(s, id),
    ensures
        out_of_schedule(s.block_begun(queue_size), id),
        forall|e: ActiveEntry|
            #[trigger] s.block_begun(queue_size).active.contains(e) && e.0 == id ==> e
                == chain_entry(id) && s.parachains.contains(id),
{
    let t = s.block_begun(queue_size);
    let up = s.next_up(queue_size);
    let retry = s.next_retry(queue_size);
    if any_waiting(s.retry_queue) {
        lemma_first_waiting(s.retry_queue);
        let k = first_waiting(s.retry_queue);
        let q = s.retry_queue[k];
        if q[0].0 == id {
            assert(ids_of(q)[0] == id);
            assert(ids_of(s.retry_queue[k]).contains(id));
        }
    }
    assert forall|i: int| 0 <= i < up.len() implies (#[trigger] up[i]).0 != id by {
        if up[i].0 == id {
            let q = s.selected_threads[0];
            assert(ids_of(q)[i] == id);
            assert(ids_of(s.selected_threads[0]).contains(id));
        }
    }
    assert forall|e: ActiveEntry| #[trigger] t.active.contains(e) && e.0 == id implies e
        == chain_entry(id) && s.parachains.contains(id) by {
        lemma_upcoming_contains(s.parachains, up, retry, e);
    }
    if may_be_retried(t.active, id) {
        let i = choose|i: int|
            0 <= i < t.active.len() && (#[trigger] t.active[i]).0 == id && to_retry(
                t.active[i],
            ).len() > 0;
        assert(t.active.contains(t.active[i]));
    }
    if queued(t.selected_threads, id) {
        let qs = t.selected_threads;
        let i = choose|i: int| 0 <= i < qs.len() && ids_of(#[trigger] qs[i]).contains(id);
        lemma_moved_up_queue(s.selected_threads, queue_size as nat, i);
        let shift: int = if s.selected_threads.len() >= queue_size {
            1
        } else {
            0
        };
        assert(ids_of(s.selected_threads[i + shift]).contains(id));
    }
    if queued(t.retry_queue, id) {
        let qs = t.retry_queue;
        let i = choose|i: int| 0 <= i < qs.len() && ids_of(#[trigger] qs[i]).contains(id);
        let k = ids_of(qs[i]).index_of(id);
        assert(qs[i][k].0 == id);
        if any_waiting(s.retry_queue) && i == first_waiting(s.retry_queue) {
            assert(s.retry_queue[i][k + 1] == qs[i][k]);
            assert(ids_of(s.retry_queue[i])[k + 1] == id);
        } else {
            assert(qs[i] == s.retry_queue[i]);
        }
        assert(ids_of(s.retry_queue[i]).contains(id));
    }
}

/// A block begins with all parachains active, all parathreads that were selected for it, and the
/// head of the retry queues unless it was selected anew; nothing else, each as often as it is
/// listed there, and all in the order of their identifiers.
pub proof fn law_active<AccountId>(s: State<AccountId>, queue_size: usize, e: ActiveEntry)
    ensures
        s.block_begun(queue_size).active.contains(e) <==> {
            ||| s.parachains.contains(e.0) && e == chain_entry(e.0)
            ||| exists|i: int|
                0 <= i < s.next_up(queue_size).len() && e == thread_entry(
                    #[trigger] s.next_up(queue_size)[i],
                    0,
                )
            ||| (s.next_retry(queue_size) matches Some((sel, n)) && e == thread_entry(
                sel,
                (n + 1) as u32,
            ))
        },
        s.block_begun(queue_size).active.to_multiset() == s.parachains.map_values(
            |id: ParaId| chain_entry(id),
        ).to_multiset().add(
            s.next_up(queue_size).map_values(|sel: Selection| thread_entry(sel, 0)).to_multiset(),
        ).add(retry_entries(s.next_retry(queue_size)).to_multiset()),
        by_id(s.block_begun(queue_size).active),
{
    let retry = s.next_retry(queue_size);
    let chains = s.parachains.map_values(|id: ParaId| chain_entry(id));
    let threads = s.next_up(queue_size).map_values(|sel: Selection| thread_entry(sel, 0));
    let all = upcoming(s.parachains, s.next_up(queue_size), retry);
    lemma_sorted(all);
    lemma_sorted_multiset(all, sorted_by_id(all));
    lemma_multiset_commutative(chains, threads);
    lemma_multiset_commutative(chains + threads, retry_entries(retry));
    lemma_upcoming_contains(s.parachains, s.next_up(queue_size), retry, e);
    match retry {
        Some((sel, n)) => {
            let one = thread_entry(sel, (n + 1) as u32);
            assert(retry_entries(retry) =~= seq![one]);
            if e == one {
                assert(retry_entries(retry)[0] == e);
            }
        },
        None => {},
    }
}

/// No entry is active twice, and no parathread has two entries in a block.
pub proof fn law_active_once<AccountId>(s: State<AccountId>, queue_size: usize, max: u32)
    requires
        s.wf(max),
        can_begin(s, 1, queue_size),
    ensures
        s.block_begun(queue_size).active.no_duplicates(),
        forall|i: int, j: int|
            0 <= i < j < s.block_begun(queue_size).active.len() && (#[trigger] s.block_begun(
                queue_size,
            ).active[i]).1 is Some && (#[trigger] s.block_begun(queue_size).active[j]).1 is Some
                ==> s.block_begun(queue_size).active[i].0 != s.block_begun(queue_size).active[j].0,
{
    let up = s.next_up(queue_size);
    let retry = s.next_retry(queue_size);
    let all = upcoming(s.parachains, up, retry);
    let t = s.block_begun(queue_size).active;
    let chains = s.parachains.map_values(|id: ParaId| chain_entry(id));
    let threads = up.map_values(|sel: Selection| thread_entry(sel, 0));
    let last = retry_entries(retry);
    assert(ascending(ids_of(up))) by {
        if s.selected_threads.len() >= queue_size {
            assert(ascending(ids_of(s.selected_threads[0])));
        }
    }
    assert forall|i: int, j: int| 0 <= i < j < all.len() implies {
        &&& #[trigger] all[i] != #[trigger] all[j]
        &&& all[i].1 is Some && all[j].1 is Some ==> all[i].0 != all[j].0
    } by {
        let n = chains.len();
        let m = n + threads.len();
        if j < n {
            assert(all[i] == chains[i] && all[j] == chains[j]);
            assert(s.parachains[i] < s.parachains[j]);
        } else if i < n {
            assert(all[i] == chains[i]);
            assert(all[j].1 is Some);
        } else if j < m {
            assert(all[i] == threads[i - n] && all[j] == threads[j - n]);
            assert(ids_of(up)[i - n] < ids_of(up)[j - n]);
        } else {
            assert(all[i] == threads[i - n] && all[j] == last[j - m]);
            assert(up[i - n].0 == all[i].0);
        }
    }
    lemma_sorted(all);
    lemma_sorted_multiset(all, t);
    all.lemma_multiset_has_no_duplicates();
    t.lemma_multiset_has_no_duplicates_conv();
    assert forall|i: int, j: int|
        0 <= i < j < t.len() && (#[trigger] t[i]).1 is Some && (
        #[trigger] t[j]).1 is Some implies t[i].0 != t[j].0 by {
        assert(t.contains(t[i]) && t.contains(t[j]));
        lemma_sorted_contains(all, t, t[i]);
        lemma_sorted_contains(all, t, t[j]);
        let a = all.index_of(t[i]);
        let b = all.index_of(t[j]);
        assert(all[a] == t[i] && all[b] == t[j]);
        assert(t[i] != t[j]);
        assert(a != b);
    }
}

/// The state after as many blocks as there are updates: before each block begins, the one before
/// it ends.
pub open spec fn after_blocks<AccountId>(
    s: State<AccountId>,
    updates: Seq<Option<Seq<ParaId>>>,
    queue_size: usize,
    max: u32,
) -> State<AccountId>
    decreases updates.len(),
{
    if updates.len() == 0 {
        s
    } else {
        after_blocks(s, updates.drop_last(), queue_size, max).block_ended(
            updates.last(),
            max,
        ).block_begun(queue_size)
    }
}

/// So many blocks can begin in a row: a queue without items runs out of them.
pub open spec fn can_begin<AccountId>(
    s: State<AccountId>,
    blocks: nat,
    queue_size: usize,
) -> bool {
    queue_size > 0 || blocks <= s.selected_threads.len()
}

proof fn lemma_runs_out<AccountId>(
    s: State<AccountId>,
    updates: Seq<Option<Seq<ParaId>>>,
    max: u32,
)
    requires
        updates.len() <= s.selected_threads.len(),
    ensures
        after_blocks(s, updates, 0, max).selected_threads.len() == s.selected_threads.len()
            - updates.len(),
    decreases updates.len(),
{
    if updates.len() > 0 {
        lemma_runs_out(s, updates.drop_last(), max);
    }
}

proof fn lemma_next_can_begin<AccountId>(
    s: State<AccountId>,
    updates: Seq<Option<Seq<ParaId>>>,
    queue_size: usize,
    max: u32,
)
    requires
        updates.len() > 0,
        can_begin(s, updates.len(), queue_size),
    ensures
        can_begin(s, updates.drop_last().len(), queue_size),
        can_begin(after_blocks(s, updates.drop_last(), queue_size, max), 1, queue_size),
{
    if queue_size == 0 {
        lemma_runs_out(s, updates.drop_last(), max);
    }
}

/// How many blocks go by before the first of the queue is taken out: a queue that is not filled
/// yet is filled first.
pub open spec fn blocks_to_fill<AccountId>(s: State<AccountId>, queue_size: usize) -> int {
    if s.selected_threads.len() >= queue_size {
        0
    } else {
        1
    }
}

proof fn lemma_moves_up<AccountId>(
    s: State<AccountId>,
    updates: Seq<Option<Seq<ParaId>>>,
    queue_size: usize,
    max: u32,
    k: int,
)
    requires
        updates.len() - blocks_to_fill(s, queue_size) <= k < s.selected_threads.len(),
        updates.len() > 0 || blocks_to_fill(s, queue_size) == 0,
    ensures
        ({
            let t = after_blocks(s, updates, queue_size, max);
            let at = k - updates.len() + blocks_to_fill(s, queue_size);
            &&& t.selected_threads.len() >= queue_size
            &&& t.selected_threads.len() > at
            &&& t.selected_threads[at] == s.selected_threads[k]
        }),
    decreases updates.len(),
{
    if updates.len() > 0 {
        let before = after_blocks(s, updates.drop_last(), queue_size, max);
        let ended = before.block_ended(updates.last(), max);
        assert(ended.selected_threads == before.selected_threads);
        let qs = before.selected_threads;
        let i = k - updates.len() + blocks_to_fill(s, queue_size);
        if updates.len() == 1 && blocks_to_fill(s, queue_size) == 1 {
            assert(moved_up(qs, queue_size as nat)[k] == qs[k]);
        } else {
            lemma_moves_up(s, updates.drop_last(), queue_size, max, k);
            assert(moved_up(qs, queue_size as nat)[i] == qs[i + 1]);
        }
    }
}

/// What is selected for the block at `k` becomes active, in its first attempt, when `k` more
/// blocks and one have begun, and one block later where the queue is not filled yet.
pub proof fn law_selected_comes_up<AccountId>(
    s: State<AccountId>,
    updates: Seq<Option<Seq<ParaId>>>,
    queue_size: usize,
    max: u32,
    k: int,
    sel: Selection,
)
    requires
        0 <= k < s.selected_threads.len(),
        s.selected_threads[k].contains(sel),
        updates.len() == k + 1 + blocks_to_fill(s, queue_size),
    ensures
        after_blocks(s, updates, queue_size, max).active.contains(thread_entry(sel, 0)),
{
    lemma_moves_up(s, updates.drop_last(), queue_size, max, k);
    let ended = after_blocks(s, updates.drop_last(), queue_size, max).block_ended(
        updates.last(),
        max,
    );
    let up = ended.next_up(queue_size);
    assert(up == s.selected_threads[k]);
    let i = up.index_of(sel);
    assert(up[i] == sel);
    law_active(ended, queue_size, thread_entry(sel, 0));
}

/// Once a block has begun, as many blocks are queued as the queue has items, or more.
pub proof fn law_queue_filled<AccountId>(s: State<AccountId>, queue_size: usize)
    ensures
        s.block_begun(queue_size).selected_threads.len() >= queue_size,
{
}

/// A parathread that may be selected is found among those for the last block of the queue once it
/// is, beside those selected before and no others; there are no more than may be scheduled per
/// block. What is selected for the blocks before stays.
pub proof fn law_selected<AccountId>(
    s: State<AccountId>,
    id: ParaId,
    collator: CollatorId,
    max: u32,
)
    requires
        s.wf(max),
        s.selection_refused(id) is None,
    ensures
        ({
            let t = s.selected(id, collator);
            &&& t.selected_threads.len() == s.open_queues().len()
            &&& t.selected_threads.last().contains((id, collator))
            &&& t.selected_threads.last().len() == s.open_queues().last().len() + 1
            &&& t.selected_threads.last().len() <= t.thread_count
            &&& forall|e: Selection| #[trigger]
                t.selected_threads.last().contains(e) <==> e == (id, collator)
                    || s.open_queues().last().contains(e)
            &&& t.selected_threads.drop_last() == s.open_queues().drop_last()
        }),
{
    let q = s.open_queues().last();
    assert(ascending(ids_of(q)));
    lemma_with_selection(q, id, collator);
    lemma_with_id(ids_of(q), id);
    let t = s.selected(id, collator);
    let p = place(ids_of(q), id);
    let w = t.selected_threads.last();
    assert(w == q.insert(p, (id, collator)));
    assert forall|e: Selection| #[trigger] w.contains(e) <==> e == (id, collator) || q.contains(
        e,
    ) by {
        if q.contains(e) {
            let i = q.index_of(e);
            assert(w[if i < p {
                i
            } else {
                i + 1
            }] == e);
        }
        if w.contains(e) {
            let i = w.index_of(e);
            if i != p {
                assert(q[if i < p {
                    i
                } else {
                    i - 1
                }] == e);
            }
        }
    }
    assert(t.selected_threads.drop_last() =~= s.open_queues().drop_last());
}

/// A parathread that was selected for a block cannot be selected for it again, whoever collates.
pub proof fn law_no_duplicates<AccountId>(
    s: State<AccountId>,
    id: ParaId,
    collator: CollatorId,
    max: u32,
)
    requires
        s.wf(max),
        s.selection_refused(id) is None,
    ensures
        ({
            let t = s.selected(id, collator);
            t.selection_refused(id) == Some(
                if t.selected_threads.last().len() >= t.thread_count {
                    InvalidTransaction::ExhaustsResources
                } else {
                    InvalidTransaction::Custom(Error::Duplicate.spec_code())
                },
            )
        }),
{
    let q = s.open_queues().last();
    assert(ascending(ids_of(q)));
    lemma_with_selection(q, id, collator);
    lemma_with_id(ids_of(q), id);
    let t = s.selected(id, collator);
    assert(t.open_queues().last() == with_selection(q, id, collator));
}

/// Where heads are hashed with Blake2b, a bid on a para that may be selected is taken just where it
/// names the Blake2b hash of the head.
pub proof fn law_bid_names_head<T: Trait<Hashing = BlakeTwo256>>(
    s: State<T::AccountId>,
    id: ParaId,
    hash: H256,
    head_hash: Option<H256>,
)
    requires
        s.selection_refused(id) is None,
        head_hashed::<T>(s, id, head_hash),
    ensures
        s.bid_refused(id, hash, head_hash) is None <==> s.chains.heads.contains_key(id) && hash@
            == blake2_256(s.chains.heads[id]),
{
    if let Some(actual) = head_hash {
        let head = choose|head: &[u8]|
            head@ == s.chains.heads[id] && #[trigger] call_ensures(
                BlakeTwo256::hash,
                (head,),
                actual,
            );
        assert(actual@ == blake2_256(head@));
    }
}

/// While nobody may be scheduled, every bid is refused.
pub proof fn law_no_threads_no_bids<AccountId>(
    s: State<AccountId>,
    id: ParaId,
    hash: H256,
    head_hash: Option<H256>,
)
    requires
        s.thread_count == 0,
    ensures
        s.bid_refused(id, hash, head_hash) is Some,
{
}

/// An entry of `active` is one of `id`.
pub open spec fn is_active(active: Seq<ActiveEntry>, id: ParaId) -> bool {
    exists|i: int| 0 <= i < active.len() && (#[trigger] active[i]).0 == id
}

/// Where no para is active twice, and `did_update` lists active paras in ascending order, just
/// those entries are up for a retry that allow one and whose para did not proceed.
pub proof fn law_missed(
    active: Seq<ActiveEntry>,
    proceeded: Seq<ParaId>,
    sel: Selection,
    n: u32,
)
    requires
        forall|i: int, j: int|
            0 <= i < j < active.len() ==> (#[trigger] active[i]).0 < (#[trigger] active[j]).0,
        ascending(proceeded),
        forall|k: int|
            0 <= k < proceeded.len() ==> is_active(active, #[trigger] proceeded[k]),
    ensures
        missed(active, proceeded).contains((sel, n)) <==> active.contains(thread_entry(sel, n))
            && !proceeded.contains(sel.0),
    decreases active.len(),
{
    let m = missed(active, proceeded);
    let e = thread_entry(sel, n);
    if active.len() > 0 {
        let first = active[0];
        let rest = active.drop_first();
        assert forall|i: int, j: int| 0 <= i < j < rest.len() implies (#[trigger] rest[i]).0 < (
        #[trigger] rest[j]).0 by {
            assert(active[i + 1].0 < active[j + 1].0);
        }
        assert(active.contains(e) <==> e == first || rest.contains(e)) by {
            if active.contains(e) {
                let i = active.index_of(e);
                if i > 0 {
                    assert(rest[i - 1] == e);
                }
            }
            if rest.contains(e) {
                let i = rest.index_of(e);
                assert(active[i + 1] == e);
            }
            if e == first {
                assert(active[0] == e);
            }
        }
        if proceeded.len() > 0 && proceeded[0] == first.0 {
            let later = proceeded.drop_first();
            assert forall|k: int| 0 <= k < later.len() implies is_active(
                rest,
                #[trigger] later[k],
            ) by {
                assert(is_active(active, proceeded[k + 1]));
                assert(later[k] == proceeded[k + 1]);
                let i = choose|i: int|
                    0 <= i < active.len() && (#[trigger] active[i]).0 == proceeded[k + 1];
                assert(proceeded[0] < proceeded[k + 1]);
                assert(i > 0);
                assert(rest[i - 1].0 == later[k]);
            }
            assert(ascending(later)) by {
                assert forall|i: int, j: int| 0 <= i < j < later.len() implies #[trigger] later[i]
                    < #[trigger] later[j] by {
                    assert(proceeded[i + 1] < proceeded[j + 1]);
                }
            }
            law_missed(rest, later, sel, n);
            if e == first {
                assert(proceeded[0] == sel.0);
                assert(proceeded.contains(sel.0));
                if rest.contains(e) {
                    let i = rest.index_of(e);
                    assert(active[0].0 < active[i + 1].0);
                }
            }
            if rest.contains(e) {
                let i = rest.index_of(e);
                assert(active[0].0 < active[i + 1].0);
                assert(sel.0 != proceeded[0]);
            }
            if proceeded.contains(sel.0) && sel.0 != proceeded[0] {
                let k = proceeded.index_of(sel.0);
                assert(later[k - 1] == sel.0);
            }
            if later.contains(sel.0) {
                let k = later.index_of(sel.0);
                assert(proceeded[k + 1] == sel.0);
            }
        } else {
            assert(!proceeded.contains(first.0)) by {
                if proceeded.contains(first.0) {
                    let k = proceeded.index_of(first.0);
                    assert(proceeded[0] < proceeded[k]);
                    assert(is_active(active, proceeded[0]));
                    let i = choose|i: int|
                        0 <= i < active.len() && (#[trigger] active[i]).0 == proceeded[0];
                    assert(i > 0);
                    assert(active[0].0 < active[i].0);
                }
            }
            assert forall|k: int| 0 <= k < proceeded.len() implies is_active(
                rest,
                #[trigger] proceeded[k],
            ) by {
                assert(is_active(active, proceeded[k]));
                let i = choose|i: int|
                    0 <= i < active.len() && (#[trigger] active[i]).0 == proceeded[k];
                assert(proceeded.contains(proceeded[k]));
                assert(i > 0);
                assert(rest[i - 1].0 == proceeded[k]);
            }
            law_missed(rest, proceeded, sel, n);
            let a = to_retry(first);
            let b = missed(rest, proceeded);
            assert(m == a + b);
            if e == first {
                assert(a =~= seq![(sel, n)]);
                assert(m[0] == (sel, n));
            }
            if b.contains((sel, n)) {
                let i = b.index_of((sel, n));
                assert(m[a.len() + i] == (sel, n));
            }
            if m.contains((sel, n)) {
                let i = m.index_of((sel, n));
                if i < a.len() {
                    assert(a[i] == (sel, n));
                    assert(first == e);
                } else {
                    assert(b[i - a.len()] == (sel, n));
                }
            }
        }
    }
}

proof fn lemma_retried_keeps(
    qs: Seq<Seq<Selection>>,
    list: Seq<(Selection, u32)>,
    max: u32,
    i: int,
    sel: Selection,
)
    requires
        qs.len() <= max,
        0 <= i < qs.len(),
        qs[i].contains(sel),
    ensures
        all_retried_later(qs, list, max).len() > i,
        all_retried_later(qs, list, max)[i].contains(sel),
    decreases list.len(),
{
    if list.len() > 0 {
        let rs = retried_later(qs, list[0].0, list[0].1, max);
        let k = qs[i].index_of(sel);
        assert(rs[i][k] == sel);
        lemma_retried_keeps(rs, list.drop_first(), max, i, sel);
    }
}

proof fn lemma_retried_has(
    qs: Seq<Seq<Selection>>,
    list: Seq<(Selection, u32)>,
    max: u32,
    sel: Selection,
    n: u32,
)
    requires
        qs.len() <= max,
        n < max,
        list.contains((sel, n)),
    ensures
        all_retried_later(qs, list, max).len() == max,
        all_retried_later(qs, list, max)[n as int].contains(sel),
    decreases list.len(),
{
    let rs = retried_later(qs, list[0].0, list[0].1, max);
    let rest = list.drop_first();
    let k = list.index_of((sel, n));
    lemma_retried_len_kept(rs, rest, max);
    if k == 0 {
        let z = resized(qs, max as nat)[n as int];
        assert(rs[n as int] == z.push(sel));
        assert(rs[n as int][z.len() as int] == sel);
        lemma_retried_keeps(rs, rest, max, n as int, sel);
    } else {
        assert(rest[k - 1] == (sel, n));
        lemma_retried_has(rs, rest, max, sel, n);
    }
}

proof fn lemma_retried_len_kept(
    qs: Seq<Seq<Selection>>,
    list: Seq<(Selection, u32)>,
    max: u32,
)
    requires
        qs.len() <= max,
    ensures
        qs.len() == max ==> all_retried_later(qs, list, max).len() == max,
    decreases list.len(),
{
    if list.len() > 0 {
        lemma_retried_len_kept(
            retried_later(qs, list[0].0, list[0].1, max),
            list.drop_first(),
            max,
        );
    }
}

/// What missed its block and may be retried once more waits for that in the queue of its number
/// of retries. What waited before, still does.
pub proof fn law_missed_is_retried<AccountId>(
    s: State<AccountId>,
    proceeded: Seq<ParaId>,
    max: u32,
    sel: Selection,
    n: u32,
)
    requires
        s.wf(max),
        n < max,
        missed(s.active, proceeded).contains((sel, n)),
    ensures
        s.block_ended(Some(proceeded), max).retry_queue.len() == max,
        s.block_ended(Some(proceeded), max).retry_queue[n as int].contains(sel),
        forall|i: int, other: Selection|
            0 <= i < s.retry_queue.len() && #[trigger] s.retry_queue[i].contains(other)
                ==> s.block_ended(Some(proceeded), max).retry_queue[i].contains(other),
{
    let list = missed(s.active, proceeded);
    lemma_retried_has(s.retry_queue, list, max, sel, n);
    assert forall|i: int, other: Selection|
        0 <= i < s.retry_queue.len() && #[trigger] s.retry_queue[i].contains(
            other,
        ) implies s.block_ended(Some(proceeded), max).retry_queue[i].contains(other) by {
        lemma_retried_keeps(s.retry_queue, list, max, i, other);
    }
}

proof fn lemma_retried_last(
    qs: Seq<Seq<Selection>>,
    list: Seq<(Selection, u32)>,
    sel: Selection,
    n: u32,
    max: u32,
)
    ensures
        all_retried_later(qs, list.push((sel, n)), max) == retried_later(
            all_retried_later(qs, list, max),
            sel,
            n,
            max,
        ),
{
    reveal_with_fuel(all_retried_later, 2);
    let one = seq![(sel, n)];
    assert(list.push((sel, n)) =~= list + one);
    lemma_retried_step(qs, list, one, max);
    assert(one.drop_first() =~= Seq::empty());
}

/// The entries of `list` that may be retried once more.
pub open spec fn below_limit(list: Seq<(Selection, u32)>, max: u32) -> Seq<(Selection, u32)> {
    list.filter(|e: (Selection, u32)| e.1 < max)
}

/// To queue a list is to queue those of its entries that may be retried once more.
pub proof fn law_limit_of_retries(
    qs: Seq<Seq<Selection>>,
    list: Seq<(Selection, u32)>,
    max: u32,
)
    ensures
        all_retried_later(qs, list, max) == all_retried_later(qs, below_limit(list, max), max),
    decreases list.len(),
{
    reveal(Seq::filter);
    if list.len() > 0 {
        let r = list.drop_last();
        let (sel, n) = list.last();
        law_limit_of_retries(qs, r, max);
        assert(list =~= r.push((sel, n)));
        lemma_retried_last(qs, r, sel, n, max);
        if n < max {
            lemma_retried_last(qs, below_limit(r, max), sel, n, max);
        }
    }
}

/// What missed its block after the last retry is dropped: when a block ends, the retry queues
/// become what they would become if only those had missed it that may be retried once more. They
/// stay as they are where there are none.
pub proof fn law_missed_too_often<AccountId>(
    s: State<AccountId>,
    proceeded: Seq<ParaId>,
    max: u32,
)
    ensures
        s.block_ended(Some(proceeded), max) == (State {
            retry_queue: all_retried_later(
                s.retry_queue,
                below_limit(missed(s.active, proceeded), max),
                max,
            ),
            ..s
        }),
        below_limit(missed(s.active, proceeded), max).len() == 0 ==> s.block_ended(
            Some(proceeded),
            max,
        ) == s,
{
    law_limit_of_retries(s.retry_queue, missed(s.active, proceeded), max);
}

/// The queue at `i`, empty where there is none.
pub open spec fn queue_at(qs: Seq<Seq<Selection>>, i: int) -> Seq<Selection> {
    if i < qs.len() {
        qs[i]
    } else {
        Seq::empty()
    }
}

/// Those in `list` that were retried `n` times, in its order.
pub open spec fn retried_so_often(list: Seq<(Selection, u32)>, n: u32) -> Seq<Selection> {
    list.filter(|e: (Selection, u32)| e.1 == n).map_values(|e: (Selection, u32)| e.0)
}

/// What is queued stands behind what waited.
pub proof fn lemma_queued_behind(
    qs: Seq<Seq<Selection>>,
    list: Seq<(Selection, u32)>,
    n: u32,
    max: u32,
)
    requires
        qs.len() <= max,
        n < max,
    ensures
        queue_at(all_retried_later(qs, list, max), n as int) == queue_at(qs, n as int)
            + retried_so_often(list, n),
    decreases list.len(),
{
    reveal(Seq::filter);
    if list.len() == 0 {
        assert(retried_so_often(list, n) =~= Seq::empty());
        assert(queue_at(qs, n as int) + Seq::<Selection>::empty() =~= queue_at(qs, n as int));
    } else {
        let r = list.drop_last();
        let (sel, k) = list.last();
        let rs = all_retried_later(qs, r, max);
        lemma_queued_behind(qs, r, n, max);
        lemma_all_retried_len(qs, r, max);
        assert(list =~= r.push((sel, k)));
        lemma_retried_last(qs, r, sel, k, max);
        let q = queue_at(rs, n as int);
        if k == n {
            assert(retried_so_often(list, n) =~= retried_so_often(r, n).push(sel));
            assert(queue_at(retried_later(rs, sel, k, max), n as int) =~= q.push(sel));
            assert(q.push(sel) =~= queue_at(qs, n as int) + retried_so_often(list, n));
        } else {
            assert(retried_so_often(list, n) =~= retried_so_often(r, n));
            assert(queue_at(retried_later(rs, sel, k, max), n as int) =~= q);
        }
    }
}

/// When a block ends, those that missed it after `n` retries, and may be retried once more, stand
/// in their order behind those that waited in the queue of that number before.
pub proof fn law_missed_stand_behind<AccountId>(
    s: State<AccountId>,
    proceeded: Seq<ParaId>,
    max: u32,
    n: u32,
)
    requires
        s.wf(max),
        n < max,
    ensures
        queue_at(s.block_ended(Some(proceeded), max).retry_queue, n as int) == queue_at(
            s.retry_queue,
            n as int,
        ) + retried_so_often(missed(s.active, proceeded), n),
{
    lemma_queued_behind(s.retry_queue, missed(s.active, proceeded), n, max);
}

/// A parathread is registered for whoever paid the deposit, and can be deregistered then. This
/// takes out of the schedule whatever was there under its identifier, and leaves the count of
/// identifiers and the events; all else is as it was.
pub proof fn law_parathread_comes_and_goes<AccountId>(
    s: State<AccountId>,
    who: AccountId,
    code: Seq<u8>,
    head: Seq<u8>,
    max: u32,
)
    requires
        s.wf(max),
        s.next_free_id < ParaId::MAX,
        s.register_result(s.next_free_id) is Ok,
    ensures
        ({
            let id = s.next_free_id;
            let t = s.parathread_registered(who, code, head);
            let u = t.parathread_deregistered(id);
            &&& t.is_thread(id)
            &&& entry(t.debtors, id) == Some(who)
            &&& entry(t.chains.code, id) == Some(code)
            &&& entry(t.chains.heads, id) == Some(head)
            &&& t.events == s.events.push(Event::ParathreadRegistered(id))
            &&& t.deregister_parathread_result(id) is Ok
            &&& u == (State {
                next_free_id: (id + 1) as ParaId,
                chains: s.chains.cleaned_up(id),
                debtors: s.debtors.remove(id),
                events: s.events.push(Event::ParathreadRegistered(id)).push(
                    Event::ParathreadDeregistered(id),
                ),
                ..s.unscheduled(is(id))
            })
        }),
{
    let id = s.next_free_id;
    let t = s.parathread_registered(who, code, head);
    let u = t.parathread_deregistered(id);
    assert(u.paras =~= s.paras);
    assert(u.chains =~= s.chains.cleaned_up(id));
    assert(u.debtors =~= s.debtors.remove(id));
}

/// What is out of the schedule stays out of it for as many blocks as there are, and is active in
/// none of them but as a parachain.
pub proof fn law_stays_out<AccountId>(
    s: State<AccountId>,
    updates: Seq<Option<Seq<ParaId>>>,
    queue_size: usize,
    max: u32,
    id: ParaId,
)
    requires
        can_begin(s, updates.len(), queue_size),
        out_of_schedule(s, id),
    ensures
        ({
            let t = after_blocks(s, updates, queue_size, max);
            &&& out_of_schedule(t, id)
            &&& t.parachains == s.parachains
            &&& updates.len() > 0 ==> forall|e: ActiveEntry| #[trigger]
                t.active.contains(e) && e.0 == id ==> e == chain_entry(id)
                    && s.parachains.contains(id)
        }),
    decreases updates.len(),
{
    if updates.len() > 0 {
        let before = after_blocks(s, updates.drop_last(), queue_size, max);
        lemma_next_can_begin(s, updates, queue_size, max);
        law_stays_out(s, updates.drop_last(), queue_size, max, id);
        law_out_at_end(before, updates.last(), max, id);
        law_out_at_beginning(before.block_ended(updates.last(), max), queue_size, id);
    }
}

/// A para that was removed from the schedule executes as a parathread in none of the blocks that
/// follow, unless it is selected anew: it is active only where it is a parachain.
pub proof fn law_unscheduled_stays_out<AccountId>(
    s: State<AccountId>,
    matching: spec_fn(ParaId) -> bool,
    updates: Seq<Option<Seq<ParaId>>>,
    queue_size: usize,
    max: u32,
    id: ParaId,
)
    requires
        can_begin(s, updates.len(), queue_size),
        matching(id),
        updates.len() > 0,
    ensures
        ({
            let t = after_blocks(s.unscheduled(matching), updates, queue_size, max);
            &&& out_of_schedule(t, id)
            &&& forall|e: ActiveEntry| #[trigger]
                t.active.contains(e) && e.0 == id ==> e == chain_entry(id)
                    && s.parachains.contains(id)
        }),
{
    law_unscheduled(s, matching, id, vstd::pervasive::arbitrary::<CollatorId>());
    law_stays_out(s.unscheduled(matching), updates, queue_size, max, id);
}

/// A parathread that was deregistered is active in none of the blocks that follow.
pub proof fn law_deregistered_is_not_scheduled<AccountId>(
    s: State<AccountId>,
    updates: Seq<Option<Seq<ParaId>>>,
    queue_size: usize,
    max: u32,
    id: ParaId,
)
    requires
        s.wf(max),
        can_begin(s, updates.len(), queue_size),
        s.deregister_parathread_result(id) is Ok,
        updates.len() > 0,
    ensures
        !is_active(
            after_blocks(s.parathread_deregistered(id), updates, queue_size, max).active,
            id,
        ),
{
    let t = s.parathread_deregistered(id);
    let u = after_blocks(t, updates, queue_size, max);
    law_removed_from_schedule(s, id, id);
    law_stays_out(t, updates, queue_size, max, id);
    assert(s.parachains.contains(id) <==> s.is_chain(id));
    if is_active(u.active, id) {
        let i = choose|i: int| 0 <= i < u.active.len() && (#[trigger] u.active[i]).0 == id;
        assert(u.active.contains(u.active[i]));
    }
}

/// What may be retried of the active entries, in their order.
pub open spec fn retriable(active: Seq<ActiveEntry>) -> Seq<(Selection, u32)>
    decreases active.len(),
{
    if active.len() == 0 {
        Seq::empty()
    } else {
        to_retry(active[0]) + retriable(active.drop_first())
    }
}

proof fn lemma_retriable_add(a: Seq<ActiveEntry>, b: Seq<ActiveEntry>)
    ensures
        retriable(a + b) == retriable(a) + retriable(b),
    decreases a.len(),
{
    if a.len() == 0 {
        assert(a + b =~= b);
        assert(retriable(a) + retriable(b) =~= retriable(b));
    } else {
        assert((a + b).drop_first() =~= a.drop_first() + b);
        lemma_retriable_add(a.drop_first(), b);
        assert(retriable(a + b) =~= retriable(a) + retriable(b));
    }
}

proof fn lemma_retriable_one(e: ActiveEntry)
    ensures
        retriable(seq![e]) == to_retry(e),
{
    reveal_with_fuel(retriable, 2);
    assert(seq![e].drop_first() =~= Seq::empty());
    assert(retriable(seq![e]) =~= to_retry(e));
}

proof fn lemma_retriable_none(s: Seq<ActiveEntry>)
    requires
        forall|i: int| 0 <= i < s.len() ==> to_retry(#[trigger] s[i]).len() == 0,
    ensures
        retriable(s) == Seq::<(Selection, u32)>::empty(),
    decreases s.len(),
{
    if s.len() > 0 {
        let rest = s.drop_first();
        assert forall|i: int| 0 <= i < rest.len() implies to_retry(#[trigger] rest[i]).len()
            == 0 by {
            assert(rest[i] == s[i + 1]);
        }
        lemma_retriable_none(rest);
        assert(to_retry(s[0]).len() == 0);
        assert(retriable(s) =~= Seq::empty());
    }
}

proof fn lemma_retriable_contains(s: Seq<ActiveEntry>, sel: Selection, n: u32)
    ensures
        retriable(s).contains((sel, n)) <==> s.contains(thread_entry(sel, n)),
    decreases s.len(),
{
    let e = thread_entry(sel, n);
    let m = retriable(s);
    if s.len() > 0 {
        let rest = s.drop_first();
        let a = to_retry(s[0]);
        let b = retriable(rest);
        lemma_retriable_contains(rest, sel, n);
        if m.contains((sel, n)) {
            let i = m.index_of((sel, n));
            if i < a.len() {
                assert(a[i] == (sel, n));
                assert(s[0] == e);
            } else {
                assert(b[i - a.len()] == (sel, n));
                let j = rest.index_of(e);
                assert(s[j + 1] == e);
            }
        }
        if s.contains(e) {
            let i = s.index_of(e);
            if i == 0 {
                assert(m[0] == (sel, n));
            } else {
                assert(rest[i - 1] == e);
                let j = b.index_of((sel, n));
                assert(m[a.len() + j] == (sel, n));
            }
        }
    }
}

/// Only entries of `id` may be retried.
spec fn retriable_of(s: Seq<ActiveEntry>, id: ParaId) -> bool {
    forall|i: int| 0 <= i < s.len() && to_retry(#[trigger] s[i]).len() > 0 ==> s[i].0 == id
}

proof fn lemma_retriable_of_id(s: Seq<ActiveEntry>, id: ParaId)
    requires
        retriable_of(s, id),
    ensures
        retriable(s) == retriable(of_id(s, id)),
    decreases s.len(),
{
    reveal(Seq::filter);
    if s.len() > 0 {
        let r = s.drop_last();
        let last = s.last();
        assert forall|i: int| 0 <= i < r.len() && to_retry(#[trigger] r[i]).len() > 0 implies r[i].0
            == id by {
            assert(r[i] == s[i]);
        }
        lemma_retriable_of_id(r, id);
        assert(s =~= r + seq![last]);
        lemma_retriable_add(r, seq![last]);
        lemma_retriable_one(last);
        if last.0 == id {
            assert(of_id(s, id) =~= of_id(r, id) + seq![last]);
            lemma_retriable_add(of_id(r, id), seq![last]);
        } else {
            assert(s[s.len() - 1] == last);
            assert(to_retry(last).len() == 0);
            assert(of_id(s, id) =~= of_id(r, id));
            assert(retriable(s) =~= retriable(r));
        }
    }
}

proof fn lemma_missed_all(active: Seq<ActiveEntry>, proceeded: Seq<ParaId>, id: ParaId)
    requires
        retriable_of(active, id),
        !proceeded.contains(id),
    ensures
        missed(active, proceeded) == retriable(active),
    decreases active.len(),
{
    if active.len() > 0 {
        let rest = active.drop_first();
        assert forall|i: int| 0 <= i < rest.len() && to_retry(
            #[trigger] rest[i],
        ).len() > 0 implies rest[i].0 == id by {
            assert(rest[i] == active[i + 1]);
        }
        if proceeded.len() > 0 && proceeded[0] == active[0].0 {
            let later = proceeded.drop_first();
            assert(!later.contains(id)) by {
                if later.contains(id) {
                    assert(proceeded[later.index_of(id) + 1] == id);
                }
            }
            assert(to_retry(active[0]).len() == 0);
            lemma_missed_all(rest, later, id);
            assert(retriable(active) =~= retriable(rest));
        } else {
            lemma_missed_all(rest, proceeded, id);
        }
    }
}

/// No queue holds anything.
pub open spec fn all_empty(qs: Seq<Seq<Selection>>) -> bool {
    forall|i: int| 0 <= i < qs.len() ==> (#[trigger] qs[i]).len() == 0
}

/// What is left of the attempts of `sel` after `n` of them were missed.
pub open spec fn attempt(sel: Selection, n: nat, max: u32) -> Seq<(Selection, u32)> {
    if n <= max {
        seq![(sel, n as u32)]
    } else {
        Seq::empty()
    }
}

proof fn lemma_next_attempt<AccountId>(
    s: State<AccountId>,
    proceeded: Seq<ParaId>,
    queue_size: usize,
    max: u32,
    sel: Selection,
    n: nat,
)
    requires
        can_begin(s, 1, queue_size),
        s.retry_queue.len() <= max,
        all_empty(s.selected_threads),
        all_empty(s.retry_queue),
        !proceeded.contains(sel.0),
        retriable(s.active) == attempt(sel, n, max),
    ensures
        ({
            let t = s.block_ended(Some(proceeded), max).block_begun(queue_size);
            &&& t.retry_queue.len() <= max
            &&& all_empty(t.selected_threads)
            &&& all_empty(t.retry_queue)
            &&& retriable(t.active) == attempt(sel, n + 1, max)
        }),
{
    let ended = s.block_ended(Some(proceeded), max);
    let t = ended.block_begun(queue_size);
    assert(retriable_of(s.active, sel.0)) by {
        assert forall|i: int| 0 <= i < s.active.len() && to_retry(
            #[trigger] s.active[i],
        ).len() > 0 implies s.active[i].0 == sel.0 by {
            let (one, k) = to_retry(s.active[i])[0];
            assert(s.active[i] == thread_entry(one, k));
            assert(s.active.contains(s.active[i]));
            lemma_retriable_contains(s.active, one, k);
            assert(attempt(sel, n, max).contains((one, k)));
        }
    }
    lemma_missed_all(s.active, proceeded, sel.0);
    let list = attempt(sel, n, max);
    assert(missed(s.active, proceeded) == list);
    reveal_with_fuel(all_retried_later, 2);
    let qs = ended.retry_queue;
    if n < max {
        assert(list.drop_first() =~= Seq::empty());
        assert(qs == retried_later(s.retry_queue, sel, n as u32, max));
        assert(qs[n as int] =~= seq![sel]);
        assert forall|i: int| 0 <= i < qs.len() && i != n implies (#[trigger] qs[i]).len() == 0 by {
            if i < s.retry_queue.len() {
                assert(s.retry_queue[i].len() == 0);
            }
        }
        assert(is_first_waiting(qs, n as int));
        lemma_first_waiting(qs);
        let f = first_waiting(qs);
        assert(f == n) by {
            if f < n {
                assert(qs[f].len() == 0);
            } else if n < f {
                assert(qs[n as int].len() == 0);
            }
        }
        assert forall|i: int| 0 <= i < t.retry_queue.len() implies (
        #[trigger] t.retry_queue[i]).len() == 0 by {
            if i != n {
                assert(t.retry_queue[i] == qs[i]);
            }
        }
    } else {
        if n == max {
            assert(list.drop_first() =~= Seq::empty());
        }
        assert(qs == s.retry_queue);
        assert(!any_waiting(qs)) by {
            assert forall|i: int| !is_first_waiting(qs, i) by {
                if 0 <= i < qs.len() {
                    assert(qs[i].len() == 0);
                }
            }
        }
    }
    assert forall|i: int| 0 <= i < t.selected_threads.len() implies (
    #[trigger] t.selected_threads[i]).len() == 0 by {
        lemma_moved_up_queue(s.selected_threads, queue_size as nat, i);
        let shift: int = if s.selected_threads.len() >= queue_size {
            1
        } else {
            0
        };
        if i + shift < s.selected_threads.len() {
            assert(s.selected_threads[i + shift].len() == 0);
        }
    }
    let up = ended.next_up(queue_size);
    assert(up.len() == 0) by {
        if s.selected_threads.len() >= queue_size {
            assert(s.selected_threads[0].len() == 0);
        }
    }
    let retry = ended.next_retry(queue_size);
    let all = upcoming(s.parachains, up, retry);
    let chains = s.parachains.map_values(|id: ParaId| chain_entry(id));
    let last = retry_entries(retry);
    assert(all =~= chains + last);
    lemma_retriable_none(chains);
    lemma_retriable_add(chains, last);
    assert(retriable(last) =~= attempt(sel, n + 1, max)) by {
        if n < max {
            let e = thread_entry(sel, (n + 1) as u32);
            assert(last =~= seq![e]);
            lemma_retriable_one(e);
        }
    }
    assert(retriable(all) =~= attempt(sel, n + 1, max));
    assert(retriable_of(all, sel.0)) by {
        assert forall|i: int| 0 <= i < all.len() && to_retry(
            #[trigger] all[i],
        ).len() > 0 implies all[i].0 == sel.0 by {
            if i < chains.len() {
                assert(all[i] == chains[i]);
            } else {
                assert(all[i] == last[i - chains.len()]);
            }
        }
    }
    lemma_sorted(all);
    assert(retriable_of(t.active, sel.0)) by {
        assert forall|i: int| 0 <= i < t.active.len() && to_retry(
            #[trigger] t.active[i],
        ).len() > 0 implies t.active[i].0 == sel.0 by {
            let e = t.active[i];
            assert(t.active.contains(e));
            lemma_sorted_contains(all, t.active, e);
            let j = all.index_of(e);
            assert(all[j] == e);
        }
    }
    lemma_retriable_of_id(all, sel.0);
    lemma_retriable_of_id(t.active, sel.0);
    assert(of_id(t.active, sel.0) == of_id(all, sel.0));
}

/// A parathread that keeps missing its block, while no other waits, is active in its first
/// attempt and then in as many blocks in a row as it may be retried, once more retried in each;
/// after that it is dropped.
pub proof fn law_grace<AccountId>(
    s: State<AccountId>,
    updates: Seq<Option<Seq<ParaId>>>,
    queue_size: usize,
    max: u32,
    sel: Selection,
)
    requires
        s.wf(max),
        can_begin(s, updates.len(), queue_size),
        all_empty(s.selected_threads),
        all_empty(s.retry_queue),
        retriable(s.active) == seq![(sel, 0u32)],
        forall|i: int|
            0 <= i < updates.len() ==> (#[trigger] updates[i] matches Some(proceeded)
                && !proceeded.contains(sel.0)),
    ensures
        ({
            let t = after_blocks(s, updates, queue_size, max);
            let n = updates.len();
            if n <= max {
                &&& t.active.contains(thread_entry(sel, n as u32))
                &&& retriable(t.active) == seq![(sel, n as u32)]
            } else {
                retriable(t.active) == Seq::<(Selection, u32)>::empty()
            }
        }),
{
    lemma_attempts(s, updates, queue_size, max, sel);
    let t = after_blocks(s, updates, queue_size, max);
    let n = updates.len();
    if n <= max {
        assert(retriable(t.active)[0] == (sel, n as u32));
        lemma_retriable_contains(t.active, sel, n as u32);
    }
}

proof fn lemma_attempts<AccountId>(
    s: State<AccountId>,
    updates: Seq<Option<Seq<ParaId>>>,
    queue_size: usize,
    max: u32,
    sel: Selection,
)
    requires
        s.retry_queue.len() <= max,
        can_begin(s, updates.len(), queue_size),
        all_empty(s.selected_threads),
        all_empty(s.retry_queue),
        retriable(s.active) == seq![(sel, 0u32)],
        forall|i: int|
            0 <= i < updates.len() ==> (#[trigger] updates[i] matches Some(proceeded)
                && !proceeded.contains(sel.0)),
    ensures
        ({
            let t = after_blocks(s, updates, queue_size, max);
            &&& t.retry_queue.len() <= max
            &&& all_empty(t.selected_threads)
            &&& all_empty(t.retry_queue)
            &&& retriable(t.active) == attempt(sel, updates.len(), max)
        }),
    decreases updates.len(),
{
    if updates.len() > 0 {
        let r = updates.drop_last();
        assert forall|i: int| 0 <= i < r.len() implies (#[trigger] r[i] matches Some(proceeded)
            && !proceeded.contains(sel.0)) by {
            assert(r[i] == updates[i]);
        }
        lemma_next_can_begin(s, updates, queue_size, max);
        lemma_attempts(s, r, queue_size, max, sel);
        let last = updates[updates.len() - 1];
        lemma_next_attempt(
            after_blocks(s, r, queue_size, max),
            last->Some_0,
            queue_size,
            max,
            sel,
            r.len(),
        );
        assert(r.len() + 1 == updates.len());
    }
}

/// What can happen to the registrar.
pub enum Step<AccountId> {
    Issue,
    Register(ParaId, ParaInfo, Seq<u8>, Seq<u8>),
    Deregister(ParaId),
    SetThreadCount(u32),
    RegisterParathread(AccountId, Seq<u8>, Seq<u8>),
    DeregisterParathread(ParaId),
    AskSwap(ParaId, ParaId),
    Swap(ParaId, ParaId),
    Select(ParaId, CollatorId),
    BeginBlock,
    EndBlock(Option<Seq<ParaId>>),
}

/// The step can happen.
pub open spec fn enabled<AccountId>(
    s: State<AccountId>,
    step: Step<AccountId>,
    queue_size: usize,
) -> bool {
    match step {
        Step::Issue => s.next_free_id < ParaId::MAX,
        Step::RegisterParathread(_, _, _) => s.next_free_id < ParaId::MAX,
        Step::DeregisterParathread(id) => s.deregister_parathread_result(id) is Ok,
        Step::Select(id, _) => s.selection_refused(id) is None,
        Step::BeginBlock => queue_size > 0 || s.selected_threads.len() > 0,
        _ => true,
    }
}

/// The state after the step.
pub open spec fn after<AccountId>(
    s: State<AccountId>,
    step: Step<AccountId>,
    queue_size: usize,
    max: u32,
) -> State<AccountId> {
    match step {
        Step::Issue => s.issued(),
        Step::Register(id, info, code, head) => s.after_register(id, info, code, head),
        Step::Deregister(id) => s.after_deregister(id),
        Step::SetThreadCount(count) => s.with_thread_count(count),
        Step::RegisterParathread(who, code, head) => s.parathread_registered(who, code, head),
        Step::DeregisterParathread(id) => s.parathread_deregistered(id),
        Step::AskSwap(id, other) => s.swap_asked(id, other),
        Step::Swap(id, other) => s.swapped(id, other),
        Step::Select(id, collator) => s.selected(id, collator),
        Step::BeginBlock => s.block_begun(queue_size),
        Step::EndBlock(did_update) => s.block_ended(did_update, max),
    }
}

/// The identifier that a step hands out.
pub open spec fn hands_out<AccountId>(s: State<AccountId>, step: Step<AccountId>) -> Option<
    ParaId,
> {
    match step {
        Step::Issue => Some(s.next_free_id),
        Step::RegisterParathread(_, _, _) => Some(s.next_free_id),
        _ => None,
    }
}

/// `trace` is a history: each state follows from the one before it by the step at its place.
pub open spec fn history<AccountId>(
    trace: Seq<State<AccountId>>,
    steps: Seq<Step<AccountId>>,
    queue_size: usize,
    max: u32,
) -> bool {
    &&& trace.len() == steps.len() + 1
    &&& forall|i: int|
        0 <= i < steps.len() ==> enabled(trace[i], #[trigger] steps[i], queue_size) && trace[i + 1]
            == after(trace[i], steps[i], queue_size, max)
}

/// No step breaks what holds of the state: the parachains are listed in ascending order, and are
/// just those registered as such; the selected threads are in ascending order, without duplicates;
/// the active paras are in order, and none was retried too often.
pub proof fn law_step_keeps_wf<AccountId>(
    s: State<AccountId>,
    step: Step<AccountId>,
    queue_size: usize,
    max: u32,
)
    requires
        s.wf(max),
        enabled(s, step, queue_size),
    ensures
        after(s, step, queue_size, max).wf(max),
{
    let t = after(s, step, queue_size, max);
    match step {
        Step::Register(id, info, code, head) => {
            if !s.paras.contains_key(id) {
                lemma_registered_wf(s, id, info, code, head, max);
            }
        },
        Step::Deregister(id) => {
            if s.paras.contains_key(id) {
                lemma_deregistered_wf(s, id, max);
            }
        },
        Step::RegisterParathread(who, code, head) => {
            let id = s.next_free_id;
            let u = s.issued();
            let info = ParaInfo { scheduling: Scheduling::Dynamic };
            assert(u.wf(max)) by {
                assert forall|x: ParaId| #[trigger] u.parachains.contains(x) <==> u.is_chain(x) by {
                    assert(s.parachains.contains(x) <==> s.is_chain(x));
                }
            }
            if !u.paras.contains_key(id) {
                lemma_registered_wf(u, id, info, code, head, max);
            }
            let v = u.after_register(id, info, code, head);
            assert forall|x: ParaId| #[trigger] t.parachains.contains(x) <==> t.is_chain(x) by {
                assert(v.parachains.contains(x) <==> v.is_chain(x));
            }
        },
        Step::DeregisterParathread(id) => {
            lemma_deregistered_wf(s, id, max);
            lemma_unscheduled_wf(s.deregistered(id), is(id), max);
            let v = s.deregistered(id).unscheduled(is(id));
            assert forall|x: ParaId| #[trigger] t.parachains.contains(x) <==> t.is_chain(x) by {
                assert(v.parachains.contains(x) <==> v.is_chain(x));
            }
        },
        Step::Swap(id, other) => {
            lemma_swapped_wf(s, id, other, max);
        },
        Step::Select(id, collator) => {
            lemma_selected_wf(s, id, collator, max);
        },
        Step::BeginBlock => {
            lemma_block_begun_wf(s, queue_size, max);
        },
        Step::EndBlock(did_update) => {
            lemma_block_ended_wf(s, did_update, max);
        },
        _ => {
            assert forall|x: ParaId| #[trigger] t.parachains.contains(x) <==> t.is_chain(x) by {
                assert(s.parachains.contains(x) <==> s.is_chain(x));
            }
        },
    }
}

/// What holds of the first state of a history holds of all its states.
pub proof fn law_history_keeps_wf<AccountId>(
    trace: Seq<State<AccountId>>,
    steps: Seq<Step<AccountId>>,
    queue_size: usize,
    max: u32,
    i: int,
)
    requires
        history(trace, steps, queue_size, max),
        trace[0].wf(max),
        0 <= i < trace.len(),
    ensures
        trace[i].wf(max),
    decreases i,
{
    if i > 0 {
        law_history_keeps_wf(trace, steps, queue_size, max, i - 1);
        law_step_keeps_wf(trace[i - 1], steps[i - 1], queue_size, max);
    }
}

proof fn lemma_ids_grow<AccountId>(
    trace: Seq<State<AccountId>>,
    steps: Seq<Step<AccountId>>,
    queue_size: usize,
    max: u32,
    i: int,
    j: int,
)
    requires
        history(trace, steps, queue_size, max),
        0 <= i <= j < trace.len(),
    ensures
        trace[i].next_free_id <= trace[j].next_free_id,
        i < j && hands_out(trace[i], steps[i]) is Some ==> trace[i].next_free_id
            < trace[j].next_free_id,
    decreases j - i,
{
    if i < j {
        lemma_ids_grow(trace, steps, queue_size, max, i, j - 1);
        let step = steps[j - 1];
    }
}

/// How many identifiers the first `i` steps of a history hand out.
pub open spec fn handed_out<AccountId>(
    trace: Seq<State<AccountId>>,
    steps: Seq<Step<AccountId>>,
    i: int,
) -> nat
    decreases i,
{
    if i <= 0 {
        0
    } else if hands_out(trace[i - 1], steps[i - 1]) is Some {
        handed_out(trace, steps, i - 1) + 1
    } else {
        handed_out(trace, steps, i - 1)
    }
}

proof fn lemma_ids_counted<AccountId>(
    trace: Seq<State<AccountId>>,
    steps: Seq<Step<AccountId>>,
    queue_size: usize,
    max: u32,
    i: int,
)
    requires
        history(trace, steps, queue_size, max),
        0 <= i < trace.len(),
    ensures
        trace[i].next_free_id == trace[0].next_free_id + handed_out(trace, steps, i),
    decreases i,
{
    if i > 0 {
        lemma_ids_counted(trace, steps, queue_size, max, i - 1);
        let step = steps[i - 1];
    }
}

/// Identifiers are handed out in ascending order, so that none is handed out twice.
pub proof fn law_ids_are_unique<AccountId>(
    trace: Seq<State<AccountId>>,
    steps: Seq<Step<AccountId>>,
    queue_size: usize,
    max: u32,
    i: int,
    j: int,
)
    requires
        history(trace, steps, queue_size, max),
        0 <= i < j < steps.len(),
        hands_out(trace[i], steps[i]) is Some,
        hands_out(trace[j], steps[j]) is Some,
    ensures
        hands_out(trace[i], steps[i])->Some_0 < hands_out(trace[j], steps[j])->Some_0,
        hands_out(trace[i], steps[i]) != hands_out(trace[j], steps[j]),
{
    lemma_ids_grow(trace, steps, queue_size, max, i, j);
}

/// After genesis the identifiers are handed out one by one from `LOWEST_USER_ID` on, which is the
/// first: each is larger than that by as many as were handed out before it.
pub proof fn law_ids_from_lowest<AccountId>(
    trace: Seq<State<AccountId>>,
    steps: Seq<Step<AccountId>>,
    queue_size: usize,
    max: u32,
    list: Seq<(ParaId, Seq<u8>, Seq<u8>)>,
    i: int,
)
    requires
        history(trace, steps, queue_size, max),
        trace[0] == genesis::<AccountId>(list),
        0 <= i < steps.len(),
        hands_out(trace[i], steps[i]) is Some,
    ensures
        hands_out(trace[i], steps[i])->Some_0 == LOWEST_USER_ID + handed_out(trace, steps, i),
        handed_out(trace, steps, i) == 0 ==> hands_out(trace[i], steps[i]) == Some(LOWEST_USER_ID),
{
    lemma_genesis_registered::<AccountId>(list, max);
    lemma_ids_counted(trace, steps, queue_size, max, i);
}

} // verus!
