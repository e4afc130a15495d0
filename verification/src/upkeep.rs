//! Every operation keeps the state well-formed.

use crate::ids::{
    ascending, ids_of, lemma_swapped_ids, lemma_with_id, lemma_without_id, place, swapped_ids,
    with_id, with_selection,
};
use crate::queues::{any_waiting, first_waiting, is_first_waiting, kept, next_retry, retried_later};
use crate::schedule::{
    all_retried_later, chain_entry, lemma_sorted, lemma_sorted_contains, missed, retry_entries,
    sorted_by_id, thread_entry, upcoming,
};
use crate::state::{is, is_either, State};
use crate::types::{ActiveEntry, CollatorId, ParaId, ParaInfo, Retriable, Selection};
use vstd::prelude::*;

verus! {

/// What is left of a queue stands in it as it stood: the queue stays ascending, and holds of each
/// para that does not match what it held.
pub proof fn lemma_kept(q: Seq<Selection>, matching: spec_fn(ParaId) -> bool)
    ensures
        forall|e: Selection|
            #[trigger] kept(q, matching).contains(e) <==> q.contains(e) && !matching(e.0),
        ascending(ids_of(q)) ==> ascending(ids_of(kept(q, matching))),
    decreases q.len(),
{
    reveal(Seq::filter);
    if q.len() > 0 {
        let r = q.drop_last();
        let last = q.last();
        lemma_kept(r, matching);
        assert(q =~= r.push(last));
        let k = kept(q, matching);
        assert(k == if matching(last.0) {
            kept(r, matching)
        } else {
            kept(r, matching).push(last)
        });
        assert forall|e: Selection| #[trigger] k.contains(e) <==> q.contains(e) && !matching(
            e.0,
        ) by {
            if q.contains(e) {
                let i = q.index_of(e);
                if i < r.len() {
                    assert(r[i] == e);
                }
            }
            if r.contains(e) {
                assert(q[r.index_of(e)] == e);
            }
            if kept(r, matching).contains(e) {
                assert(k[kept(r, matching).index_of(e)] == e);
            }
            if k.contains(e) {
                let i = k.index_of(e);
                if i < kept(r, matching).len() {
                    assert(kept(r, matching)[i] == e);
                } else {
                    assert(q[q.len() - 1] == e);
                }
            }
            if e == last && !matching(last.0) {
                assert(k[k.len() - 1] == e);
            }
        }
        if ascending(ids_of(q)) {
            let ids = ids_of(q);
            assert(ascending(ids_of(r))) by {
                assert forall|i: int, j: int| 0 <= i < j < r.len() implies #[trigger] ids_of(r)[i]
                    < #[trigger] ids_of(r)[j] by {
                    assert(ids[i] < ids[j]);
                }
            }
            let kr = kept(r, matching);
            if !matching(last.0) {
                assert forall|i: int, j: int| 0 <= i < j < k.len() implies #[trigger] ids_of(k)[i]
                    < #[trigger] ids_of(k)[j] by {
                    if j < kr.len() {
                        assert(ids_of(kr)[i] < ids_of(kr)[j]);
                    } else {
                        assert(kr.contains(kr[i]));
                        let m = r.index_of(kr[i]);
                        assert(r[m] == kr[i]);
                        assert(ids[m] < ids[q.len() - 1]);
                    }
                }
            }
        }
    }
}

/// A state is well-formed if it shares with a well-formed one what is registered, what is
/// scheduled, and the next free identifier.
pub proof fn lemma_shared_wf<AccountId>(s: State<AccountId>, t: State<AccountId>, max: u32)
    requires
        s.wf(max),
        t.parachains == s.parachains,
        t.paras == s.paras,
        t.selected_threads == s.selected_threads,
        t.retry_queue == s.retry_queue,
        t.active == s.active,
        t.next_free_id == s.next_free_id,
    ensures
        t.wf(max),
{
    assert forall|id: ParaId| #[trigger] t.parachains.contains(id) <==> t.is_chain(id) by {
        assert(s.parachains.contains(id) <==> s.is_chain(id));
    }
}

/// Removing paras from the schedule keeps the state well-formed.
pub proof fn lemma_unscheduled_wf<AccountId>(
    s: State<AccountId>,
    matching: spec_fn(ParaId) -> bool,
    max: u32,
)
    requires
        s.wf(max),
    ensures
        s.unscheduled(matching).wf(max),
{
    let t = s.unscheduled(matching);
    assert forall|i: int| 0 <= i < t.selected_threads.len() implies ascending(
        ids_of(#[trigger] t.selected_threads[i]),
    ) by {
        lemma_kept(s.selected_threads[i], matching);
    }
    assert forall|i: int, j: int| 0 <= i < j < t.active.len() implies (#[trigger] t.active[i]).0
        <= (#[trigger] t.active[j]).0 by {
        assert(s.active[i].0 <= s.active[j].0);
    }
    assert forall|i: int| 0 <= i < t.active.len() implies ((#[trigger] t.active[i]).1 matches Some(
        (_, Retriable::WithRetries(n)),
    ) ==> n <= max) by {
        let e = s.active[i];
    }
    assert forall|id: ParaId| #[trigger] t.parachains.contains(id) <==> t.is_chain(id) by {
        assert(s.parachains.contains(id) <==> s.is_chain(id));
    }
}

/// Registering keeps the state well-formed.
pub proof fn lemma_registered_wf<AccountId>(
    s: State<AccountId>,
    id: ParaId,
    info: ParaInfo,
    code: Seq<u8>,
    head: Seq<u8>,
    max: u32,
)
    requires
        s.wf(max),
        !s.paras.contains_key(id),
    ensures
        s.registered(id, info, code, head).wf(max),
{
    let t = s.registered(id, info, code, head);
    assert(!s.parachains.contains(id));
    if info.scheduling is Always {
        lemma_with_id(s.parachains, id);
    }
    assert forall|x: ParaId| #[trigger] t.parachains.contains(x) <==> t.is_chain(x) by {
        assert(s.parachains.contains(x) <==> s.is_chain(x));
    }
}

/// Deregistering keeps the state well-formed.
pub proof fn lemma_deregistered_wf<AccountId>(s: State<AccountId>, id: ParaId, max: u32)
    requires
        s.wf(max),
        s.paras.contains_key(id),
    ensures
        s.deregistered(id).wf(max),
{
    let t = s.deregistered(id);
    assert(s.parachains.contains(id) <==> s.is_chain(id));
    if s.paras[id].scheduling is Always {
        lemma_without_id(s.parachains, id);
    }
    assert forall|x: ParaId| #[trigger] t.parachains.contains(x) <==> t.is_chain(x) by {
        assert(s.parachains.contains(x) <==> s.is_chain(x));
    }
}

/// Swapping keeps the state well-formed.
pub proof fn lemma_swapped_wf<AccountId>(s: State<AccountId>, id: ParaId, other: ParaId, max: u32)
    requires
        s.wf(max),
    ensures
        s.swapped(id, other).wf(max),
{
    lemma_unscheduled_wf(s, is_either(id, other), max);
    lemma_swapped_ids(s.parachains, id, other);
    let t = s.swapped(id, other);
    assert forall|x: ParaId| #[trigger] t.parachains.contains(x) <==> t.is_chain(x) by {
        assert(s.parachains.contains(x) <==> s.is_chain(x));
        assert(s.parachains.contains(id) <==> s.is_chain(id));
        assert(s.parachains.contains(other) <==> s.is_chain(other));
        assert(swapped_ids(s.parachains, id, other).contains(x) <==> t.parachains.contains(x));
    }
}

/// The first queue in which something waits is one of the queues.
pub proof fn lemma_first_waiting(qs: Seq<Seq<Selection>>)
    requires
        any_waiting(qs),
    ensures
        is_first_waiting(qs, first_waiting(qs)),
{
}

/// Every entry of a new schedule is a parachain, a selected parathread in its first attempt, or
/// what was taken from the retry queues.
pub proof fn lemma_upcoming_contains(
    parachains: Seq<ParaId>,
    next_up: Seq<Selection>,
    retry: Option<(Selection, u32)>,
    e: ActiveEntry,
)
    ensures
        sorted_by_id(upcoming(parachains, next_up, retry)).contains(e) <==> {
            ||| parachains.contains(e.0) && e == chain_entry(e.0)
            ||| exists|i: int| 0 <= i < next_up.len() && e == thread_entry(#[trigger] next_up[i], 0)
            ||| retry_entries(retry).contains(e)
        },
{
    let all = upcoming(parachains, next_up, retry);
    let chains = parachains.map_values(|id: ParaId| chain_entry(id));
    let threads = next_up.map_values(|sel: Selection| thread_entry(sel, 0));
    let last = retry_entries(retry);
    lemma_sorted(all);
    lemma_sorted_contains(all, sorted_by_id(all), e);
    if all.contains(e) {
        let i = all.index_of(e);
        if i < chains.len() {
            assert(chains[i] == e);
            assert(parachains[i] == e.0);
        } else if i < chains.len() + threads.len() {
            assert(threads[i - chains.len()] == e);
            assert(e == thread_entry(next_up[i - chains.len()], 0));
        } else {
            assert(last[i - chains.len() - threads.len()] == e);
        }
    }
    if parachains.contains(e.0) && e == chain_entry(e.0) {
        let i = parachains.index_of(e.0);
        assert(all[i] == e);
    }
    if exists|i: int| 0 <= i < next_up.len() && e == thread_entry(#[trigger] next_up[i], 0) {
        let i = choose|i: int|
            0 <= i < next_up.len() && e == thread_entry(#[trigger] next_up[i], 0);
        assert(all[chains.len() + i] == e);
    }
    if last.contains(e) {
        let i = last.index_of(e);
        assert(all[chains.len() + threads.len() + i] == e);
    }
}

/// Beginning a block keeps the state well-formed.
pub proof fn lemma_block_begun_wf<AccountId>(s: State<AccountId>, queue_size: usize, max: u32)
    requires
        s.wf(max),
        queue_size > 0 || s.selected_threads.len() > 0,
    ensures
        s.block_begun(queue_size).wf(max),
{
    let t = s.block_begun(queue_size);
    let up = s.next_up(queue_size);
    let retry = s.next_retry(queue_size);
    lemma_sorted(upcoming(s.parachains, up, retry));
    if any_waiting(s.retry_queue) {
        lemma_first_waiting(s.retry_queue);
    }
    assert forall|i: int| 0 <= i < t.active.len() implies ((#[trigger] t.active[i]).1 matches Some(
        (_, Retriable::WithRetries(n)),
    ) ==> n <= max) by {
        let e = t.active[i];
        assert(t.active.contains(e));
        lemma_upcoming_contains(s.parachains, up, retry, e);
    }
    let rest = if s.selected_threads.len() >= queue_size {
        s.selected_threads.drop_first()
    } else {
        s.selected_threads
    };
    assert forall|i: int| 0 <= i < t.selected_threads.len() implies ascending(
        ids_of(#[trigger] t.selected_threads[i]),
    ) by {
        if i < rest.len() {
            assert(t.selected_threads[i] == rest[i]);
            if s.selected_threads.len() >= queue_size {
                assert(rest[i] == s.selected_threads[i + 1]);
            } else {
                assert(rest[i] == s.selected_threads[i]);
            }
        }
    }
    assert forall|id: ParaId| #[trigger] t.parachains.contains(id) <==> t.is_chain(id) by {
        assert(s.parachains.contains(id) <==> s.is_chain(id));
    }
}

/// There are never more retry queues than retries.
pub proof fn lemma_all_retried_len(
    qs: Seq<Seq<Selection>>,
    list: Seq<(Selection, u32)>,
    max: u32,
)
    requires
        qs.len() <= max,
    ensures
        all_retried_later(qs, list, max).len() <= max,
    decreases list.len(),
{
    if list.len() > 0 {
        lemma_all_retried_len(
            retried_later(qs, list[0].0, list[0].1, max),
            list.drop_first(),
            max,
        );
    }
}

/// Ending a block keeps the state well-formed.
pub proof fn lemma_block_ended_wf<AccountId>(
    s: State<AccountId>,
    did_update: Option<Seq<ParaId>>,
    max: u32,
)
    requires
        s.wf(max),
    ensures
        s.block_ended(did_update, max).wf(max),
{
    let t = s.block_ended(did_update, max);
    if let Some(proceeded) = did_update {
        lemma_all_retried_len(s.retry_queue, missed(s.active, proceeded), max);
    }
    assert forall|id: ParaId| #[trigger] t.parachains.contains(id) <==> t.is_chain(id) by {
        assert(s.parachains.contains(id) <==> s.is_chain(id));
    }
}

/// The identifiers of a list of selections, with one more.
pub proof fn lemma_with_selection(s: Seq<Selection>, id: ParaId, collator: CollatorId)
    requires
        ascending(ids_of(s)),
        !ids_of(s).contains(id),
    ensures
        ids_of(with_selection(s, id, collator)) == with_id(ids_of(s), id),
        ascending(ids_of(with_selection(s, id, collator))),
        with_selection(s, id, collator).len() == s.len() + 1,
        with_selection(s, id, collator).contains((id, collator)),
{
    lemma_with_id(ids_of(s), id);
    let k = place(ids_of(s), id);
    let t = with_selection(s, id, collator);
    assert(ids_of(t) =~= with_id(ids_of(s), id));
    assert(t[k] == (id, collator));
}

/// Selecting keeps the state well-formed.
pub proof fn lemma_selected_wf<AccountId>(
    s: State<AccountId>,
    id: ParaId,
    collator: CollatorId,
    max: u32,
)
    requires
        s.wf(max),
        !ids_of(s.open_queues().last()).contains(id),
    ensures
        s.selected(id, collator).wf(max),
{
    let t = s.selected(id, collator);
    let qs = s.open_queues();
    assert(ascending(ids_of(qs.last())));
    lemma_with_selection(qs.last(), id, collator);
    assert forall|i: int| 0 <= i < t.selected_threads.len() implies ascending(
        ids_of(#[trigger] t.selected_threads[i]),
    ) by {
        if i < qs.len() - 1 {
            assert(t.selected_threads[i] == s.selected_threads[i]);
        }
    }
    assert forall|x: ParaId| #[trigger] t.parachains.contains(x) <==> t.is_chain(x) by {
        assert(s.parachains.contains(x) <==> s.is_chain(x));
    }
}

} // verus!
