//! What the registrar remembers, and how each operation changes it.

use crate::chains::ChainData;
use crate::ids::{ascending, ids_of, swapped_ids, with_id, with_selection, without_id};
use crate::queues::{all_ascending, all_kept, moved_up, next_retry, next_retry_taken, next_up};
use crate::schedule::{
    all_never_retried, all_retried_later, by_id, missed, retrying, sorted_by_id, upcoming,
};
use crate::types::{
    ActiveEntry, CollatorId, Event, ParaId, ParaInfo, Retriable, Scheduling, Selection,
    H256, LOWEST_USER_ID,
};
use crate::validity::{Error, InvalidTransaction};
use vstd::prelude::*;

verus! {

/// The value of `m` at `id`, where there is one.
pub open spec fn entry<V>(m: Map<ParaId, V>, id: ParaId) -> Option<V> {
    if m.contains_key(id) {
        Some(m[id])
    } else {
        None
    }
}

/// `m` with `v` at `id`; with nothing there, where `v` is none.
pub open spec fn with_entry<V>(m: Map<ParaId, V>, id: ParaId, v: Option<V>) -> Map<ParaId, V> {
    match v {
        Some(x) => m.insert(id, x),
        None => m.remove(id),
    }
}

/// `m` in which `one` and `other` have swapped what is kept of them.
pub open spec fn swapped_entries<V>(m: Map<ParaId, V>, one: ParaId, other: ParaId) -> Map<
    ParaId,
    V,
> {
    with_entry(with_entry(m, one, entry(m, other)), other, entry(m, one))
}

/// Is `id`.
pub open spec fn is(id: ParaId) -> spec_fn(ParaId) -> bool {
    |i: ParaId| i == id
}

/// Is `one` or `other`.
pub open spec fn is_either(one: ParaId, other: ParaId) -> spec_fn(ParaId) -> bool {
    |i: ParaId| i == one || i == other
}

/// The state of the registrar.
#[verifier::ext_equal]
#[verifier::reject_recursive_types(AccountId)]
pub struct State<AccountId> {
    /// All parachain IDs, in ascending order.
    pub parachains: Seq<ParaId>,
    /// The number of threads to schedule per block.
    pub thread_count: u32,
    /// The queue of sets of threads scheduled for the coming blocks; each ordered by ascending
    /// para ID, without duplicates.
    pub selected_threads: Seq<Seq<Selection>>,
    /// Parathreads/chains scheduled for execution this block, ordered by para ID.
    pub active: Seq<ActiveEntry>,
    /// The next unused para ID.
    pub next_free_id: ParaId,
    /// Pending swap operations.
    pub pending_swap: Map<ParaId, ParaId>,
    /// All registered parathreads/chains.
    pub paras: Map<ParaId, ParaInfo>,
    /// The queues for parathreads that should be retried, by the number of retries made.
    pub retry_queue: Seq<Seq<Selection>>,
    /// Users who have paid a parathread's deposit.
    pub debtors: Map<ParaId, AccountId>,
    /// Code and head data.
    pub chains: ChainData,
    /// What was reported.
    pub events: Seq<Event>,
}

impl<AccountId> State<AccountId> {
    /// `id` is registered as a parathread.
    pub open spec fn is_thread(self, id: ParaId) -> bool {
        self.paras.contains_key(id) && self.paras[id].scheduling is Dynamic
    }

    /// `id` is registered as a parachain.
    pub open spec fn is_chain(self, id: ParaId) -> bool {
        self.paras.contains_key(id) && self.paras[id].scheduling is Always
    }

    /// What holds of the state at any time, where a parathread is retried `max_retries` times.
    pub open spec fn wf(self, max_retries: u32) -> bool {
        &&& ascending(self.parachains)
        &&& forall|id: ParaId| #[trigger] self.parachains.contains(id) <==> self.is_chain(id)
        &&& all_ascending(self.selected_threads)
        &&& by_id(self.active)
        &&& forall|i: int|
            0 <= i < self.active.len() ==> ((#[trigger] self.active[i]).1 matches Some(
                (_, Retriable::WithRetries(n)),
            ) ==> n <= max_retries)
        &&& self.retry_queue.len() <= max_retries
        &&& self.next_free_id >= LOWEST_USER_ID
    }

    /// Nothing is registered.
    pub open spec fn initial() -> Self {
        State {
            parachains: Seq::empty(),
            thread_count: 0,
            selected_threads: Seq::empty(),
            active: Seq::empty(),
            next_free_id: LOWEST_USER_ID,
            pending_swap: Map::empty(),
            paras: Map::empty(),
            retry_queue: Seq::empty(),
            debtors: Map::empty(),
            chains: ChainData::empty(),
            events: Seq::empty(),
        }
    }

    /// `id` is a parachain from the start, unless it is registered already.
    pub open spec fn born(self, id: ParaId, code: Seq<u8>, head: Seq<u8>) -> Self {
        if self.paras.contains_key(id) {
            self
        } else {
            let s = self.registered(id, ParaInfo { scheduling: Scheduling::Always }, code, head);
            State { chains: s.chains.watermarked(id, 0), ..s }
        }
    }

    /// One identifier was handed out.
    pub open spec fn issued(self) -> Self {
        State { next_free_id: (self.next_free_id + 1) as ParaId, ..self }
    }

    /// `id`, which was not registered, is.
    pub open spec fn registered(
        self,
        id: ParaId,
        info: ParaInfo,
        code: Seq<u8>,
        head: Seq<u8>,
    ) -> Self {
        State {
            parachains: if info.scheduling is Always {
                with_id(self.parachains, id)
            } else {
                self.parachains
            },
            paras: self.paras.insert(id, info),
            chains: self.chains.initialized(id, code, head),
            ..self
        }
    }

    /// `id`, which was registered, is not.
    pub open spec fn deregistered(self, id: ParaId) -> Self {
        State {
            parachains: if self.paras[id].scheduling is Always {
                without_id(self.parachains, id)
            } else {
                self.parachains
            },
            paras: self.paras.remove(id),
            chains: self.chains.cleaned_up(id),
            ..self
        }
    }

    /// Whether `id` can be registered.
    pub open spec fn register_result(self, id: ParaId) -> Result<(), &'static str> {
        if self.paras.contains_key(id) {
            Err("Parachain already exists")
        } else {
            Ok(())
        }
    }

    /// After an attempt to register `id`.
    pub open spec fn after_register(
        self,
        id: ParaId,
        info: ParaInfo,
        code: Seq<u8>,
        head: Seq<u8>,
    ) -> Self {
        if self.paras.contains_key(id) {
            self
        } else {
            self.registered(id, info, code, head)
        }
    }

    /// Whether `id` can be deregistered.
    pub open spec fn deregister_result(self, id: ParaId) -> Result<(), &'static str> {
        if self.paras.contains_key(id) {
            Ok(())
        } else {
            Err("Invalid id")
        }
    }

    /// After an attempt to deregister `id`.
    pub open spec fn after_deregister(self, id: ParaId) -> Self {
        if self.paras.contains_key(id) {
            self.deregistered(id)
        } else {
            self
        }
    }

    /// So many threads can be scheduled per block.
    pub open spec fn with_thread_count(self, count: u32) -> Self {
        State { thread_count: count, ..self }
    }

    /// `who`, whose deposit is reserved, has registered a parathread under the next free ID.
    pub open spec fn parathread_registered(
        self,
        who: AccountId,
        code: Seq<u8>,
        head: Seq<u8>,
    ) -> Self {
        let id = self.next_free_id;
        let s = self.issued().after_register(
            id,
            ParaInfo { scheduling: Scheduling::Dynamic },
            code,
            head,
        );
        State {
            debtors: s.debtors.insert(id, who),
            events: s.events.push(Event::ParathreadRegistered(id)),
            ..s
        }
    }

    /// The paras that match are in none of the queues, and are not retried.
    pub open spec fn unscheduled(self, matching: spec_fn(ParaId) -> bool) -> Self {
        State {
            retry_queue: all_kept(self.retry_queue, matching),
            selected_threads: all_kept(self.selected_threads, matching),
            active: all_never_retried(self.active, matching),
            ..self
        }
    }

    /// Whether `id` can be deregistered as a parathread.
    pub open spec fn deregister_parathread_result(self, id: ParaId) -> Result<(), &'static str> {
        if !self.paras.contains_key(id) {
            Err("invalid id")
        } else if !self.is_thread(id) {
            Err("invalid parathread id")
        } else {
            Ok(())
        }
    }

    /// The parathread `id` is gone.
    pub open spec fn parathread_deregistered(self, id: ParaId) -> Self {
        let s = self.deregistered(id).unscheduled(is(id));
        State {
            debtors: s.debtors.remove(id),
            events: s.events.push(Event::ParathreadDeregistered(id)),
            ..s
        }
    }

    /// `other` has asked for a swap with `id`.
    pub open spec fn swap_pending(self, id: ParaId, other: ParaId) -> bool {
        entry(self.pending_swap, other) == Some(id)
    }

    /// `id` has asked for a swap with `other`.
    pub open spec fn swap_asked(self, id: ParaId, other: ParaId) -> Self {
        State { pending_swap: self.pending_swap.insert(id, other), ..self }
    }

    /// `id` and `other` have swapped what they are, as `other` had asked for.
    pub open spec fn swapped(self, id: ParaId, other: ParaId) -> Self {
        let s = self.unscheduled(is_either(id, other));
        State {
            pending_swap: s.pending_swap.remove(other),
            parachains: swapped_ids(s.parachains, id, other),
            paras: swapped_entries(s.paras, id, other),
            debtors: swapped_entries(s.debtors, id, other),
            ..s
        }
    }

    /// What is selected for the block that begins.
    pub open spec fn next_up(self, queue_size: usize) -> Seq<Selection> {
        next_up(self.selected_threads, queue_size as nat)
    }

    /// What is retried in the block that begins.
    pub open spec fn next_retry(self, queue_size: usize) -> Option<(Selection, u32)> {
        retrying(next_retry(self.retry_queue), self.next_up(queue_size))
    }

    /// A block has begun.
    pub open spec fn block_begun(self, queue_size: usize) -> Self {
        State {
            selected_threads: moved_up(self.selected_threads, queue_size as nat),
            retry_queue: next_retry_taken(self.retry_queue),
            active: sorted_by_id(
                upcoming(self.parachains, self.next_up(queue_size), self.next_retry(queue_size)),
            ),
            ..self
        }
    }

    /// A block has ended in which the paras in `did_update` proceeded.
    pub open spec fn block_ended(
        self,
        did_update: Option<Seq<ParaId>>,
        max_retries: u32,
    ) -> Self {
        match did_update {
            Some(proceeded) => State {
                retry_queue: all_retried_later(
                    self.retry_queue,
                    missed(self.active, proceeded),
                    max_retries,
                ),
                ..self
            },
            None => self,
        }
    }

    /// The queues of selected threads, of which there is one at least.
    pub open spec fn open_queues(self) -> Seq<Seq<Selection>> {
        if self.selected_threads.len() == 0 {
            seq![Seq::empty()]
        } else {
            self.selected_threads
        }
    }

    /// What speaks against selecting `id`, whatever its head.
    pub open spec fn selection_refused(self, id: ParaId) -> Option<InvalidTransaction> {
        if !self.is_thread(id) {
            Some(InvalidTransaction::Custom(Error::InvalidId.spec_code()))
        } else if self.open_queues().last().len() >= self.thread_count {
            Some(InvalidTransaction::ExhaustsResources)
        } else if ids_of(self.open_queues().last()).contains(id) {
            Some(InvalidTransaction::Custom(Error::Duplicate.spec_code()))
        } else {
            None
        }
    }

    /// What speaks against a bid for `id` on the head that hashes to `hash`, where `head_hash` is
    /// the hash of the head of `id`, if there is one.
    pub open spec fn bid_refused(
        self,
        id: ParaId,
        hash: H256,
        head_hash: Option<H256>,
    ) -> Option<InvalidTransaction> {
        match self.selection_refused(id) {
            Some(e) => Some(e),
            None => match head_hash {
                None => Some(InvalidTransaction::Custom(Error::InvalidId.spec_code())),
                Some(actual) => if actual@ != hash@ {
                    Some(InvalidTransaction::Stale)
                } else {
                    None
                },
            },
        }
    }

    /// `id` is selected, with `collator`.
    pub open spec fn selected(self, id: ParaId, collator: CollatorId) -> Self {
        let qs = self.open_queues();
        State {
            selected_threads: qs.update(qs.len() - 1, with_selection(qs.last(), id, collator)),
            ..self
        }
    }
}

} // verus!
