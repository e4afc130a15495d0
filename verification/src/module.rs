//! The registrar: which paras are registered, and which are scheduled.

use crate::chains::Chains;
use crate::config::{BalanceOf, ReservableCurrency, SwapAux, Trait};
use crate::hashing::{encode_hash, same_hash};
use crate::ids::{ascending, ids_of, lemma_has_place, place, search_id, search_selection, swap_ids};
use crate::queues::{any_waiting, contents, retain_all, take_next_retry, take_next_up};
use crate::schedule::{never_retry, retry_missed, schedule};
use crate::state::{entry, is, is_either, swapped_entries, State};
use crate::types::{
    ActiveEntry, CollatorId, DispatchResult, Event, Origin, ParaId, ParaInfo, Scheduling,
    Selection, H256, LOWEST_USER_ID,
};
use crate::upkeep::{
    lemma_block_begun_wf, lemma_block_ended_wf, lemma_deregistered_wf, lemma_first_waiting,
    lemma_registered_wf, lemma_selected_wf, lemma_shared_wf, lemma_swapped_wf,
    lemma_unscheduled_wf,
};
use crate::validity::{
    Error, InvalidTransaction, TransactionValidity, TransactionValidityError, ValidTransaction,
};
use std::collections::BTreeMap;
use vstd::laws_cmp::*;
use vstd::prelude::*;

verus! {

/// Parachain registration API.
pub trait Registrar<AccountId>: Sized {
    /// What is registered.
    spec fn state(&self) -> State<AccountId>;

    /// What is registered is well-formed.
    spec fn valid(&self) -> bool;

    /// Create a new unique parachain identity for later registration.
    fn new_id(&mut self) -> (r: ParaId)
        requires
            old(self).valid(),
            old(self).state().next_free_id < ParaId::MAX,
        ensures
            final(self).valid(),
            r == old(self).state().next_free_id,
            final(self).state() == old(self).state().issued(),
    ;

    /// Register a parachain with given `code` and `initial_head_data`. `id` must not yet be
    /// registered or it will result in a error.
    fn register_para(
        &mut self,
        id: ParaId,
        info: ParaInfo,
        code: Vec<u8>,
        initial_head_data: Vec<u8>,
    ) -> (r: DispatchResult)
        requires
            old(self).valid(),
        ensures
            final(self).valid(),
            r == old(self).state().register_result(id),
            final(self).state() == old(self).state().after_register(
                id,
                info,
                code@,
                initial_head_data@,
            ),
    ;

    /// Deregister a parachain with given `id`. If `id` is not currently registered, an error is
    /// returned.
    fn deregister_para(&mut self, id: ParaId) -> (r: DispatchResult)
        requires
            old(self).valid(),
        ensures
            final(self).valid(),
            r == old(self).state().deregister_result(id),
            final(self).state() == old(self).state().after_deregister(id),
    ;
}

/// The parachains that are registered from the start, each with its code and its head data.
pub struct GenesisConfig {
    pub parachains: Vec<(ParaId, Vec<u8>, Vec<u8>)>,
}

impl View for GenesisConfig {
    type V = Seq<(ParaId, Seq<u8>, Seq<u8>)>;

    open spec fn view(&self) -> Seq<(ParaId, Seq<u8>, Seq<u8>)> {
        self.parachains@.map_values(|e: (ParaId, Vec<u8>, Vec<u8>)| (e.0, e.1@, e.2@))
    }
}

/// The state in which the parachains of `list` are registered, and no others; of several entries
/// for one identifier the first counts.
pub open spec fn genesis<AccountId>(list: Seq<(ParaId, Seq<u8>, Seq<u8>)>) -> State<AccountId>
    decreases list.len(),
{
    if list.len() == 0 {
        State::initial()
    } else {
        genesis::<AccountId>(list.drop_last()).born(list.last().0, list.last().1, list.last().2)
    }
}

/// The registrar.
pub struct Module<T: Trait> {
    parachains: Vec<ParaId>,
    thread_count: u32,
    selected_threads: Vec<Vec<Selection>>,
    active: Vec<ActiveEntry>,
    next_free_id: ParaId,
    pending_swap: BTreeMap<ParaId, ParaId>,
    paras: BTreeMap<ParaId, ParaInfo>,
    retry_queue: Vec<Vec<Selection>>,
    debtors: BTreeMap<ParaId, T::AccountId>,
    chains: Chains,
    events: Vec<Event>,
}

impl<T: Trait> View for Module<T> {
    type V = State<T::AccountId>;

    closed spec fn view(&self) -> State<T::AccountId> {
        State {
            parachains: self.parachains@,
            thread_count: self.thread_count,
            selected_threads: contents(self.selected_threads@),
            active: self.active@,
            next_free_id: self.next_free_id,
            pending_swap: self.pending_swap@,
            paras: self.paras@,
            retry_queue: contents(self.retry_queue@),
            debtors: self.debtors@,
            chains: self.chains@,
            events: self.events@,
        }
    }
}

/// Said to a sender other than the system itself.
pub const NOT_ROOT: &'static str = "bad origin: expected to be a root origin";

/// Said to a sender without an account.
pub const NOT_SIGNED: &'static str = "bad origin: expected to be a signed origin";

/// Said to a sender other than a para.
pub const NOT_PARACHAIN: &'static str = "bad origin: expected to be a parachain origin";

/// Ensures that the sender is the system itself.
fn ensure_root<AccountId>(origin: Origin<AccountId>) -> (r: Result<(), &'static str>)
    ensures
        r == if origin is Root {
            Ok(())
        } else {
            Err(NOT_ROOT)
        },
{
    match origin {
        Origin::Root => Ok(()),
        _ => Err(NOT_ROOT),
    }
}

/// Ensures that the sender is the holder of an account, and tells which.
fn ensure_signed<AccountId>(origin: Origin<AccountId>) -> (r: Result<AccountId, &'static str>)
    ensures
        r == match origin {
            Origin::Signed(who) => Ok(who),
            _ => Err(NOT_SIGNED),
        },
{
    match origin {
        Origin::Signed(who) => Ok(who),
        _ => Err(NOT_SIGNED),
    }
}

/// Ensures that the sender is a para, and tells which.
fn ensure_parachain<AccountId>(origin: Origin<AccountId>) -> (r: Result<ParaId, &'static str>)
    ensures
        r == match origin {
            Origin::Parachain(id) => Ok(id),
            _ => Err(NOT_PARACHAIN),
        },
{
    match origin {
        Origin::Parachain(id) => Ok(id),
        _ => Err(NOT_PARACHAIN),
    }
}

/// A copy of `v`.
fn copy_bytes(v: &Vec<u8>) -> (r: Vec<u8>)
    ensures
        r@ == v@,
{
    let r: Vec<u8> = v.clone();
    assert(r@ =~= v@);
    r
}

/// Swaps what is kept of `one` and `other`.
fn swap_entries<V>(m: &mut BTreeMap<ParaId, V>, one: ParaId, other: ParaId)
    ensures
        final(m)@ == swapped_entries(old(m)@, one, other),
{
    broadcast use group_laws_cmp;

    let ghost goal = swapped_entries(m@, one, other);
    let of_one: Option<V> = m.remove(&one);
    let of_other: Option<V> = m.remove(&other);
    if let Some(v) = of_other {
        m.insert(one, v);
    }
    if let Some(v) = of_one {
        m.insert(other, v);
    }
    assert(m@ =~= goal);
}

impl<T: Trait> Registrar<T::AccountId> for Module<T> {
    open spec fn state(&self) -> State<T::AccountId> {
        self@
    }

    open spec fn valid(&self) -> bool {
        self.wf()
    }

    fn new_id(&mut self) -> (r: ParaId) {
        let ghost goal = self@.issued();
        let r: ParaId = self.next_free_id;
        self.next_free_id = r + 1;
        assert(self@ =~= goal);
        r
    }

    fn register_para(
        &mut self,
        id: ParaId,
        info: ParaInfo,
        code: Vec<u8>,
        initial_head_data: Vec<u8>,
    ) -> (r: DispatchResult) {
        broadcast use group_laws_cmp;

        let ghost start = self@;
        let ghost goal = self@.registered(id, info, code@, initial_head_data@);
        if self.paras.contains_key(&id) {
            return Err("Parachain already exists");
        }
        assert(start.parachains.contains(id) <==> start.is_chain(id));
        if let Scheduling::Always = info.scheduling {
            match search_id(&self.parachains, id) {
                Ok(_) => {
                    return Err("Parachain already exists");
                },
                Err(idx) => {
                    self.parachains.insert(idx, id);
                },
            }
        }
        self.chains.initialize_para(id, code, initial_head_data);
        self.paras.insert(id, info);
        assert(self@ =~= goal);
        proof {
            lemma_registered_wf(
                start,
                id,
                info,
                code@,
                initial_head_data@,
                T::MAX_RETRIES,
            );
        }
        Ok(())
    }

    fn deregister_para(&mut self, id: ParaId) -> (r: DispatchResult) {
        broadcast use group_laws_cmp;

        let ghost start = self@;
        let ghost goal = self@.deregistered(id);
        match self.paras.remove(&id) {
            None => {
                assert(self@ =~= start);
                Err("Invalid id")
            },
            Some(info) => {
                assert(start.parachains.contains(id) <==> start.is_chain(id));
                if let Scheduling::Always = info.scheduling {
                    match search_id(&self.parachains, id) {
                        Ok(index) => {
                            self.parachains.remove(index);
                        },
                        Err(_) => {
                            return Err("Invalid id");
                        },
                    }
                }
                self.chains.cleanup_para(id);
                assert(self@ =~= goal);
                proof {
                    lemma_deregistered_wf(start, id, T::MAX_RETRIES);
                }
                Ok(())
            },
        }
    }
}

impl<T: Trait> Module<T> {
    /// The state is well-formed.
    pub open spec fn wf(&self) -> bool {
        self@.wf(T::MAX_RETRIES)
    }

    /// A registrar with nothing registered.
    pub fn new() -> (r: Self)
        ensures
            r.wf(),
            r@ == State::<T::AccountId>::initial(),
    {
        let r = Module::<T> {
            parachains: Vec::new(),
            thread_count: 0,
            selected_threads: Vec::new(),
            active: Vec::new(),
            next_free_id: LOWEST_USER_ID,
            pending_swap: BTreeMap::new(),
            paras: BTreeMap::new(),
            retry_queue: Vec::new(),
            debtors: BTreeMap::new(),
            chains: Chains::new(),
            events: Vec::new(),
        };
        assert(r@ =~= State::initial());
        r
    }

    /// A registrar with the parachains of `config` registered.
    pub fn build(config: &GenesisConfig) -> (r: Self)
        ensures
            r.wf(),
            r@ == genesis::<T::AccountId>(config@),
    {
        let mut r: Self = Module::new();
        let ghost list = config@;
        let n: usize = config.parachains.len();
        assert(list.take(0) =~= Seq::empty());
        for i in 0..n
            invariant
                n == config.parachains@.len(),
                list == config@,
                r.wf(),
                r@ == genesis::<T::AccountId>(list.take(i as int)),
        {
            let ghost before = r@;
            let ghost upto = list.take(i + 1);
            let id: ParaId = config.parachains[i].0;
            let code: Vec<u8> = copy_bytes(&config.parachains[i].1);
            let head: Vec<u8> = copy_bytes(&config.parachains[i].2);
            assert(upto.drop_last() =~= list.take(i as int));
            assert(upto.last() == (id, code@, head@));
            let info: ParaInfo = ParaInfo { scheduling: Scheduling::Always };
            if Registrar::register_para(&mut r, id, info, code, head).is_ok() {
                let ghost done = r@;
                // no ingress -- a chain cannot be routed to until it is live.
                r.chains.set_watermark(id, 0);
                assert(r@ =~= before.born(id, code@, head@));
                proof {
                    lemma_shared_wf(done, r@, T::MAX_RETRIES);
                }
            }
        }
        assert(list.take(n as int) =~= list);
        r
    }

    /// Register a parachain with given code.
    /// Fails if given ID is already used.
    pub fn register_para(
        &mut self,
        origin: Origin<T::AccountId>,
        id: ParaId,
        info: ParaInfo,
        code: Vec<u8>,
        initial_head_data: Vec<u8>,
    ) -> (r: DispatchResult)
        requires
            old(self).wf(),
        ensures
            final(self).wf(),
            r == if origin is Root {
                old(self)@.register_result(id)
            } else {
                Err(NOT_ROOT)
            },
            final(self)@ == if origin is Root {
                old(self)@.after_register(id, info, code@, initial_head_data@)
            } else {
                old(self)@
            },
    {
        match ensure_root(origin) {
            Ok(()) => Registrar::register_para(self, id, info, code, initial_head_data),
            Err(e) => Err(e),
        }
    }

    /// Deregister a parachain with given id
    pub fn deregister_para(&mut self, origin: Origin<T::AccountId>, id: ParaId) -> (r:
        DispatchResult)
        requires
            old(self).wf(),
        ensures
            final(self).wf(),
            r == if origin is Root {
                old(self)@.deregister_result(id)
            } else {
                Err(NOT_ROOT)
            },
            final(self)@ == if origin is Root {
                old(self)@.after_deregister(id)
            } else {
                old(self)@
            },
    {
        match ensure_root(origin) {
            Ok(()) => Registrar::deregister_para(self, id),
            Err(e) => Err(e),
        }
    }

    /// Reset the number of parathreads that can pay to be scheduled in a single block.
    ///
    /// - `count`: The number of parathreads.
    ///
    /// Must be called from Root origin.
    pub fn set_thread_count(&mut self, origin: Origin<T::AccountId>, count: u32) -> (r:
        DispatchResult)
        requires
            old(self).wf(),
        ensures
            final(self).wf(),
            r == if origin is Root {
                Ok(())
            } else {
                Err(NOT_ROOT)
            },
            final(self)@ == if origin is Root {
                old(self)@.with_thread_count(count)
            } else {
                old(self)@
            },
    {
        let ghost goal = self@.with_thread_count(count);
        match ensure_root(origin) {
            Ok(()) => {
                self.thread_count = count;
                assert(self@ =~= goal);
                Ok(())
            },
            Err(e) => Err(e),
        }
    }

    /// Register a parathread for immediate use.
    ///
    /// Must be sent from a Signed origin that is able to have the parathread deposit reserved.
    /// `code` and `initial_head_data` are used to initialize the parathread's state.
    ///
    /// The currency is asked once to reserve the deposit of a Signed origin, and is asked for
    /// nothing else.
    pub fn register_parathread(
        &mut self,
        currency: &mut T::Currency,
        origin: Origin<T::AccountId>,
        code: Vec<u8>,
        initial_head_data: Vec<u8>,
    ) -> (r: DispatchResult)
        requires
            old(self).wf(),
            origin is Signed ==> old(self)@.next_free_id < ParaId::MAX,
        ensures
            final(self).wf(),
            match origin {
                Origin::Signed(who) => {
                    &&& exists|asked: &mut T::Currency|
                        {
                            &&& *asked == *old(currency)
                            &&& *final(asked) == *final(currency)
                            &&& #[trigger] call_ensures(
                                T::Currency::reserve,
                                (asked, &who, T::PARATHREAD_DEPOSIT),
                                r,
                            )
                        }
                    &&& final(self)@ == if r is Ok {
                        old(self)@.parathread_registered(who, code@, initial_head_data@)
                    } else {
                        old(self)@
                    }
                },
                _ => {
                    &&& r == Err::<(), &'static str>(NOT_SIGNED)
                    &&& final(self)@ == old(self)@
                    &&& *final(currency) == *old(currency)
                },
            },
    {
        match ensure_signed(origin) {
            Ok(who) => {
                let reserved: Result<(), &'static str> = currency.reserve(
                    &who,
                    T::PARATHREAD_DEPOSIT,
                );
                self.complete_registration(who, reserved, code, initial_head_data)
            },
            Err(e) => Err(e),
        }
    }

    /// Registers a parathread for `who`, where `reserved` tells whether the deposit could be
    /// reserved.
    pub fn complete_registration(
        &mut self,
        who: T::AccountId,
        reserved: Result<(), &'static str>,
        code: Vec<u8>,
        initial_head_data: Vec<u8>,
    ) -> (r: DispatchResult)
        requires
            old(self).wf(),
            reserved is Ok ==> old(self)@.next_free_id < ParaId::MAX,
        ensures
            final(self).wf(),
            r == reserved,
            final(self)@ == if reserved is Ok {
                old(self)@.parathread_registered(who, code@, initial_head_data@)
            } else {
                old(self)@
            },
    {
        broadcast use group_laws_cmp;

        if let Err(e) = reserved {
            return Err(e);
        }
        let ghost goal = self@.parathread_registered(who, code@, initial_head_data@);
        let info: ParaInfo = ParaInfo { scheduling: Scheduling::Dynamic };
        let id: ParaId = self.new_id();
        let _ = Registrar::register_para(self, id, info, code, initial_head_data);
        let ghost done = self@;
        self.debtors.insert(id, who);
        self.events.push(Event::ParathreadRegistered(id));
        assert(self@ =~= goal);
        proof {
            lemma_shared_wf(done, self@, T::MAX_RETRIES);
        }
        reserved
    }

    /// Place a bid for a parathread to be progressed in the next block.
    ///
    /// This is a kind of special transaction that should by heavily prioritized in the
    /// transaction pool according to the `value`; only `ThreadCount` of them may be presented
    /// in any single block. All but the sender is checked when the transaction is validated.
    pub fn select_parathread(
        &mut self,
        origin: Origin<T::AccountId>,
        _id: ParaId,
        _collator: CollatorId,
        _head_hash: H256,
    ) -> (r: DispatchResult)
        ensures
            r == if origin is Signed {
                Ok(())
            } else {
                Err(NOT_SIGNED)
            },
            *final(self) == *old(self),
    {
        match ensure_signed(origin) {
            Ok(_) => Ok(()),
            Err(e) => Err(e),
        }
    }

    /// Deregister a parathread and retrieve the deposit.
    ///
    /// Must be sent from a `Parachain` origin which is currently a parathread.
    ///
    /// Ensure that before calling this that any funds you want emptied from the parathread's
    /// account is moved out; after this it will be impossible to retrieve them (without
    /// governance intervention).
    ///
    /// The currency is told once to give the deposit back to the debtor, if a parathread is
    /// deregistered, and is told nothing else. Where no debtor is known, the default account takes
    /// the place.
    pub fn deregister_parathread(
        &mut self,
        currency: &mut T::Currency,
        origin: Origin<T::AccountId>,
    ) -> (r: DispatchResult)
        requires
            old(self).wf(),
        ensures
            final(self).wf(),
            r == match origin {
                Origin::Parachain(id) => old(self)@.deregister_parathread_result(id),
                _ => Err(NOT_PARACHAIN),
            },
            match (origin, r) {
                (Origin::Parachain(id), Ok(())) => {
                    &&& final(self)@ == old(self)@.parathread_deregistered(id)
                    &&& exists|told: &mut T::Currency, debtor: T::AccountId, left: BalanceOf<T>|
                        {
                            &&& *told == *old(currency)
                            &&& *final(told) == *final(currency)
                            &&& match entry(old(self)@.debtors, id) {
                                Some(who) => debtor == who,
                                None => call_ensures(T::AccountId::default, (), debtor),
                            }
                            &&& #[trigger] call_ensures(
                                T::Currency::unreserve,
                                (told, &debtor, T::PARATHREAD_DEPOSIT),
                                left,
                            )
                        }
                },
                _ => {
                    &&& final(self)@ == old(self)@
                    &&& *final(currency) == *old(currency)
                },
            },
    {
        match ensure_parachain(origin) {
            Ok(id) => match self.remove_parathread(id) {
                Ok(found) => {
                    let debtor: T::AccountId = match found {
                        Some(who) => who,
                        None => T::AccountId::default(),
                    };
                    let _ = currency.unreserve(&debtor, T::PARATHREAD_DEPOSIT);
                    Ok(())
                },
                Err(e) => Err(e),
            },
            Err(e) => Err(e),
        }
    }

    /// Removes the parathread `id`, also from all scheduling, and returns who paid its deposit.
    pub fn remove_parathread(&mut self, id: ParaId) -> (r: Result<
        Option<T::AccountId>,
        &'static str,
    >)
        requires
            old(self).wf(),
        ensures
            final(self).wf(),
            match old(self)@.deregister_parathread_result(id) {
                Ok(()) => {
                    &&& r == Ok::<_, &'static str>(entry(old(self)@.debtors, id))
                    &&& final(self)@ == old(self)@.parathread_deregistered(id)
                },
                Err(e) => {
                    &&& r == Err::<Option<T::AccountId>, _>(e)
                    &&& final(self)@ == old(self)@
                },
            },
    {
        broadcast use group_laws_cmp;

        let ghost start = self@;
        let info: ParaInfo = match self.paras.get(&id) {
            Some(info) => *info,
            None => {
                return Err("invalid id");
            },
        };
        if let Scheduling::Dynamic = info.scheduling {
        } else {
            return Err("invalid parathread id");
        }
        match Registrar::deregister_para(self, id) {
            Ok(()) => (),
            Err(e) => {
                return Err(e);
            },
        }
        let m = |i: ParaId| -> (b: bool)
            ensures
                b == is(id)(i),
            {
                i == id
            };
        self.force_unschedule(m, Ghost(is(id)));
        let ghost done = self@;
        let debtor: Option<T::AccountId> = self.debtors.remove(&id);
        self.events.push(Event::ParathreadDeregistered(id));
        assert(self@ =~= start.parathread_deregistered(id));
        proof {
            lemma_shared_wf(done, self@, T::MAX_RETRIES);
        }
        Ok(debtor)
    }

    /// Swap a parachain with another parachain or parathread. The origin must be a `Parachain`.
    /// The swap will happen only if there is already an opposite swap pending. If there is not,
    /// the swap will be stored in the pending swaps map, ready for a later confirmatory swap.
    ///
    /// The `ParaId`s remain mapped to the same head data and code so external code can rely on
    /// `ParaId` to be a long-term identifier of a notional "parachain". However, their
    /// scheduling info (i.e. whether they're a parathread or parachain), auction information
    /// and the auction deposit are switched.
    ///
    /// The handler is asked once whether the two may be swapped, and told once that they were. It
    /// is asked nothing where no opposite swap is pending, and told nothing where it objected.
    pub fn swap(
        &mut self,
        swap_aux: &mut T::SwapAux,
        origin: Origin<T::AccountId>,
        other: ParaId,
    ) -> (r: DispatchResult)
        requires
            old(self).wf(),
        ensures
            final(self).wf(),
            match origin {
                Origin::Parachain(id) => if old(self)@.swap_pending(id, other) {
                    &&& exists|asked: &mut T::SwapAux|
                        {
                            &&& *asked == *old(swap_aux)
                            &&& #[trigger] call_ensures(
                                T::SwapAux::ensure_can_swap,
                                (asked, id, other),
                                r,
                            )
                            &&& if r is Ok {
                                exists|told: &mut T::SwapAux, done: Result<(), &'static str>|
                                    {
                                        &&& *told == *final(asked)
                                        &&& *final(told) == *final(swap_aux)
                                        &&& #[trigger] call_ensures(
                                            T::SwapAux::on_swap,
                                            (told, id, other),
                                            done,
                                        )
                                    }
                            } else {
                                *final(asked) == *final(swap_aux)
                            }
                        }
                    &&& final(self)@ == if r is Ok {
                        old(self)@.swapped(id, other)
                    } else {
                        old(self)@
                    }
                } else {
                    &&& r == Ok::<(), &'static str>(())
                    &&& final(self)@ == old(self)@.swap_asked(id, other)
                    &&& *final(swap_aux) == *old(swap_aux)
                },
                _ => {
                    &&& r == Err::<(), &'static str>(NOT_PARACHAIN)
                    &&& final(self)@ == old(self)@
                    &&& *final(swap_aux) == *old(swap_aux)
                },
            },
    {
        let id: ParaId = match ensure_parachain(origin) {
            Ok(id) => id,
            Err(e) => {
                return Err(e);
            },
        };
        if self.has_pending_swap(id, other) {
            let allowed: Result<(), &'static str> = swap_aux.ensure_can_swap(id, other);
            let r: DispatchResult = self.complete_swap(id, other, allowed);
            if r.is_ok() {
                let _ = swap_aux.on_swap(id, other);
            }
            r
        } else {
            self.ask_swap(id, other);
            Ok(())
        }
    }

    /// Whether `other` has asked for a swap with `id`.
    fn has_pending_swap(&self, id: ParaId, other: ParaId) -> (r: bool)
        ensures
            r == self@.swap_pending(id, other),
    {
        broadcast use group_laws_cmp;

        match self.pending_swap.get(&other) {
            Some(asked) => *asked == id,
            None => false,
        }
    }

    /// Notes that `id` asks for a swap with `other`.
    fn ask_swap(&mut self, id: ParaId, other: ParaId)
        requires
            old(self).wf(),
        ensures
            final(self).wf(),
            final(self)@ == old(self)@.swap_asked(id, other),
    {
        broadcast use group_laws_cmp;

        let ghost start = self@;
        self.pending_swap.insert(id, other);
        assert(self@ =~= start.swap_asked(id, other));
        proof {
            lemma_shared_wf(start, self@, T::MAX_RETRIES);
        }
    }

    /// Swaps `id` and `other`, where `allowed` tells whether that may be done.
    pub fn complete_swap(
        &mut self,
        id: ParaId,
        other: ParaId,
        allowed: Result<(), &'static str>,
    ) -> (r: DispatchResult)
        requires
            old(self).wf(),
        ensures
            final(self).wf(),
            r == allowed,
            final(self)@ == if allowed is Ok {
                old(self)@.swapped(id, other)
            } else {
                old(self)@
            },
    {
        broadcast use group_laws_cmp;

        if let Err(e) = allowed {
            return Err(e);
        }
        let ghost start = self@;
        // Remove intention to swap.
        self.pending_swap.remove(&other);
        proof {
            lemma_shared_wf(start, self@, T::MAX_RETRIES);
        }
        let m = |i: ParaId| -> (b: bool)
            ensures
                b == is_either(id, other)(i),
            {
                i == id || i == other
            };
        self.force_unschedule(m, Ghost(is_either(id, other)));
        swap_ids(&mut self.parachains, id, other);
        swap_entries(&mut self.paras, id, other);
        swap_entries(&mut self.debtors, id, other);
        assert(self@ =~= start.swapped(id, other));
        proof {
            lemma_swapped_wf(start, id, other, T::MAX_RETRIES);
        }
        allowed
    }

    /// Block initializer. Moves the selected threads up by one block and replaces the active
    /// paras.
    pub fn on_initialize(&mut self)
        requires
            old(self).wf(),
            T::QUEUE_SIZE > 0 || old(self)@.selected_threads.len() > 0,
        ensures
            final(self).wf(),
            final(self)@ == old(self)@.block_begun(T::QUEUE_SIZE),
    {
        let ghost start = self@;
        assert(start.selected_threads.len() == self.selected_threads@.len());
        assert(start.retry_queue.len() == self.retry_queue@.len());
        let next_up: Vec<Selection> = take_next_up(&mut self.selected_threads, T::QUEUE_SIZE);
        let next: Option<(Selection, u32)> = take_next_retry(&mut self.retry_queue);
        proof {
            if any_waiting(start.retry_queue) {
                lemma_first_waiting(start.retry_queue);
            }
        }
        self.active = schedule(&self.parachains, &next_up, next);
        assert(self@ =~= start.block_begun(T::QUEUE_SIZE));
        proof {
            lemma_block_begun_wf(start, T::QUEUE_SIZE, T::MAX_RETRIES);
        }
    }

    /// Block finalizer. `did_update` lists the active paras that proceeded in the block, in the
    /// order in which they are active. Those that did not are queued for a retry, if they may be
    /// retried. Nothing is done where `did_update` is missing.
    pub fn on_finalize(&mut self, did_update: Option<Vec<ParaId>>)
        requires
            old(self).wf(),
        ensures
            final(self).wf(),
            final(self)@ == old(self)@.block_ended(
                match did_update {
                    Some(proceeded) => Some(proceeded@),
                    None => None,
                },
                T::MAX_RETRIES,
            ),
    {
        let ghost start = self@;
        if let Some(proceeded) = did_update {
            retry_missed(&mut self.retry_queue, &self.active, &proceeded, T::MAX_RETRIES);
            assert(self@ =~= start.block_ended(Some(proceeded@), T::MAX_RETRIES));
            proof {
                lemma_block_ended_wf(start, Some(proceeded@), T::MAX_RETRIES);
            }
        }
    }

    /// Forcibly remove the threads matching `m` from all current and future scheduling.
    fn force_unschedule<F: Fn(ParaId) -> bool>(
        &mut self,
        m: F,
        Ghost(matching): Ghost<spec_fn(ParaId) -> bool>,
    )
        requires
            old(self).wf(),
            forall|id: ParaId| call_requires(m, (id,)),
            forall|id: ParaId, b: bool| call_ensures(m, (id,), b) ==> b == matching(id),
        ensures
            final(self).wf(),
            final(self)@ == old(self)@.unscheduled(matching),
    {
        let ghost start = self@;
        retain_all(&mut self.retry_queue, &m, Ghost(matching));
        retain_all(&mut self.selected_threads, &m, Ghost(matching));
        never_retry(&mut self.active, &m, Ghost(matching));
        assert(self@ =~= start.unscheduled(matching));
        proof {
            lemma_unscheduled_wf(start, matching, T::MAX_RETRIES);
        }
    }

    /// Ensures that the given `ParaId` corresponds to a registered parathread, and returns a
    /// descriptor if so.
    pub fn ensure_thread_id(&self, id: ParaId) -> (r: Option<ParaInfo>)
        ensures
            r == if self@.is_thread(id) {
                Some(self@.paras[id])
            } else {
                None
            },
    {
        match self.paras(id) {
            Some(info) => if let Scheduling::Dynamic = info.scheduling {
                Some(info)
            } else {
                None
            },
            None => None,
        }
    }

    /// Where a selection of `id` would be put among those for the last block of the queue, or why
    /// it may not be selected, whatever its head.
    pub fn selection_place(&self, id: ParaId) -> (r: Result<usize, TransactionValidityError>)
        requires
            self.wf(),
        ensures
            match self@.selection_refused(id) {
                Some(e) => r == Err::<usize, _>(TransactionValidityError::Invalid(e)),
                None => r is Ok && r->Ok_0 == place(ids_of(self@.open_queues().last()), id),
            },
    {
        // ensure that the para ID is actually a parathread.
        if self.ensure_thread_id(id).is_none() {
            return Err(
                TransactionValidityError::Invalid(
                    InvalidTransaction::Custom(Error::InvalidId.code()),
                ),
            );
        }
        let n: usize = self.selected_threads.len();
        let none: Vec<Selection> = Vec::new();
        let last: &Vec<Selection> = if n == 0 {
            &none
        } else {
            &self.selected_threads[n - 1]
        };
        let ghost qs = self@.open_queues();
        assert(last@ =~= qs.last());
        assert(ascending(ids_of(last@)));
        // ensure that we haven't already had a full complement of selected parathreads.
        if last.len() >= self.thread_count as usize {
            return Err(TransactionValidityError::Invalid(InvalidTransaction::ExhaustsResources));
        }
        // ensure that this is not selecting a duplicate parathread ID
        match search_selection(last, id) {
            Ok(_) => Err(
                TransactionValidityError::Invalid(
                    InvalidTransaction::Custom(Error::Duplicate.code()),
                ),
            ),
            Err(pos) => Ok(pos),
        }
    }

    /// Selects `id`, which may be selected and belongs at `pos`, provided that the hash `actual`
    /// of its head is the one that was bid on.
    pub fn commit_selection(
        &mut self,
        id: ParaId,
        collator: CollatorId,
        pos: usize,
        hash: &H256,
        actual: &H256,
    ) -> (r: TransactionValidity)
        requires
            old(self).wf(),
            old(self)@.selection_refused(id) is None,
            pos == place(ids_of(old(self)@.open_queues().last()), id),
        ensures
            final(self).wf(),
            if actual@ == hash@ {
                &&& r is Ok && r->Ok_0.provides_only(seq![hash@])
                &&& final(self)@ == old(self)@.selected(id, collator)
            } else {
                &&& r == Err::<ValidTransaction, _>(
                    TransactionValidityError::Invalid(InvalidTransaction::Stale),
                )
                &&& final(self)@ == old(self)@
            },
    {
        // ensure that this is a live bid (i.e. that the thread's chain head matches)
        if !same_hash(actual, hash) {
            return Err(TransactionValidityError::Invalid(InvalidTransaction::Stale));
        }
        let ghost start = self@;
        proof {
            let last = start.open_queues().last();
            assert(ascending(ids_of(last)));
            lemma_has_place(ids_of(last), id);
        }
        // update the selected threads.
        if self.selected_threads.len() == 0 {
            self.selected_threads.push(Vec::new());
        }
        assert(contents(self.selected_threads@) =~= start.open_queues());
        assert(self.selected_threads@.len() == start.open_queues().len());
        let i: usize = self.selected_threads.len() - 1;
        assert(self.selected_threads@[i as int]@ == start.open_queues().last());
        self.selected_threads[i].insert(pos, (id, collator));
        assert(self@.selected_threads =~= start.selected(id, collator).selected_threads);
        assert(self@ =~= start.selected(id, collator));
        proof {
            lemma_selected_wf(start, id, collator, T::MAX_RETRIES);
        }
        // provides the state-transition for this head-data-hash; this should cue the pool
        // to throw out competing transactions with lesser fees.
        let mut r: ValidTransaction = ValidTransaction::default();
        r.provides.push(encode_hash(hash));
        assert(r.provides@.map_values(|tag: Vec<u8>| tag@) =~= seq![hash@]);
        Ok(r)
    }

    /// The paras that may execute in the current block.
    pub fn active_paras(&self) -> (r: Vec<ActiveEntry>)
        ensures
            r@ == self@.active,
    {
        let mut r: Vec<ActiveEntry> = Vec::new();
        for i in 0..self.active.len()
            invariant
                r@ == self.active@.take(i as int),
        {
            r.push(self.active[i]);
            assert(self.active@.take(i + 1) =~= self.active@.take(i as int).push(
                self.active@[i as int],
            ));
        }
        assert(self.active@.take(self.active@.len() as int) =~= self.active@);
        r
    }

    /// What is registered of `id`.
    pub fn paras(&self, id: ParaId) -> (r: Option<ParaInfo>)
        ensures
            r == entry(self@.paras, id),
    {
        broadcast use group_laws_cmp;

        match self.paras.get(&id) {
            Some(info) => Some(*info),
            None => None,
        }
    }

    /// All parachain IDs, in ascending order.
    pub fn parachains(&self) -> (r: &Vec<ParaId>)
        ensures
            r@ == self@.parachains,
    {
        &self.parachains
    }

    /// The number of threads to schedule per block.
    pub fn thread_count(&self) -> (r: u32)
        ensures
            r == self@.thread_count,
    {
        self.thread_count
    }

    /// The threads scheduled for the coming blocks.
    pub fn selected_threads(&self) -> (r: &Vec<Vec<Selection>>)
        ensures
            contents(r@) == self@.selected_threads,
    {
        &self.selected_threads
    }

    /// The next unused para ID.
    pub fn next_free_id(&self) -> (r: ParaId)
        ensures
            r == self@.next_free_id,
    {
        self.next_free_id
    }

    /// With which para `id` has asked for a swap.
    pub fn pending_swap(&self, id: ParaId) -> (r: Option<ParaId>)
        ensures
            r == entry(self@.pending_swap, id),
    {
        broadcast use group_laws_cmp;

        match self.pending_swap.get(&id) {
            Some(other) => Some(*other),
            None => None,
        }
    }

    /// The parathreads that should be retried, by the number of retries made.
    pub fn retry_queue(&self) -> (r: &Vec<Vec<Selection>>)
        ensures
            contents(r@) == self@.retry_queue,
    {
        &self.retry_queue
    }

    /// Who has paid the deposit of `id`.
    pub fn debtor(&self, id: ParaId) -> (r: Option<&T::AccountId>)
        ensures
            match r {
                Some(who) => entry(self@.debtors, id) == Some(*who),
                None => entry(self@.debtors, id) is None,
            },
    {
        broadcast use group_laws_cmp;

        self.debtors.get(&id)
    }

    /// Code and head data of the paras.
    pub fn chains(&self) -> (r: &Chains)
        ensures
            r@ == self@.chains,
    {
        &self.chains
    }

    /// What was reported so far.
    pub fn events(&self) -> (r: &Vec<Event>)
        ensures
            r@ == self@.events,
    {
        &self.events
    }
}

} // verus!
