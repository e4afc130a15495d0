//! What each call does, said of its arguments, its result, and the plain contents of the registrar
//! before and after it.

use crate::chains::ChainData;
use crate::commits::{Call, LimitParathreadCommits};
use crate::config::{BalanceOf, ReservableCurrency, SwapAux, Trait};
use crate::hashing::Hashing;
use crate::ids::{
    ascending, ids_of, lemma_has_place, lemma_swapped_ids, lemma_with_id, lemma_without_id, place,
    with_selection,
};
use crate::laws::{
    is_active, law_genesis, law_missed, lemma_queued_behind, listed, listed_first, queue_at,
    retried_so_often,
};
use crate::module::{genesis, GenesisConfig, Module, Registrar, NOT_PARACHAIN, NOT_ROOT, NOT_SIGNED};
use crate::queues::{any_waiting, first_waiting, is_first_waiting, retried_later};
use crate::schedule::{
    all_retried_later, lemma_sorted, lemma_sorted_contains, missed, of_id, retry_entries, upcoming,
};
use crate::state::{is, is_either, State};
use crate::types::{
    ActiveEntry, CollatorId, DispatchResult, Event, Origin, ParaId, ParaInfo, Retriable,
    Scheduling, Selection, H256,
};
use crate::validity::{
    InvalidTransaction, TransactionValidity, TransactionValidityError, ValidTransaction,
};
use vstd::prelude::*;

verus! {

/// Setting the thread count from Root makes it what was asked for, whatever it was before, and
/// touches nothing else. From anyone else it does nothing.
pub proof fn law_set_thread_count<T: Trait>(
    origin: Origin<T::AccountId>,
    count: u32,
    r: DispatchResult,
)
    ensures
        forall|m: &mut Module<T>| #[trigger]
            call_ensures(Module::<T>::set_thread_count, (m, origin, count), r) ==> if origin
                is Root {
                &&& r is Ok
                &&& final(m)@ == (State { thread_count: count, ..m@ })
            } else {
                &&& r == Err::<(), &'static str>(NOT_ROOT)
                &&& final(m)@ == m@
            },
{
}

/// An identifier that is handed out is the next free one, and is free no longer.
pub proof fn law_new_id<T: Trait>(r: ParaId)
    ensures
        forall|m: &mut Module<T>| #[trigger]
            call_ensures(<Module<T> as Registrar<T::AccountId>>::new_id, (m,), r) ==> {
                &&& r == m@.next_free_id
                &&& r < ParaId::MAX ==> final(m)@ == (State { next_free_id: (r + 1) as ParaId, ..m@ })
            },
{
}

/// Registering succeeds just where nothing is registered under the identifier. It keeps record,
/// code and head data, and puts a parachain in its place among the parachains; it touches nothing
/// else.
pub proof fn law_register_para<T: Trait>(
    id: ParaId,
    info: ParaInfo,
    code: Vec<u8>,
    head: Vec<u8>,
    r: DispatchResult,
)
    ensures
        forall|m: &mut Module<T>| #[trigger]
            call_ensures(
                <Module<T> as Registrar<T::AccountId>>::register_para,
                (m, id, info, code, head),
                r,
            ) ==> {
                let s = m@;
                let t = final(m)@;
                if s.paras.contains_key(id) {
                    &&& r == Err::<(), &'static str>("Parachain already exists")
                    &&& t == s
                } else {
                    &&& r is Ok
                    &&& t == (State {
                        parachains: t.parachains,
                        paras: s.paras.insert(id, info),
                        chains: ChainData {
                            code: s.chains.code.insert(id, code@),
                            heads: s.chains.heads.insert(id, head@),
                            watermarks: s.chains.watermarks,
                        },
                        ..s
                    })
                    &&& info.scheduling is Dynamic ==> t.parachains == s.parachains
                    &&& info.scheduling is Always && !s.parachains.contains(id) && (forall|
                        i: int,
                        j: int,
                    |
                        0 <= i < j < s.parachains.len() ==> #[trigger] s.parachains[i]
                            < #[trigger] s.parachains[j]) ==> {
                        &&& forall|i: int, j: int|
                            0 <= i < j < t.parachains.len() ==> #[trigger] t.parachains[i]
                                < #[trigger] t.parachains[j]
                        &&& forall|x: ParaId| #[trigger]
                            t.parachains.contains(x) <==> x == id || s.parachains.contains(x)
                    }
                }
            },
{
    assert forall|m: &mut Module<T>| #[trigger]
        call_ensures(
            <Module<T> as Registrar<T::AccountId>>::register_para,
            (m, id, info, code, head),
            r,
        ) && ascending(m@.parachains) && !m@.parachains.contains(id) && !m@.paras.contains_key(
            id,
        ) && info.scheduling is Always implies ascending(final(m)@.parachains) && forall|x: ParaId|
        #[trigger]
        final(m)@.parachains.contains(x) <==> x == id || m@.parachains.contains(x) by {
        lemma_with_id(m@.parachains, id);
    }
}

/// Deregistering succeeds just where something is registered under the identifier. It forgets
/// record, code and head data, and takes a parachain out of the parachains; it touches nothing
/// else.
pub proof fn law_deregister_para<T: Trait>(id: ParaId, r: DispatchResult)
    ensures
        forall|m: &mut Module<T>| #[trigger]
            call_ensures(
                <Module<T> as Registrar<T::AccountId>>::deregister_para,
                (m, id),
                r,
            ) ==> {
                let s = m@;
                let t = final(m)@;
                if !s.paras.contains_key(id) {
                    &&& r == Err::<(), &'static str>("Invalid id")
                    &&& t == s
                } else {
                    &&& r is Ok
                    &&& t == (State {
                        parachains: t.parachains,
                        paras: s.paras.remove(id),
                        chains: ChainData {
                            code: s.chains.code.remove(id),
                            heads: s.chains.heads.remove(id),
                            watermarks: s.chains.watermarks,
                        },
                        ..s
                    })
                    &&& s.paras[id].scheduling is Dynamic ==> t.parachains == s.parachains
                    &&& s.paras[id].scheduling is Always && s.parachains.contains(id) && (forall|
                        i: int,
                        j: int,
                    |
                        0 <= i < j < s.parachains.len() ==> #[trigger] s.parachains[i]
                            < #[trigger] s.parachains[j]) ==> {
                        &&& forall|i: int, j: int|
                            0 <= i < j < t.parachains.len() ==> #[trigger] t.parachains[i]
                                < #[trigger] t.parachains[j]
                        &&& forall|x: ParaId| #[trigger]
                            t.parachains.contains(x) <==> x != id && s.parachains.contains(x)
                    }
                }
            },
{
    assert forall|m: &mut Module<T>| #[trigger]
        call_ensures(<Module<T> as Registrar<T::AccountId>>::deregister_para, (m, id), r)
            && ascending(m@.parachains) && m@.parachains.contains(id) && m@.paras.contains_key(id)
            && m@.paras[id].scheduling is Always implies ascending(final(m)@.parachains) && forall|
        x: ParaId,
    | #[trigger]
        final(m)@.parachains.contains(x) <==> x != id && m@.parachains.contains(x) by {
        lemma_without_id(m@.parachains, id);
    }
}

/// From Root, registering and deregistering do what they do within the runtime; from anyone else
/// they do nothing.
pub proof fn law_root_registers<T: Trait>(
    origin: Origin<T::AccountId>,
    id: ParaId,
    info: ParaInfo,
    code: Vec<u8>,
    head: Vec<u8>,
    r: DispatchResult,
    q: DispatchResult,
)
    ensures
        forall|m: &mut Module<T>| #[trigger]
            call_ensures(Module::<T>::register_para, (m, origin, id, info, code, head), r) && !(
            origin is Root) ==> {
                &&& r == Err::<(), &'static str>(NOT_ROOT)
                &&& final(m)@ == m@
            },
        forall|m: &mut Module<T>| #[trigger]
            call_ensures(Module::<T>::deregister_para, (m, origin, id), r) && !(origin is Root)
                ==> {
                &&& r == Err::<(), &'static str>(NOT_ROOT)
                &&& final(m)@ == m@
            },
        forall|m: &mut Module<T>, n: &mut Module<T>|
            #[trigger] call_ensures(
                Module::<T>::register_para,
                (m, origin, id, info, code, head),
                r,
            ) && #[trigger] call_ensures(
                <Module<T> as Registrar<T::AccountId>>::register_para,
                (n, id, info, code, head),
                q,
            ) && m@ == n@ && origin is Root ==> {
                &&& r == q
                &&& final(m)@ == final(n)@
            },
        forall|m: &mut Module<T>, n: &mut Module<T>|
            #[trigger] call_ensures(Module::<T>::deregister_para, (m, origin, id), r)
                && #[trigger] call_ensures(
                <Module<T> as Registrar<T::AccountId>>::deregister_para,
                (n, id),
                q,
            ) && m@ == n@ && origin is Root ==> {
                &&& r == q
                &&& final(m)@ == final(n)@
            },
{
}

/// A parathread is registered for a Signed origin just where the currency reserves the deposit,
/// which it is asked for once. It gets the next free identifier, whoever is its debtor is noted,
/// and the event is reported; where that identifier is taken, what is registered under it stays.
/// Nothing else is touched, and nothing at all where the deposit is refused.
pub proof fn law_register_parathread<T: Trait>(
    origin: Origin<T::AccountId>,
    code: Vec<u8>,
    head: Vec<u8>,
    r: DispatchResult,
)
    ensures
        forall|m: &mut Module<T>, c: &mut T::Currency| #[trigger]
            call_ensures(Module::<T>::register_parathread, (m, c, origin, code, head), r) ==> {
                let s = m@;
                let t = final(m)@;
                let id = s.next_free_id;
                match origin {
                    Origin::Signed(who) => {
                        &&& exists|asked: &mut T::Currency|
                            {
                                &&& *asked == *c
                                &&& *final(asked) == *final(c)
                                &&& #[trigger] call_ensures(
                                    T::Currency::reserve,
                                    (asked, &who, T::PARATHREAD_DEPOSIT),
                                    r,
                                )
                            }
                        &&& r is Err ==> t == s
                        &&& r is Ok ==> t == (State {
                            next_free_id: (id + 1) as ParaId,
                            paras: if s.paras.contains_key(id) {
                                s.paras
                            } else {
                                s.paras.insert(id, ParaInfo { scheduling: Scheduling::Dynamic })
                            },
                            chains: if s.paras.contains_key(id) {
                                s.chains
                            } else {
                                ChainData {
                                    code: s.chains.code.insert(id, code@),
                                    heads: s.chains.heads.insert(id, head@),
                                    watermarks: s.chains.watermarks,
                                }
                            },
                            debtors: s.debtors.insert(id, who),
                            events: s.events.push(Event::ParathreadRegistered(id)),
                            ..s
                        })
                    },
                    _ => {
                        &&& r == Err::<(), &'static str>(NOT_SIGNED)
                        &&& t == s
                        &&& *final(c) == *c
                    },
                }
            },
{
}

/// A bid that is dispatched changes nothing; it has to be signed.
pub proof fn law_select_parathread<T: Trait>(
    origin: Origin<T::AccountId>,
    id: ParaId,
    collator: CollatorId,
    hash: H256,
    r: DispatchResult,
)
    ensures
        forall|m: &mut Module<T>| #[trigger]
            call_ensures(Module::<T>::select_parathread, (m, origin, id, collator, hash), r) ==> {
                &&& r == if origin is Signed {
                    Ok(())
                } else {
                    Err(NOT_SIGNED)
                }
                &&& final(m)@ == m@
            },
{
}

proof fn lemma_unscheduled_fields<AccountId>(
    s: State<AccountId>,
    matching: spec_fn(ParaId) -> bool,
    keep: spec_fn(Selection) -> bool,
)
    requires
        forall|e: Selection| #[trigger] keep(e) <==> !matching(e.0),
    ensures
        ({
            let t = s.unscheduled(matching);
            &&& t.selected_threads.len() == s.selected_threads.len()
            &&& t.retry_queue.len() == s.retry_queue.len()
            &&& t.active.len() == s.active.len()
            &&& forall|i: int|
                0 <= i < s.selected_threads.len() ==> #[trigger] t.selected_threads[i]
                    == s.selected_threads[i].filter(keep)
            &&& forall|i: int|
                0 <= i < s.retry_queue.len() ==> #[trigger] t.retry_queue[i]
                    == s.retry_queue[i].filter(keep)
        }),
{
    assert(keep =~= (|e: Selection| !matching(e.0)));
}

/// A parathread can be deregistered by itself alone. It is forgotten, with code, head data and
/// debtor, and taken out of all queues; if it is active, it is not retried. The deposit is given
/// back to its debtor, once, and the event is reported. All other paras keep their records, and
/// their places in the queues and among the active paras.
pub proof fn law_deregister_parathread<T: Trait>(origin: Origin<T::AccountId>, r: DispatchResult)
    ensures
        forall|m: &mut Module<T>, c: &mut T::Currency| #[trigger]
            call_ensures(Module::<T>::deregister_parathread, (m, c, origin), r) ==> {
                let s = m@;
                let t = final(m)@;
                match origin {
                    Origin::Parachain(id) => if !s.paras.contains_key(id) {
                        &&& r == Err::<(), &'static str>("invalid id")
                        &&& t == s
                        &&& *final(c) == *c
                    } else if !(s.paras[id].scheduling is Dynamic) {
                        &&& r == Err::<(), &'static str>("invalid parathread id")
                        &&& t == s
                        &&& *final(c) == *c
                    } else {
                        &&& r is Ok
                        &&& t == (State {
                            paras: s.paras.remove(id),
                            chains: ChainData {
                                code: s.chains.code.remove(id),
                                heads: s.chains.heads.remove(id),
                                watermarks: s.chains.watermarks,
                            },
                            debtors: s.debtors.remove(id),
                            events: s.events.push(Event::ParathreadDeregistered(id)),
                            selected_threads: t.selected_threads,
                            retry_queue: t.retry_queue,
                            active: t.active,
                            ..s
                        })
                        &&& t.selected_threads.len() == s.selected_threads.len()
                        &&& forall|i: int|
                            0 <= i < s.selected_threads.len() ==> #[trigger] t.selected_threads[i]
                                == s.selected_threads[i].filter(|e: Selection| e.0 != id)
                        &&& t.retry_queue.len() == s.retry_queue.len()
                        &&& forall|i: int|
                            0 <= i < s.retry_queue.len() ==> #[trigger] t.retry_queue[i]
                                == s.retry_queue[i].filter(|e: Selection| e.0 != id)
                        &&& t.active.len() == s.active.len()
                        &&& forall|i: int|
                            0 <= i < s.active.len() ==> #[trigger] t.active[i] == match s.active[i] {
                                (x, Some((collator, retriable))) => if x == id {
                                    (x, Some((collator, Retriable::Never)))
                                } else {
                                    (x, Some((collator, retriable)))
                                },
                                (x, None) => (x, None),
                            }
                        &&& exists|told: &mut T::Currency, debtor: T::AccountId, left: BalanceOf<T>|
                            {
                                &&& *told == *c
                                &&& *final(told) == *final(c)
                                &&& if s.debtors.contains_key(id) {
                                    debtor == s.debtors[id]
                                } else {
                                    call_ensures(T::AccountId::default, (), debtor)
                                }
                                &&& #[trigger] call_ensures(
                                    T::Currency::unreserve,
                                    (told, &debtor, T::PARATHREAD_DEPOSIT),
                                    left,
                                )
                            }
                    },
                    _ => {
                        &&& r == Err::<(), &'static str>(NOT_PARACHAIN)
                        &&& t == s
                        &&& *final(c) == *c
                    },
                }
            },
{
    if let Origin::Parachain(id) = origin {
        assert forall|s: State<T::AccountId>| true implies ({
            let t = #[trigger] s.unscheduled(is(id));
            &&& t.selected_threads.len() == s.selected_threads.len()
            &&& t.retry_queue.len() == s.retry_queue.len()
            &&& forall|i: int|
                0 <= i < s.selected_threads.len() ==> #[trigger] t.selected_threads[i]
                    == s.selected_threads[i].filter(|e: Selection| e.0 != id)
            &&& forall|i: int|
                0 <= i < s.retry_queue.len() ==> #[trigger] t.retry_queue[i]
                    == s.retry_queue[i].filter(|e: Selection| e.0 != id)
        }) by {
            lemma_unscheduled_fields(s, is(id), |e: Selection| e.0 != id);
        }
    }
}

/// A swap is carried out just where the other para has asked for a swap with this one, and no
/// other, and the handler allows it; where none is asked for, the wish is noted and nothing else
/// happens. The two switch their records and their debtors, and with them their places among the
/// parachains; both are taken out of all queues, and not retried if they are active. The wish is
/// no longer noted. All other paras keep what they have, and code and head data stay with their
/// identifiers.
pub proof fn law_swap<T: Trait>(origin: Origin<T::AccountId>, other: ParaId, r: DispatchResult)
    ensures
        forall|m: &mut Module<T>, h: &mut T::SwapAux| #[trigger]
            call_ensures(Module::<T>::swap, (m, h, origin, other), r) ==> {
                let s = m@;
                let t = final(m)@;
                match origin {
                    Origin::Parachain(id) => if !(s.pending_swap.contains_key(other)
                        && s.pending_swap[other] == id) {
                        &&& r is Ok
                        &&& t == (State { pending_swap: s.pending_swap.insert(id, other), ..s })
                        &&& *final(h) == *h
                    } else {
                        &&& exists|asked: &mut T::SwapAux|
                            {
                                &&& *asked == *h
                                &&& #[trigger] call_ensures(
                                    T::SwapAux::ensure_can_swap,
                                    (asked, id, other),
                                    r,
                                )
                                &&& if r is Ok {
                                    exists|told: &mut T::SwapAux, done: DispatchResult|
                                        {
                                            &&& *told == *final(asked)
                                            &&& *final(told) == *final(h)
                                            &&& #[trigger] call_ensures(
                                                T::SwapAux::on_swap,
                                                (told, id, other),
                                                done,
                                            )
                                        }
                                } else {
                                    *final(asked) == *final(h)
                                }
                            }
                        &&& r is Err ==> t == s
                        &&& r is Ok ==> {
                            &&& t == (State {
                                pending_swap: s.pending_swap.remove(other),
                                parachains: t.parachains,
                                paras: t.paras,
                                debtors: t.debtors,
                                selected_threads: t.selected_threads,
                                retry_queue: t.retry_queue,
                                active: t.active,
                                ..s
                            })
                            &&& t.paras.contains_key(id) <==> s.paras.contains_key(other)
                            &&& s.paras.contains_key(other) ==> t.paras[id] == s.paras[other]
                            &&& t.paras.contains_key(other) <==> s.paras.contains_key(id)
                            &&& s.paras.contains_key(id) ==> t.paras[other] == s.paras[id]
                            &&& t.debtors.contains_key(id) <==> s.debtors.contains_key(other)
                            &&& s.debtors.contains_key(other) ==> t.debtors[id] == s.debtors[other]
                            &&& t.debtors.contains_key(other) <==> s.debtors.contains_key(id)
                            &&& s.debtors.contains_key(id) ==> t.debtors[other] == s.debtors[id]
                            &&& forall|x: ParaId|
                                #![trigger t.paras.contains_key(x)]
                                #![trigger s.paras.contains_key(x)]
                                x != id && x != other ==> (t.paras.contains_key(x)
                                    <==> s.paras.contains_key(x)) && (s.paras.contains_key(x)
                                    ==> t.paras[x] == s.paras[x])
                            &&& forall|x: ParaId|
                                #![trigger t.debtors.contains_key(x)]
                                #![trigger s.debtors.contains_key(x)]
                                x != id && x != other ==> (t.debtors.contains_key(x)
                                    <==> s.debtors.contains_key(x)) && (s.debtors.contains_key(x)
                                    ==> t.debtors[x] == s.debtors[x])
                            &&& (forall|i: int, j: int|
                                0 <= i < j < s.parachains.len() ==> #[trigger] s.parachains[i]
                                    < #[trigger] s.parachains[j]) ==> {
                                &&& forall|i: int, j: int|
                                    0 <= i < j < t.parachains.len() ==> #[trigger] t.parachains[i]
                                        < #[trigger] t.parachains[j]
                                &&& t.parachains.contains(id) <==> s.parachains.contains(other)
                                &&& t.parachains.contains(other) <==> s.parachains.contains(id)
                                &&& forall|x: ParaId|
                                    x != id && x != other ==> (#[trigger] t.parachains.contains(x)
                                        <==> s.parachains.contains(x))
                            }
                            &&& t.selected_threads.len() == s.selected_threads.len()
                            &&& forall|i: int|
                                0 <= i < s.selected_threads.len()
                                    ==> #[trigger] t.selected_threads[i]
                                    == s.selected_threads[i].filter(
                                    |e: Selection| e.0 != id && e.0 != other,
                                )
                            &&& t.retry_queue.len() == s.retry_queue.len()
                            &&& forall|i: int|
                                0 <= i < s.retry_queue.len() ==> #[trigger] t.retry_queue[i]
                                    == s.retry_queue[i].filter(
                                    |e: Selection| e.0 != id && e.0 != other,
                                )
                            &&& t.active.len() == s.active.len()
                            &&& forall|i: int|
                                0 <= i < s.active.len() ==> #[trigger] t.active[i]
                                    == match s.active[i] {
                                    (x, Some((collator, retriable))) => if x == id || x == other {
                                        (x, Some((collator, Retriable::Never)))
                                    } else {
                                        (x, Some((collator, retriable)))
                                    },
                                    (x, None) => (x, None),
                                }
                        }
                    },
                    _ => {
                        &&& r == Err::<(), &'static str>(NOT_PARACHAIN)
                        &&& t == s
                        &&& *final(h) == *h
                    },
                }
            },
{
    if let Origin::Parachain(id) = origin {
        assert forall|s: State<T::AccountId>| true implies ({
            let t = #[trigger] s.unscheduled(is_either(id, other));
            &&& t.selected_threads.len() == s.selected_threads.len()
            &&& t.retry_queue.len() == s.retry_queue.len()
            &&& forall|i: int|
                0 <= i < s.selected_threads.len() ==> #[trigger] t.selected_threads[i]
                    == s.selected_threads[i].filter(|e: Selection| e.0 != id && e.0 != other)
            &&& forall|i: int|
                0 <= i < s.retry_queue.len() ==> #[trigger] t.retry_queue[i]
                    == s.retry_queue[i].filter(|e: Selection| e.0 != id && e.0 != other)
        }) by {
            lemma_unscheduled_fields(
                s,
                is_either(id, other),
                |e: Selection| e.0 != id && e.0 != other,
            );
        }
        assert forall|s: State<T::AccountId>| ascending(s.parachains) implies ({
            let t = #[trigger] s.swapped(id, other);
            &&& ascending(t.parachains)
            &&& t.parachains.contains(id) <==> s.parachains.contains(other)
            &&& t.parachains.contains(other) <==> s.parachains.contains(id)
            &&& forall|x: ParaId|
                x != id && x != other ==> (#[trigger] t.parachains.contains(x)
                    <==> s.parachains.contains(x))
        }) by {
            lemma_swapped_ids(s.parachains, id, other);
        }
    }
}

/// A block takes the first list of the queue, where the queue is filled, and the others move up;
/// empty lists are put behind until the queue is filled. Nothing is touched but the queues and the
/// active paras.
pub proof fn law_block_moves_queue<T: Trait>()
    ensures
        forall|m: &mut Module<T>| #[trigger]
            call_ensures(Module::<T>::on_initialize, (m,), ()) && (T::QUEUE_SIZE > 0
                || m@.selected_threads.len() > 0) ==> {
                let s = m@;
                let t = final(m)@;
                let n = s.selected_threads.len();
                let shift: int = if n >= T::QUEUE_SIZE {
                    1
                } else {
                    0
                };
                &&& t == (State {
                    selected_threads: t.selected_threads,
                    retry_queue: t.retry_queue,
                    active: t.active,
                    ..s
                })
                &&& t.selected_threads.len() == if n - shift >= T::QUEUE_SIZE {
                    n - shift
                } else {
                    T::QUEUE_SIZE as int
                }
                &&& forall|i: int|
                    0 <= i < t.selected_threads.len() ==> #[trigger] t.selected_threads[i] == if i
                        + shift < n {
                        s.selected_threads[i + shift]
                    } else {
                        Seq::empty()
                    }
            },
{
}

proof fn lemma_first_found(qs: Seq<Seq<Selection>>, k: int)
    requires
        0 <= k < qs.len(),
        qs[k].len() > 0,
        forall|j: int| 0 <= j < k ==> (#[trigger] qs[j]).len() == 0,
    ensures
        any_waiting(qs),
        first_waiting(qs) == k,
{
    assert(is_first_waiting(qs, k));
    let f = first_waiting(qs);
    assert(is_first_waiting(qs, f));
    if f < k {
        assert(qs[f].len() == 0);
    } else if k < f {
        assert(qs[k].len() == 0);
    }
}

proof fn lemma_nothing_found(qs: Seq<Seq<Selection>>)
    requires
        forall|j: int| 0 <= j < qs.len() ==> (#[trigger] qs[j]).len() == 0,
    ensures
        !any_waiting(qs),
{
    assert forall|k: int| !is_first_waiting(qs, k) by {
        if 0 <= k < qs.len() {
            assert(qs[k].len() == 0);
        }
    }
}

/// A block takes one parathread out of the retry queues: the head of the first queue in which
/// one waits. All others stay where they are.
pub proof fn law_block_takes_retry<T: Trait>(k: int)
    ensures
        forall|m: &mut Module<T>| #[trigger]
            call_ensures(Module::<T>::on_initialize, (m,), ()) ==> {
                let qs = m@.retry_queue;
                &&& (forall|j: int| 0 <= j < qs.len() ==> (#[trigger] qs[j]).len() == 0) ==> final(
                    m
                )@.retry_queue == qs
                &&& 0 <= k < qs.len() && qs[k].len() > 0 && (forall|j: int|
                    0 <= j < k ==> (#[trigger] qs[j]).len() == 0) ==> final(m)@.retry_queue
                    == qs.update(k, qs[k].drop_first())
            },
{
    assert forall|m: &mut Module<T>| #[trigger]
        call_ensures(Module::<T>::on_initialize, (m,), ()) implies ({
        let qs = m@.retry_queue;
        &&& (forall|j: int| 0 <= j < qs.len() ==> (#[trigger] qs[j]).len() == 0) ==> final(
            m
        )@.retry_queue == qs
        &&& 0 <= k < qs.len() && qs[k].len() > 0 && (forall|j: int|
            0 <= j < k ==> (#[trigger] qs[j]).len() == 0) ==> final(m)@.retry_queue == qs.update(
            k,
            qs[k].drop_first(),
        )
    }) by {
        let qs = m@.retry_queue;
        if forall|j: int| 0 <= j < qs.len() ==> (#[trigger] qs[j]).len() == 0 {
            lemma_nothing_found(qs);
        }
        if 0 <= k < qs.len() && qs[k].len() > 0 && (forall|j: int|
            0 <= j < k ==> (#[trigger] qs[j]).len() == 0) {
            lemma_first_found(qs, k);
        }
    }
}

proof fn lemma_own(s: Seq<ActiveEntry>, id: ParaId, own: spec_fn(ActiveEntry) -> bool)
    requires
        forall|e: ActiveEntry| #[trigger] own(e) <==> e.0 == id,
    ensures
        s.filter(own) == of_id(s, id),
    decreases s.len(),
{
    reveal(Seq::filter);
    if s.len() > 0 {
        lemma_own(s.drop_last(), id, own);
    }
}

proof fn lemma_active_fields<AccountId>(
    s: State<AccountId>,
    queue_size: usize,
    id: ParaId,
    own: spec_fn(ActiveEntry) -> bool,
)
    requires
        forall|e: ActiveEntry| #[trigger] own(e) <==> e.0 == id,
    ensures
        ({
            let t = s.block_begun(queue_size);
            let all = upcoming(s.parachains, s.next_up(queue_size), s.next_retry(queue_size));
            &&& forall|i: int, j: int|
                0 <= i < j < t.active.len() ==> (#[trigger] t.active[i]).0 <= (
                #[trigger] t.active[j]).0
            &&& t.active.filter(own) == all.filter(own)
            &&& forall|e: ActiveEntry| #[trigger] t.active.contains(e) <==> all.contains(e)
        }),
{
    let t = s.block_begun(queue_size);
    let all = upcoming(s.parachains, s.next_up(queue_size), s.next_retry(queue_size));
    lemma_sorted(all);
    lemma_own(t.active, id, own);
    lemma_own(all, id, own);
    assert(of_id(t.active, id) == of_id(all, id));
    assert forall|e: ActiveEntry| #[trigger] t.active.contains(e) <==> all.contains(e) by {
        lemma_sorted_contains(all, t.active, e);
    }
}

/// A block begins with just these paras active, in the order of their identifiers: each parachain;
/// each parathread that was selected for this block, in its first attempt; and the parathread that
/// is taken out of the retry queues, retried once more, unless it was itself selected for this
/// block. What is selected for later blocks makes no difference. Of one identifier they stand in
/// the order named.
pub proof fn law_block_active<T: Trait>(k: int, id: ParaId, up: Seq<Selection>)
    ensures
        forall|m: &mut Module<T>| #[trigger]
            call_ensures(Module::<T>::on_initialize, (m,), ()) && (T::QUEUE_SIZE > 0
                || m@.selected_threads.len() > 0) && m@.retry_queue.len() <= u32::MAX && up == (if
                m@.selected_threads.len() >= T::QUEUE_SIZE {
                m@.selected_threads[0]
            } else {
                Seq::empty()
            }) ==> {
                let s = m@;
                let t = final(m)@;
                let qs = s.retry_queue;
                let first = s.parachains.map_values(|x: ParaId| (x, None)) + up.map_values(
                    |e: Selection| (e.0, Some((e.1, Retriable::WithRetries(0)))),
                );
                let waits = 0 <= k < qs.len() && qs[k].len() > 0 && (forall|j: int|
                    0 <= j < k ==> (#[trigger] qs[j]).len() == 0);
                let own = |e: ActiveEntry| e.0 == id;
                let retry = (qs[k][0].0, Some((qs[k][0].1, Retriable::WithRetries((k + 1) as u32))));
                &&& forall|i: int, j: int|
                    0 <= i < j < t.active.len() ==> (#[trigger] t.active[i]).0 <= (
                    #[trigger] t.active[j]).0
                &&& (forall|j: int| 0 <= j < qs.len() ==> (#[trigger] qs[j]).len() == 0)
                    ==> t.active.filter(own) == first.filter(own)
                &&& waits && (exists|j: int|
                    0 <= j < up.len() && (#[trigger] up[j]).0 == qs[k][0].0)
                        ==> t.active.filter(own) == first.filter(own)
                &&& waits && (forall|j: int|
                    0 <= j < up.len() ==> (#[trigger] up[j]).0 != qs[k][0].0) ==> {
                    &&& t.active.contains(retry)
                    &&& t.active.filter(own) == first.push(retry).filter(own)
                }
            },
{
    assert forall|m: &mut Module<T>| #[trigger]
        call_ensures(Module::<T>::on_initialize, (m,), ()) && (T::QUEUE_SIZE > 0
            || m@.selected_threads.len() > 0) && m@.retry_queue.len() <= u32::MAX && up == (if
            m@.selected_threads.len() >= T::QUEUE_SIZE {
            m@.selected_threads[0]
        } else {
            Seq::empty()
        }) implies ({
        let s = m@;
        let t = final(m)@;
        let qs = s.retry_queue;
        let first = s.parachains.map_values(|x: ParaId| (x, None)) + up.map_values(
            |e: Selection| (e.0, Some((e.1, Retriable::WithRetries(0)))),
        );
        let waits = 0 <= k < qs.len() && qs[k].len() > 0 && (forall|j: int|
            0 <= j < k ==> (#[trigger] qs[j]).len() == 0);
        let own = |e: ActiveEntry| e.0 == id;
        let retry = (qs[k][0].0, Some((qs[k][0].1, Retriable::WithRetries((k + 1) as u32))));
        &&& forall|i: int, j: int|
            0 <= i < j < t.active.len() ==> (#[trigger] t.active[i]).0 <= (#[trigger] t.active[j]).0
        &&& (forall|j: int| 0 <= j < qs.len() ==> (#[trigger] qs[j]).len() == 0)
            ==> t.active.filter(own) == first.filter(own)
        &&& waits && (exists|j: int| 0 <= j < up.len() && (#[trigger] up[j]).0 == qs[k][0].0)
            ==> t.active.filter(own) == first.filter(own)
        &&& waits && (forall|j: int| 0 <= j < up.len() ==> (#[trigger] up[j]).0 != qs[k][0].0) ==> {
            &&& t.active.contains(retry)
            &&& t.active.filter(own) == first.push(retry).filter(own)
        }
    }) by {
        let s = m@;
        let qs = s.retry_queue;
        assert(up == s.next_up(T::QUEUE_SIZE));
        let last = retry_entries(s.next_retry(T::QUEUE_SIZE));
        lemma_active_fields(s, T::QUEUE_SIZE, id, |e: ActiveEntry| e.0 == id);
        let first = s.parachains.map_values(|x: ParaId| (x, None)) + up.map_values(
            |e: Selection| (e.0, Some((e.1, Retriable::WithRetries(0)))),
        );
        assert(first + last =~= upcoming(s.parachains, up, s.next_retry(T::QUEUE_SIZE)));
        let retry = (qs[k][0].0, Some((qs[k][0].1, Retriable::WithRetries((k + 1) as u32))));
        if forall|j: int| 0 <= j < qs.len() ==> (#[trigger] qs[j]).len() == 0 {
            lemma_nothing_found(qs);
            assert(first + last =~= first);
        }
        if 0 <= k < qs.len() && qs[k].len() > 0 && (forall|j: int|
            0 <= j < k ==> (#[trigger] qs[j]).len() == 0) {
            lemma_first_found(qs, k);
            if exists|j: int| 0 <= j < up.len() && (#[trigger] up[j]).0 == qs[k][0].0 {
                assert(first + last =~= first);
            } else {
                assert(first + last =~= first.push(retry));
                assert(first.push(retry)[first.len() as int] == retry);
            }
        }
    }
}

/// The end of a block touches the retry queues only, and not even those where no heads were set or
/// nothing is active.
pub proof fn law_block_end_touches<T: Trait>(did_update: Option<Vec<ParaId>>)
    ensures
        forall|m: &mut Module<T>| #[trigger]
            call_ensures(Module::<T>::on_finalize, (m, did_update), ()) ==> {
                &&& final(m)@ == (State { retry_queue: final(m)@.retry_queue, ..m@ })
                &&& did_update is None || m@.active.len() == 0 ==> final(m)@ == m@
            },
{
}

/// At the end of a block the active paras are gone through in their order, along with the list of
/// those that proceeded. The first active para is passed over if it stands first in the list, and
/// the rest is gone through along with the rest of the list. If it does not, the rest is gone
/// through along with the whole list, once the para stands last in the queue of its number of
/// retries, provided that it has one below the limit.
pub proof fn law_block_end_step<T: Trait>(
    e: ActiveEntry,
    proceeded: Vec<ParaId>,
    later: Vec<ParaId>,
)
    ensures
        forall|m: &mut Module<T>, n: &mut Module<T>|
            #[trigger] call_ensures(Module::<T>::on_finalize, (m, Some(proceeded)), ())
                && #[trigger] call_ensures(Module::<T>::on_finalize, (n, Some(later)), ())
                && m@.active == seq![e] + n@.active ==> {
                let qs = m@.retry_queue;
                let rs = n@.retry_queue;
                let same = final(m)@.retry_queue == final(n)@.retry_queue;
                if proceeded@.len() > 0 && proceeded@[0] == e.0 {
                    later@ == proceeded@.drop_first() && rs == qs ==> same
                } else {
                    later@ == proceeded@ ==> match e.1 {
                        Some((collator, Retriable::WithRetries(k))) => if k < T::MAX_RETRIES {
                            rs == Seq::new(
                                T::MAX_RETRIES as nat,
                                |i: int|
                                    {
                                        let q = if i < qs.len() {
                                            qs[i]
                                        } else {
                                            Seq::empty()
                                        };
                                        if i == k {
                                            q.push((e.0, collator))
                                        } else {
                                            q
                                        }
                                    },
                            ) ==> same
                        } else {
                            rs == qs ==> same
                        },
                        _ => rs == qs ==> same,
                    }
                }
            },
{
    assert forall|m: &mut Module<T>, n: &mut Module<T>|
        #[trigger] call_ensures(Module::<T>::on_finalize, (m, Some(proceeded)), ())
            && #[trigger] call_ensures(Module::<T>::on_finalize, (n, Some(later)), ()) && m@.active
            == seq![e] + n@.active implies ({
        let qs = m@.retry_queue;
        let rs = n@.retry_queue;
        let same = final(m)@.retry_queue == final(n)@.retry_queue;
        if proceeded@.len() > 0 && proceeded@[0] == e.0 {
            later@ == proceeded@.drop_first() && rs == qs ==> same
        } else {
            later@ == proceeded@ ==> match e.1 {
                Some((collator, Retriable::WithRetries(k))) => if k < T::MAX_RETRIES {
                    rs == Seq::new(
                        T::MAX_RETRIES as nat,
                        |i: int|
                            {
                                let q = if i < qs.len() {
                                    qs[i]
                                } else {
                                    Seq::empty()
                                };
                                if i == k {
                                    q.push((e.0, collator))
                                } else {
                                    q
                                }
                            },
                    ) ==> same
                } else {
                    rs == qs ==> same
                },
                _ => rs == qs ==> same,
            }
        }
    }) by {
        let qs = m@.retry_queue;
        let rest = n@.active;
        let list = missed(rest, proceeded@);
        assert(m@.active.drop_first() =~= rest);
        if let Some((collator, Retriable::WithRetries(k))) = e.1 {
            let all = seq![((e.0, collator), k)] + list;
            assert(all.drop_first() =~= list);
            if k < T::MAX_RETRIES {
                assert(retried_later(qs, (e.0, collator), k, T::MAX_RETRIES) =~= Seq::new(
                    T::MAX_RETRIES as nat,
                    |i: int|
                        {
                            let q = if i < qs.len() {
                                qs[i]
                            } else {
                                Seq::empty()
                            };
                            if i == k {
                                q.push((e.0, collator))
                            } else {
                                q
                            }
                        },
                ));
            }
        } else {
            assert(Seq::<(Selection, u32)>::empty() + list =~= list);
        }
    }
}

/// Where no para is active twice, and those that proceeded are active and listed in ascending
/// order, the end of a block puts just those into the queue of `k` retries that were retried so
/// often and did not proceed; those that waited there before still do.
pub proof fn law_block_end_retries<T: Trait>(proceeded: Vec<ParaId>, k: u32, sel: Selection)
    requires
        k < T::MAX_RETRIES,
        forall|i: int, j: int|
            0 <= i < j < proceeded@.len() ==> #[trigger] proceeded@[i] < #[trigger] proceeded@[j],
    ensures
        forall|m: &mut Module<T>| #[trigger]
            call_ensures(Module::<T>::on_finalize, (m, Some(proceeded)), ())
                && m@.retry_queue.len() <= T::MAX_RETRIES && (forall|i: int, j: int|
                0 <= i < j < m@.active.len() ==> (#[trigger] m@.active[i]).0 < (
                #[trigger] m@.active[j]).0) && (forall|i: int|
                0 <= i < proceeded@.len() ==> exists|j: int|
                    0 <= j < m@.active.len() && (#[trigger] m@.active[j]).0
                        == #[trigger] proceeded@[i]) ==> {
                let s = m@;
                let t = final(m)@;
                let waits = k < t.retry_queue.len() && t.retry_queue[k as int].contains(sel);
                let waited = k < s.retry_queue.len() && s.retry_queue[k as int].contains(sel);
                let missed = s.active.contains(
                    (sel.0, Some((sel.1, Retriable::WithRetries(k)))),
                ) && !proceeded@.contains(sel.0);
                waits <==> waited || missed
            },
{
    assert forall|m: &mut Module<T>| #[trigger]
        call_ensures(Module::<T>::on_finalize, (m, Some(proceeded)), ()) && m@.retry_queue.len()
            <= T::MAX_RETRIES && (forall|i: int, j: int|
            0 <= i < j < m@.active.len() ==> (#[trigger] m@.active[i]).0 < (
            #[trigger] m@.active[j]).0) && (forall|i: int|
            0 <= i < proceeded@.len() ==> exists|j: int|
                0 <= j < m@.active.len() && (#[trigger] m@.active[j]).0
                    == #[trigger] proceeded@[i]) implies ({
        let s = m@;
        let t = final(m)@;
        let waits = k < t.retry_queue.len() && t.retry_queue[k as int].contains(sel);
        let waited = k < s.retry_queue.len() && s.retry_queue[k as int].contains(sel);
        let missed = s.active.contains(
            (sel.0, Some((sel.1, Retriable::WithRetries(k)))),
        ) && !proceeded@.contains(sel.0);
        waits <==> waited || missed
    }) by {
        let s = m@;
        assert forall|i: int| 0 <= i < proceeded@.len() implies is_active(
            s.active,
            #[trigger] proceeded@[i],
        ) by {}
        law_missed(s.active, proceeded@, sel, k);
        lemma_waits(s.retry_queue, missed(s.active, proceeded@), k, T::MAX_RETRIES, sel);
    }
}

proof fn lemma_waits(
    qs: Seq<Seq<Selection>>,
    list: Seq<(Selection, u32)>,
    k: u32,
    max: u32,
    sel: Selection,
)
    requires
        qs.len() <= max,
        k < max,
    ensures
        queue_at(all_retried_later(qs, list, max), k as int).contains(sel) <==> queue_at(
            qs,
            k as int,
        ).contains(sel) || list.contains((sel, k)),
{
    lemma_queued_behind(qs, list, k, max);
    lemma_so_often(list, k, sel);
    let a = queue_at(qs, k as int);
    let b = retried_so_often(list, k);
    let c = a + b;
    if b.contains(sel) {
        assert(c[a.len() + b.index_of(sel)] == sel);
    }
    if a.contains(sel) {
        assert(c[a.index_of(sel)] == sel);
    }
    if c.contains(sel) {
        let i = c.index_of(sel);
        if i >= a.len() {
            assert(b[i - a.len()] == sel);
        } else {
            assert(a[i] == sel);
        }
    }
}

proof fn lemma_so_often(list: Seq<(Selection, u32)>, k: u32, sel: Selection)
    ensures
        retried_so_often(list, k).contains(sel) <==> list.contains((sel, k)),
    decreases list.len(),
{
    reveal(Seq::filter);
    if list.len() > 0 {
        let r = list.drop_last();
        let last = list.last();
        let a = retried_so_often(r, k);
        let b = retried_so_often(list, k);
        lemma_so_often(r, k, sel);
        assert(b =~= if last.1 == k {
            a.push(last.0)
        } else {
            a
        });
        assert(list =~= r.push(last));
        if r.contains((sel, k)) {
            assert(list[r.index_of((sel, k))] == (sel, k));
        }
        if a.contains(sel) {
            assert(b[a.index_of(sel)] == sel);
        }
        if last == (sel, k) {
            assert(list[r.len() as int] == last);
            assert(b[a.len() as int] == sel);
        }
        if list.contains((sel, k)) && last != (sel, k) {
            assert(r[list.index_of((sel, k))] == (sel, k));
        }
        if b.contains(sel) && !(last.1 == k && last.0 == sel) {
            assert(a[b.index_of(sel)] == sel);
        }
    }
}

/// A bid is refused for one of these reasons, and no other: what is bid for is not registered as
/// a parathread; as many parathreads as may be are selected for the last block of the queue; it is
/// itself selected for that block; it has no head; the bid does not name the hash of its head. If
/// it is not refused, the parathread is selected for the last block of the queue, in its place
/// among those selected before, and the transaction provides the hash. Whatever is active, waits
/// for a retry, or is selected for earlier blocks makes no difference. Nothing else is touched, and
/// nothing at all by a bid that is refused.
pub proof fn law_bid<T: Trait>(
    rule: LimitParathreadCommits<T>,
    who: T::AccountId,
    id: ParaId,
    collator: CollatorId,
    hash: H256,
    len: usize,
    r: TransactionValidity,
    last: Seq<Selection>,
)
    ensures
        forall|m: &mut Module<T>| #[trigger]
            call_ensures(
                LimitParathreadCommits::<T>::validate,
                (&rule, m, &who, Some(&Call::select_parathread(id, collator, hash)), len),
                r,
            ) && last == (if m@.selected_threads.len() == 0 {
                Seq::empty()
            } else {
                m@.selected_threads.last()
            }) ==> ({
                let s = m@;
                let t = final(m)@;
                if !s.paras.contains_key(id) || !(s.paras[id].scheduling is Dynamic) {
                    &&& r == Err::<ValidTransaction, _>(
                        TransactionValidityError::Invalid(InvalidTransaction::Custom(1)),
                    )
                    &&& t == s
                } else if last.len() >= s.thread_count {
                    &&& r == Err::<ValidTransaction, _>(
                        TransactionValidityError::Invalid(InvalidTransaction::ExhaustsResources),
                    )
                    &&& t == s
                } else if exists|i: int| 0 <= i < last.len() && (#[trigger] last[i]).0 == id {
                    &&& r == Err::<ValidTransaction, _>(
                        TransactionValidityError::Invalid(InvalidTransaction::Custom(0)),
                    )
                    &&& t == s
                } else if !s.chains.heads.contains_key(id) {
                    &&& r == Err::<ValidTransaction, _>(
                        TransactionValidityError::Invalid(InvalidTransaction::Custom(1)),
                    )
                    &&& t == s
                } else {
                    exists|head: &[u8], actual: H256|
                        {
                            &&& head@ == s.chains.heads[id]
                            &&& #[trigger] call_ensures(T::Hashing::hash, (head,), actual)
                            &&& if actual@ != hash@ {
                                &&& r == Err::<ValidTransaction, _>(
                                    TransactionValidityError::Invalid(InvalidTransaction::Stale),
                                )
                                &&& t == s
                            } else {
                                &&& r is Ok
                                &&& r->Ok_0.provides@.len() == 1
                                &&& r->Ok_0.provides@[0]@ == hash@
                                &&& r->Ok_0.required@.len() == 0
                                &&& r->Ok_0.priority == 0
                                &&& r->Ok_0.longevity == u64::MAX
                                &&& r->Ok_0.propagate
                                &&& t == (State { selected_threads: t.selected_threads, ..s })
                                &&& t.selected_threads.len() == if s.selected_threads.len() == 0 {
                                    1
                                } else {
                                    s.selected_threads.len()
                                }
                                &&& forall|i: int|
                                    0 <= i < t.selected_threads.len() - 1
                                        ==> #[trigger] t.selected_threads[i]
                                        == s.selected_threads[i]
                                &&& (forall|i: int, j: int|
                                    0 <= i < j < last.len() ==> (#[trigger] last[i]).0 < (
                                    #[trigger] last[j]).0) ==> exists|p: int|
                                    {
                                        &&& 0 <= p <= last.len()
                                        &&& t.selected_threads.last() == #[trigger] last.insert(
                                            p,
                                            (id, collator),
                                        )
                                        &&& forall|i: int|
                                            0 <= i < p ==> (#[trigger] last[i]).0 < id
                                        &&& forall|i: int|
                                            p <= i < last.len() ==> id < (#[trigger] last[i]).0
                                    }
                            }
                        }
                }
            }),
{
    assert forall|m: &mut Module<T>| #[trigger]
            call_ensures(
                LimitParathreadCommits::<T>::validate,
                (&rule, m, &who, Some(&Call::select_parathread(id, collator, hash)), len),
                r,
            ) && last == (if m@.selected_threads.len() == 0 {
                Seq::empty()
            } else {
                m@.selected_threads.last()
            }) implies ({
                let s = m@;
                let t = final(m)@;
                if !s.paras.contains_key(id) || !(s.paras[id].scheduling is Dynamic) {
                    &&& r == Err::<ValidTransaction, _>(
                        TransactionValidityError::Invalid(InvalidTransaction::Custom(1)),
                    )
                    &&& t == s
                } else if last.len() >= s.thread_count {
                    &&& r == Err::<ValidTransaction, _>(
                        TransactionValidityError::Invalid(InvalidTransaction::ExhaustsResources),
                    )
                    &&& t == s
                } else if exists|i: int| 0 <= i < last.len() && (#[trigger] last[i]).0 == id {
                    &&& r == Err::<ValidTransaction, _>(
                        TransactionValidityError::Invalid(InvalidTransaction::Custom(0)),
                    )
                    &&& t == s
                } else if !s.chains.heads.contains_key(id) {
                    &&& r == Err::<ValidTransaction, _>(
                        TransactionValidityError::Invalid(InvalidTransaction::Custom(1)),
                    )
                    &&& t == s
                } else {
                    exists|head: &[u8], actual: H256|
                        {
                            &&& head@ == s.chains.heads[id]
                            &&& #[trigger] call_ensures(T::Hashing::hash, (head,), actual)
                            &&& if actual@ != hash@ {
                                &&& r == Err::<ValidTransaction, _>(
                                    TransactionValidityError::Invalid(InvalidTransaction::Stale),
                                )
                                &&& t == s
                            } else {
                                &&& r is Ok
                                &&& r->Ok_0.provides@.len() == 1
                                &&& r->Ok_0.provides@[0]@ == hash@
                                &&& r->Ok_0.required@.len() == 0
                                &&& r->Ok_0.priority == 0
                                &&& r->Ok_0.longevity == u64::MAX
                                &&& r->Ok_0.propagate
                                &&& t == (State { selected_threads: t.selected_threads, ..s })
                                &&& t.selected_threads.len() == if s.selected_threads.len() == 0 {
                                    1
                                } else {
                                    s.selected_threads.len()
                                }
                                &&& forall|i: int|
                                    0 <= i < t.selected_threads.len() - 1
                                        ==> #[trigger] t.selected_threads[i]
                                        == s.selected_threads[i]
                                &&& (forall|i: int, j: int|
                                    0 <= i < j < last.len() ==> (#[trigger] last[i]).0 < (
                                    #[trigger] last[j]).0) ==> exists|p: int|
                                    {
                                        &&& 0 <= p <= last.len()
                                        &&& t.selected_threads.last() == #[trigger] last.insert(
                                            p,
                                            (id, collator),
                                        )
                                        &&& forall|i: int|
                                            0 <= i < p ==> (#[trigger] last[i]).0 < id
                                        &&& forall|i: int|
                                            p <= i < last.len() ==> id < (#[trigger] last[i]).0
                                    }
                            }
                        }
                }
            }) by {
        let s = m@;
        let ids = ids_of(last);
        assert(last == s.open_queues().last());
        if exists|i: int| 0 <= i < last.len() && (#[trigger] last[i]).0 == id {
            let i = choose|i: int| 0 <= i < last.len() && (#[trigger] last[i]).0 == id;
            assert(ids[i] == id);
        }
        if ids.contains(id) {
            let i = ids.index_of(id);
            assert(last[i].0 == id);
        }
        if s.selection_refused(id) is None {
            if forall|i: int, j: int|
                0 <= i < j < last.len() ==> (#[trigger] last[i]).0 < (#[trigger] last[j]).0 {
                assert forall|i: int, j: int| 0 <= i < j < ids.len() implies #[trigger] ids[i]
                    < #[trigger] ids[j] by {
                    assert(last[i].0 < last[j].0);
                }
                lemma_has_place(ids, id);
                let p = place(ids, id);
                assert forall|i: int| 0 <= i < p implies (#[trigger] last[i]).0 < id by {
                    assert(ids[i] < id);
                }
                assert forall|i: int| p <= i < last.len() implies id < (#[trigger] last[i]).0 by {
                    assert(id < ids[i]);
                }
                assert(with_selection(last, id, collator) == last.insert(p, (id, collator)));
            }
        }
        if let Ok(v) = r {
            let tags = v.provides@.map_values(|tag: Vec<u8>| tag@);
            if v.provides@.len() > 0 {
                assert(tags[0] == v.provides@[0]@);
            }
            assert(tags.len() == v.provides@.len());
        }
    }
}

/// A transaction that is no bid passes, provides nothing and changes nothing.
pub proof fn law_no_bid<T: Trait>(
    rule: LimitParathreadCommits<T>,
    who: T::AccountId,
    call: Option<&Call>,
    len: usize,
    r: TransactionValidity,
)
    ensures
        forall|m: &mut Module<T>| #[trigger]
            call_ensures(LimitParathreadCommits::<T>::validate, (&rule, m, &who, call, len), r)
                && !(call matches Some(Call::select_parathread(_, _, _))) ==> {
                &&& final(m)@ == m@
                &&& r is Ok
                &&& r->Ok_0.provides@.len() == 0
                &&& r->Ok_0.required@.len() == 0
                &&& r->Ok_0.priority == 0
                &&& r->Ok_0.longevity == u64::MAX
                &&& r->Ok_0.propagate
            },
{
    if let Ok(v) = r {
        assert(v.provides@.map_values(|tag: Vec<u8>| tag@).len() == v.provides@.len());
    }
}

/// A registrar starts with just the parachains of the genesis registered, each with the code and
/// the head data of its first entry and a watermark of zero, listed in ascending order. Nothing is
/// kept of others, nothing is scheduled, and identifiers are handed out from `LOWEST_USER_ID` on.
pub proof fn law_build<T: Trait>(config: GenesisConfig, r: Module<T>, id: ParaId)
    requires
        call_ensures(Module::<T>::build, (&config,), r),
    ensures
        ({
            let list = config.parachains@;
            let is_listed = exists|i: int| 0 <= i < list.len() && (#[trigger] list[i]).0 == id;
            &&& r@.paras.contains_key(id) <==> is_listed
            &&& r@.parachains.contains(id) <==> is_listed
            &&& r@.chains.code.contains_key(id) <==> is_listed
            &&& r@.chains.heads.contains_key(id) <==> is_listed
            &&& r@.chains.watermarks.contains_key(id) <==> is_listed
            &&& is_listed ==> r@.paras[id].scheduling is Always && r@.chains.watermarks[id] == 0
            &&& forall|i: int|
                0 <= i < list.len() && (#[trigger] list[i]).0 == id && (forall|j: int|
                    0 <= j < i ==> (#[trigger] list[j]).0 != id) ==> r@.chains.code[id]
                    == list[i].1@ && r@.chains.heads[id] == list[i].2@
            &&& forall|i: int, j: int|
                0 <= i < j < r@.parachains.len() ==> #[trigger] r@.parachains[i]
                    < #[trigger] r@.parachains[j]
            &&& r@ == (State {
                parachains: r@.parachains,
                paras: r@.paras,
                chains: r@.chains,
                thread_count: 0,
                selected_threads: Seq::empty(),
                active: Seq::empty(),
                next_free_id: 1000,
                pending_swap: Map::empty(),
                retry_queue: Seq::empty(),
                debtors: Map::<ParaId, T::AccountId>::empty(),
                events: Seq::empty(),
            })
        }),
{
    let list = config.parachains@;
    let seen = config@;
    law_genesis::<T::AccountId>(seen, id, T::MAX_RETRIES);
    assert(r@ == genesis::<T::AccountId>(seen));
    assert(r@.parachains.contains(id) <==> r@.is_chain(id));
    if listed(seen, id) {
        let i = choose|i: int| 0 <= i < seen.len() && (#[trigger] seen[i]).0 == id;
        assert(list[i].0 == id);
        let k = lemma_first_listed(seen, id, i);
        assert(seen[k].0 == id);
    }
    if exists|i: int| 0 <= i < list.len() && (#[trigger] list[i]).0 == id {
        let i = choose|i: int| 0 <= i < list.len() && (#[trigger] list[i]).0 == id;
        assert(seen[i].0 == id);
    }
    assert forall|i: int|
        0 <= i < list.len() && (#[trigger] list[i]).0 == id && (forall|j: int|
            0 <= j < i ==> (#[trigger] list[j]).0 != id) implies r@.chains.code[id] == list[i].1@
        && r@.chains.heads[id] == list[i].2@ by {
        assert(listed_first(seen, i)) by {
            assert forall|j: int| 0 <= j < i implies (#[trigger] seen[j]).0 != seen[i].0 by {
                assert(list[j].0 != id);
            }
        }
        assert(seen[i] == (id, list[i].1@, list[i].2@));
    }
}

proof fn lemma_first_listed(list: Seq<(ParaId, Seq<u8>, Seq<u8>)>, id: ParaId, i: int) -> (k: int)
    requires
        0 <= i < list.len(),
        list[i].0 == id,
    ensures
        listed_first(list, k),
        list[k].0 == id,
    decreases i,
{
    if exists|j: int| 0 <= j < i && (#[trigger] list[j]).0 == id {
        let j = choose|j: int| 0 <= j < i && (#[trigger] list[j]).0 == id;
        lemma_first_listed(list, id, j)
    } else {
        i
    }
}

/// Where currency or handler decide, what follows their answer is the same, whichever way it is
/// handed in: a parathread is registered, and a swap carried out, as if the answer had been asked
/// for; a parathread that is removed leaves what it leaves when it is deregistered.
pub proof fn law_answers<T: Trait>(
    who: T::AccountId,
    code: Vec<u8>,
    head: Vec<u8>,
    id: ParaId,
    other: ParaId,
    r: DispatchResult,
    q: DispatchResult,
    found: Result<Option<T::AccountId>, &'static str>,
)
    ensures
        forall|m: &mut Module<T>, c: &mut T::Currency, n: &mut Module<T>|
            #[trigger] call_ensures(
                Module::<T>::register_parathread,
                (m, c, Origin::Signed(who), code, head),
                r,
            ) && #[trigger] call_ensures(
                Module::<T>::complete_registration,
                (n, who, r, code, head),
                q,
            ) && m@ == n@ ==> q == r && final(m)@ == final(n)@,
        forall|m: &mut Module<T>, h: &mut T::SwapAux, n: &mut Module<T>|
            #[trigger] call_ensures(
                Module::<T>::swap,
                (m, h, Origin::Parachain(id), other),
                r,
            ) && #[trigger] call_ensures(Module::<T>::complete_swap, (n, id, other, r), q) && m@
                == n@ && m@.pending_swap.contains_key(other) && m@.pending_swap[other] == id ==> q
                == r && final(m)@ == final(n)@,
        forall|m: &mut Module<T>, c: &mut T::Currency, n: &mut Module<T>|
            #[trigger] call_ensures(
                Module::<T>::deregister_parathread,
                (m, c, Origin::Parachain(id)),
                r,
            ) && #[trigger] call_ensures(Module::<T>::remove_parathread, (n, id), found) && m@
                == n@ ==> {
                &&& final(m)@ == final(n)@
                &&& match found {
                    Ok(debtor) => {
                        &&& r is Ok
                        &&& debtor == if m@.debtors.contains_key(id) {
                            Some(m@.debtors[id])
                        } else {
                            None
                        }
                    },
                    Err(e) => r == Err::<(), &'static str>(e),
                }
            },
{
}

/// A call that is sent does what the function of its name does, and asks nothing of currency or
/// handler that the function does not ask.
pub proof fn law_dispatch<T: Trait>(
    origin: Origin<T::AccountId>,
    id: ParaId,
    info: ParaInfo,
    count: u32,
    code: Vec<u8>,
    head: Vec<u8>,
    r: DispatchResult,
    q: DispatchResult,
)
    ensures
        forall|m: &mut Module<T>, c: &mut T::Currency, h: &mut T::SwapAux, n: &mut Module<T>|
            #[trigger] call_ensures(
                Call::dispatch::<T>,
                (Call::register_para(id, info, code, head), m, c, h, origin),
                r,
            ) && #[trigger] call_ensures(
                Module::<T>::register_para,
                (n, origin, id, info, code, head),
                q,
            ) && m@ == n@ ==> {
                &&& r == q
                &&& final(m)@ == final(n)@
                &&& *final(c) == *c
                &&& *final(h) == *h
            },
        forall|m: &mut Module<T>, c: &mut T::Currency, h: &mut T::SwapAux, n: &mut Module<T>|
            #[trigger] call_ensures(
                Call::dispatch::<T>,
                (Call::deregister_para(id), m, c, h, origin),
                r,
            ) && #[trigger] call_ensures(Module::<T>::deregister_para, (n, origin, id), q) && m@
                == n@ ==> {
                &&& r == q
                &&& final(m)@ == final(n)@
                &&& *final(c) == *c
                &&& *final(h) == *h
            },
        forall|m: &mut Module<T>, c: &mut T::Currency, h: &mut T::SwapAux, n: &mut Module<T>|
            #[trigger] call_ensures(
                Call::dispatch::<T>,
                (Call::set_thread_count(count), m, c, h, origin),
                r,
            ) && #[trigger] call_ensures(Module::<T>::set_thread_count, (n, origin, count), q)
                && m@ == n@ ==> {
                &&& r == q
                &&& final(m)@ == final(n)@
                &&& *final(c) == *c
                &&& *final(h) == *h
            },
{
}

/// A bid, a registration, a deregistration or a swap of parathreads that is sent does what the
/// function of its name does.
pub proof fn law_dispatch_parathreads<T: Trait>(
    origin: Origin<T::AccountId>,
    id: ParaId,
    collator: CollatorId,
    hash: H256,
    code: Vec<u8>,
    head: Vec<u8>,
    r: DispatchResult,
)
    ensures
        forall|m: &mut Module<T>, c: &mut T::Currency, h: &mut T::SwapAux| #[trigger]
            call_ensures(
                Call::dispatch::<T>,
                (Call::select_parathread(id, collator, hash), m, c, h, origin),
                r,
            ) ==> {
                &&& r == if origin is Signed {
                    Ok(())
                } else {
                    Err(NOT_SIGNED)
                }
                &&& final(m)@ == m@
                &&& *final(c) == *c
                &&& *final(h) == *h
            },
        forall|
            m: &mut Module<T>,
            c: &mut T::Currency,
            h: &mut T::SwapAux,
            n: &mut Module<T>,
            d: &mut T::Currency,
        |
            #[trigger] call_ensures(
                Call::dispatch::<T>,
                (Call::register_parathread(code, head), m, c, h, origin),
                r,
            ) && #[trigger] call_ensures(
                Module::<T>::register_parathread,
                (n, d, origin, code, head),
                r,
            ) && m@ == n@ ==> final(m)@ == final(n)@ && *final(h) == *h,
        forall|m: &mut Module<T>, c: &mut T::Currency, h: &mut T::SwapAux| #[trigger]
            call_ensures(
                Call::dispatch::<T>,
                (Call::register_parathread(code, head), m, c, h, origin),
                r,
            ) ==> match origin {
                Origin::Signed(who) => exists|asked: &mut T::Currency|
                    {
                        &&& *asked == *c
                        &&& *final(asked) == *final(c)
                        &&& #[trigger] call_ensures(
                            T::Currency::reserve,
                            (asked, &who, T::PARATHREAD_DEPOSIT),
                            r,
                        )
                    },
                _ => r == Err::<(), &'static str>(NOT_SIGNED) && *final(c) == *c,
            },
        forall|
            m: &mut Module<T>,
            c: &mut T::Currency,
            h: &mut T::SwapAux,
            n: &mut Module<T>,
            d: &mut T::Currency,
            q: DispatchResult,
        |
            #[trigger] call_ensures(
                Call::dispatch::<T>,
                (Call::deregister_parathread, m, c, h, origin),
                r,
            ) && #[trigger] call_ensures(Module::<T>::deregister_parathread, (n, d, origin), q)
                && m@ == n@ ==> {
                &&& r == q
                &&& final(m)@ == final(n)@
                &&& *final(h) == *h
                &&& r is Err ==> *final(c) == *c
            },
        forall|m: &mut Module<T>, c: &mut T::Currency, h: &mut T::SwapAux| #[trigger]
            call_ensures(
                Call::dispatch::<T>,
                (Call::deregister_parathread, m, c, h, origin),
                r,
            ) && r is Ok ==> exists|
                told: &mut T::Currency,
                debtor: T::AccountId,
                left: BalanceOf<T>,
            |
                {
                    &&& *told == *c
                    &&& *final(told) == *final(c)
                    &&& origin is Parachain
                    &&& if m@.debtors.contains_key(origin->Parachain_0) {
                        debtor == m@.debtors[origin->Parachain_0]
                    } else {
                        call_ensures(T::AccountId::default, (), debtor)
                    }
                    &&& #[trigger] call_ensures(
                        T::Currency::unreserve,
                        (told, &debtor, T::PARATHREAD_DEPOSIT),
                        left,
                    )
                },
        forall|
            m: &mut Module<T>,
            c: &mut T::Currency,
            h: &mut T::SwapAux,
            n: &mut Module<T>,
            g: &mut T::SwapAux,
        |
            #[trigger] call_ensures(Call::dispatch::<T>, (Call::swap(id), m, c, h, origin), r)
                && #[trigger] call_ensures(Module::<T>::swap, (n, g, origin, id), r) && m@ == n@
                ==> final(m)@ == final(n)@ && *final(c) == *c,
        forall|m: &mut Module<T>, c: &mut T::Currency, h: &mut T::SwapAux| #[trigger]
            call_ensures(Call::dispatch::<T>, (Call::swap(id), m, c, h, origin), r) ==> match origin {
                Origin::Parachain(x) => if !(m@.pending_swap.contains_key(id) && m@.pending_swap[id]
                    == x) {
                    r is Ok && *final(h) == *h
                } else {
                    exists|asked: &mut T::SwapAux|
                        {
                            &&& *asked == *h
                            &&& #[trigger] call_ensures(
                                T::SwapAux::ensure_can_swap,
                                (asked, x, id),
                                r,
                            )
                            &&& if r is Ok {
                                exists|told: &mut T::SwapAux, done: DispatchResult|
                                    {
                                        &&& *told == *final(asked)
                                        &&& *final(told) == *final(h)
                                        &&& #[trigger] call_ensures(
                                            T::SwapAux::on_swap,
                                            (told, x, id),
                                            done,
                                        )
                                    }
                            } else {
                                *final(asked) == *final(h)
                            }
                        }
                },
                _ => r == Err::<(), &'static str>(NOT_PARACHAIN) && *final(h) == *h,
            },
{
}

/// Every call is accepted at any time, whatever its arguments; only an identifier has to be left
/// where one is handed out, and a list has to be left in the queue where none is ever put behind.
pub proof fn law_accepted<T: Trait>(
    origin: Origin<T::AccountId>,
    id: ParaId,
    info: ParaInfo,
    count: u32,
    collator: CollatorId,
    hash: H256,
    code: Vec<u8>,
    head: Vec<u8>,
    did_update: Option<Vec<ParaId>>,
    rule: LimitParathreadCommits<T>,
    who: T::AccountId,
    tx: Option<&Call>,
    len: usize,
    call: Call,
)
    ensures
        forall|m: &mut Module<T>|
            m.wf() ==> #[trigger] call_requires(Module::<T>::set_thread_count, (m, origin, count)),
        forall|m: &mut Module<T>|
            m.wf() ==> #[trigger] call_requires(
                Module::<T>::register_para,
                (m, origin, id, info, code, head),
            ),
        forall|m: &mut Module<T>|
            m.wf() ==> #[trigger] call_requires(Module::<T>::deregister_para, (m, origin, id)),
        forall|m: &mut Module<T>|
            m.wf() ==> #[trigger] call_requires(
                <Module<T> as Registrar<T::AccountId>>::register_para,
                (m, id, info, code, head),
            ),
        forall|m: &mut Module<T>|
            m.wf() ==> #[trigger] call_requires(
                <Module<T> as Registrar<T::AccountId>>::deregister_para,
                (m, id),
            ),
        forall|m: &mut Module<T>|
            m.wf() && m@.next_free_id < ParaId::MAX ==> #[trigger] call_requires(
                <Module<T> as Registrar<T::AccountId>>::new_id,
                (m,),
            ),
        forall|m: &mut Module<T>|
            m.wf() ==> #[trigger] call_requires(
                Module::<T>::select_parathread,
                (m, origin, id, collator, hash),
            ),
        forall|m: &mut Module<T>, c: &mut T::Currency|
            m.wf() && m@.next_free_id < ParaId::MAX ==> #[trigger] call_requires(
                Module::<T>::register_parathread,
                (m, c, origin, code, head),
            ),
        forall|m: &mut Module<T>, c: &mut T::Currency|
            m.wf() ==> #[trigger] call_requires(Module::<T>::deregister_parathread, (m, c, origin)),
        forall|m: &mut Module<T>, h: &mut T::SwapAux|
            m.wf() ==> #[trigger] call_requires(Module::<T>::swap, (m, h, origin, id)),
        forall|m: &mut Module<T>|
            m.wf() && (T::QUEUE_SIZE > 0 || m@.selected_threads.len() > 0) ==> #[trigger] call_requires(
                Module::<T>::on_initialize,
                (m,),
            ),
        forall|m: &mut Module<T>|
            m.wf() ==> #[trigger] call_requires(Module::<T>::on_finalize, (m, did_update)),
        forall|m: &mut Module<T>|
            m.wf() ==> #[trigger] call_requires(
                LimitParathreadCommits::<T>::validate,
                (&rule, m, &who, tx, len),
            ),
        forall|m: &mut Module<T>, c: &mut T::Currency, h: &mut T::SwapAux|
            m.wf() && m@.next_free_id < ParaId::MAX ==> #[trigger] call_requires(
                Call::dispatch::<T>,
                (call, m, c, h, origin),
            ),
{
}

/// No call breaks the invariant of the registrar.
pub proof fn law_kept<T: Trait>(
    origin: Origin<T::AccountId>,
    id: ParaId,
    info: ParaInfo,
    count: u32,
    collator: CollatorId,
    hash: H256,
    code: Vec<u8>,
    head: Vec<u8>,
    did_update: Option<Vec<ParaId>>,
    rule: LimitParathreadCommits<T>,
    who: T::AccountId,
    tx: Option<&Call>,
    len: usize,
    call: Call,
    r: DispatchResult,
    x: ParaId,
    v: TransactionValidity,
)
    ensures
        forall|m: &mut Module<T>| #[trigger]
            call_ensures(Module::<T>::set_thread_count, (m, origin, count), r) ==> final(m).wf(),
        forall|m: &mut Module<T>| #[trigger]
            call_ensures(
                Module::<T>::register_para,
                (m, origin, id, info, code, head),
                r,
            ) ==> final(m).wf(),
        forall|m: &mut Module<T>| #[trigger]
            call_ensures(Module::<T>::deregister_para, (m, origin, id), r) ==> final(m).wf(),
        forall|m: &mut Module<T>| #[trigger]
            call_ensures(
                <Module<T> as Registrar<T::AccountId>>::register_para,
                (m, id, info, code, head),
                r,
            ) ==> final(m).wf(),
        forall|m: &mut Module<T>| #[trigger]
            call_ensures(
                <Module<T> as Registrar<T::AccountId>>::deregister_para,
                (m, id),
                r,
            ) ==> final(m).wf(),
        forall|m: &mut Module<T>| #[trigger]
            call_ensures(<Module<T> as Registrar<T::AccountId>>::new_id, (m,), x) ==> final(m).wf(),
        forall|m: &mut Module<T>, c: &mut T::Currency| #[trigger]
            call_ensures(
                Module::<T>::register_parathread,
                (m, c, origin, code, head),
                r,
            ) ==> final(m).wf(),
        forall|m: &mut Module<T>, c: &mut T::Currency| #[trigger]
            call_ensures(Module::<T>::deregister_parathread, (m, c, origin), r) ==> final(m).wf(),
        forall|m: &mut Module<T>, h: &mut T::SwapAux| #[trigger]
            call_ensures(Module::<T>::swap, (m, h, origin, id), r) ==> final(m).wf(),
        forall|m: &mut Module<T>| #[trigger]
            call_ensures(Module::<T>::on_initialize, (m,), ()) ==> final(m).wf(),
        forall|m: &mut Module<T>| #[trigger]
            call_ensures(Module::<T>::on_finalize, (m, did_update), ()) ==> final(m).wf(),
        forall|m: &mut Module<T>| #[trigger]
            call_ensures(
                LimitParathreadCommits::<T>::validate,
                (&rule, m, &who, tx, len),
                v,
            ) ==> final(m).wf(),
        forall|m: &mut Module<T>, c: &mut T::Currency, h: &mut T::SwapAux| #[trigger]
            call_ensures(Call::dispatch::<T>, (call, m, c, h, origin), r) ==> final(m).wf(),
{
}

} // verus!
