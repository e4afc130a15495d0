//! The calls that can be sent to the registrar, and the rules for bids on parathreads.

use crate::config::{BalanceOf, ReservableCurrency, SwapAux, Trait};
use crate::hashing::Hashing;
use crate::module::{Module, NOT_PARACHAIN, NOT_ROOT, NOT_SIGNED};
use crate::state::{entry, State};
use crate::types::{
    CollatorId, DispatchClass, DispatchInfo, DispatchResult, Origin, ParaId, ParaInfo, H256,
};
use crate::validity::{
    Error, InvalidTransaction, TransactionValidity, TransactionValidityError, ValidTransaction,
};
use core::marker::PhantomData;
use vstd::prelude::*;

verus! {

/// The calls of the registrar.
#[allow(non_camel_case_types)]
pub enum Call {
    register_para(ParaId, ParaInfo, Vec<u8>, Vec<u8>),
    deregister_para(ParaId),
    set_thread_count(u32),
    register_parathread(Vec<u8>, Vec<u8>),
    select_parathread(ParaId, CollatorId, H256),
    deregister_parathread,
    swap(ParaId),
}

impl Call {
    /// What the call takes up of a block; none where nothing is set for it, so that what the
    /// runtime sets for all calls holds.
    pub open spec fn spec_dispatch_info(self) -> Option<DispatchInfo> {
        match self {
            Call::register_para(_, _, _, _) => Some(
                DispatchInfo { weight: 5_000_000, class: DispatchClass::Operational },
            ),
            Call::deregister_para(_) => Some(
                DispatchInfo { weight: 10_000, class: DispatchClass::Operational },
            ),
            _ => None,
        }
    }

    /// What the call takes up of a block; none where nothing is set for it, so that what the
    /// runtime sets for all calls holds.
    pub fn get_dispatch_info(&self) -> (r: Option<DispatchInfo>)
        ensures
            r == self.spec_dispatch_info(),
    {
        match self {
            Call::register_para(_, _, _, _) => Some(
                DispatchInfo { weight: 5_000_000, class: DispatchClass::Operational },
            ),
            Call::deregister_para(_) => Some(
                DispatchInfo { weight: 10_000, class: DispatchClass::Operational },
            ),
            _ => None,
        }
    }

    /// Sends the call to the registrar. What comes of it is what comes of the function of that
    /// name.
    pub fn dispatch<T: Trait>(
        self,
        module: &mut Module<T>,
        currency: &mut T::Currency,
        swap_aux: &mut T::SwapAux,
        origin: Origin<T::AccountId>,
    ) -> (r: DispatchResult)
        requires
            old(module).wf(),
            self is register_parathread && origin is Signed ==> old(module)@.next_free_id
                < ParaId::MAX,
        ensures
            final(module).wf(),
            !(self is register_parathread) && !(self is deregister_parathread) ==> *final(currency)
                == *old(currency),
            !(self is swap) ==> *final(swap_aux) == *old(swap_aux),
            match self {
                Call::register_para(id, info, code, head) => {
                    &&& r == if origin is Root {
                        old(module)@.register_result(id)
                    } else {
                        Err(NOT_ROOT)
                    }
                    &&& final(module)@ == if origin is Root {
                        old(module)@.after_register(id, info, code@, head@)
                    } else {
                        old(module)@
                    }
                },
                Call::deregister_para(id) => {
                    &&& r == if origin is Root {
                        old(module)@.deregister_result(id)
                    } else {
                        Err(NOT_ROOT)
                    }
                    &&& final(module)@ == if origin is Root {
                        old(module)@.after_deregister(id)
                    } else {
                        old(module)@
                    }
                },
                Call::set_thread_count(count) => {
                    &&& r == if origin is Root {
                        Ok(())
                    } else {
                        Err(NOT_ROOT)
                    }
                    &&& final(module)@ == if origin is Root {
                        old(module)@.with_thread_count(count)
                    } else {
                        old(module)@
                    }
                },
                Call::register_parathread(code, head) => match origin {
                    Origin::Signed(who) => {
                        &&& exists|asked: &mut T::Currency|
                            {
                                &&& *asked == *old(currency)
                                &&& *final(asked) == *final(currency)
                                &&& #[trigger] call_ensures(
                                    T::Currency::reserve,
                                    (asked, &who, T::PARATHREAD_DEPOSIT),
                                    r,
                                )
                            }
                        &&& final(module)@ == if r is Ok {
                            old(module)@.parathread_registered(who, code@, head@)
                        } else {
                            old(module)@
                        }
                    },
                    _ => {
                        &&& r == Err::<(), &'static str>(NOT_SIGNED)
                        &&& final(module)@ == old(module)@
                        &&& *final(currency) == *old(currency)
                    },
                },
                Call::select_parathread(_, _, _) => {
                    &&& r == if origin is Signed {
                        Ok(())
                    } else {
                        Err(NOT_SIGNED)
                    }
                    &&& final(module)@ == old(module)@
                },
                Call::deregister_parathread => {
                    &&& r == match origin {
                        Origin::Parachain(id) => old(module)@.deregister_parathread_result(id),
                        _ => Err(NOT_PARACHAIN),
                    }
                    &&& match (origin, r) {
                        (Origin::Parachain(id), Ok(())) => {
                            &&& final(module)@ == old(module)@.parathread_deregistered(id)
                            &&& exists|
                                told: &mut T::Currency,
                                debtor: T::AccountId,
                                left: BalanceOf<T>,
                            |
                                {
                                    &&& *told == *old(currency)
                                    &&& *final(told) == *final(currency)
                                    &&& match entry(old(module)@.debtors, id) {
                                        Some(who) => debtor == who,
                                        None => call_ensures(T::AccountId::default, (), debtor),
                                    }
                                    &&& #[trigger] call_ensures(
                                        T::Currency::unreserve,
                                        (told, &debtor, T::PARATHREAD_DEPOSIT),
                                        left,
                                    )
                                }
                        },
                        _ => {
                            &&& final(module)@ == old(module)@
                            &&& *final(currency) == *old(currency)
                        },
                    }
                },
                Call::swap(other) => match origin {
                    Origin::Parachain(id) => if old(module)@.swap_pending(id, other) {
                        &&& exists|asked: &mut T::SwapAux|
                            {
                                &&& *asked == *old(swap_aux)
                                &&& #[trigger] call_ensures(
                                    T::SwapAux::ensure_can_swap,
                                    (asked, id, other),
                                    r,
                                )
                                &&& if r is Ok {
                                    exists|told: &mut T::SwapAux, done: Result<(), &'static str>|
                                        {
                                            &&& *told == *final(asked)
                                            &&& *final(told) == *final(swap_aux)
                                            &&& #[trigger] call_ensures(
                                                T::SwapAux::on_swap,
                                                (told, id, other),
                                                done,
                                            )
                                        }
                                } else {
                                    *final(asked) == *final(swap_aux)
                                }
                            }
                        &&& final(module)@ == if r is Ok {
                            old(module)@.swapped(id, other)
                        } else {
                            old(module)@
                        }
                    } else {
                        &&& r == Ok::<(), &'static str>(())
                        &&& final(module)@ == old(module)@.swap_asked(id, other)
                        &&& *final(swap_aux) == *old(swap_aux)
                    },
                    _ => {
                        &&& r == Err::<(), &'static str>(NOT_PARACHAIN)
                        &&& final(module)@ == old(module)@
                        &&& *final(swap_aux) == *old(swap_aux)
                    },
                },
            },
    {
        match self {
            Call::register_para(id, info, code, head) => module.register_para(
                origin,
                id,
                info,
                code,
                head,
            ),
            Call::deregister_para(id) => module.deregister_para(origin, id),
            Call::set_thread_count(count) => module.set_thread_count(origin, count),
            Call::register_parathread(code, head) => module.register_parathread(
                currency,
                origin,
                code,
                head,
            ),
            Call::select_parathread(id, collator, hash) => module.select_parathread(
                origin,
                id,
                collator,
                hash,
            ),
            Call::deregister_parathread => module.deregister_parathread(currency, origin),
            Call::swap(other) => module.swap(swap_aux, origin, other),
        }
    }
}

/// `head_hash` came back when the hash of the head of `id` was asked for; none did where there is
/// no head.
pub open spec fn head_hashed<T: Trait>(
    s: State<T::AccountId>,
    id: ParaId,
    head_hash: Option<H256>,
) -> bool {
    match head_hash {
        Some(actual) => {
            &&& s.chains.heads.contains_key(id)
            &&& exists|head: &[u8]|
                head@ == s.chains.heads[id] && #[trigger] call_ensures(
                    T::Hashing::hash,
                    (head,),
                    actual,
                )
        },
        None => !s.chains.heads.contains_key(id),
    }
}

/// Ensure that parathread selections happen prioritized by fees.
pub struct LimitParathreadCommits<T: Trait>(pub PhantomData<T>);

impl<T: Trait> LimitParathreadCommits<T> {
    /// How the rule is shown to a programmer.
    pub fn fmt(&self) -> (r: String)
        ensures
            r@ == "LimitParathreadCommits<T>"@,
    {
        "LimitParathreadCommits<T>".to_string()
    }

    /// Nothing is signed beside the transaction.
    pub fn additional_signed(&self) -> (r: Result<(), TransactionValidityError>)
        ensures
            r is Ok,
    {
        Ok(())
    }

    /// Judges a transaction. One that selects a parathread has to name a parathread that is not
    /// selected yet for the last block of the queue, while that block has room, and the hash of
    /// its head. It is selected if it does, and nothing changes if it does not. Any other
    /// transaction passes; `call` is none where it is not a call of the registrar.
    pub fn validate(
        &self,
        module: &mut Module<T>,
        _who: &T::AccountId,
        call: Option<&Call>,
        _len: usize,
    ) -> (r: TransactionValidity)
        requires
            old(module).wf(),
        ensures
            final(module).wf(),
            match call {
                Some(Call::select_parathread(id, collator, hash)) => exists|
                    head_hash: Option<H256>,
                |
                    {
                        &&& old(module)@.selection_refused(*id) is None ==> head_hashed::<T>(
                            old(module)@,
                            *id,
                            head_hash,
                        )
                        &&& match #[trigger] old(module)@.bid_refused(*id, *hash, head_hash) {
                            Some(e) => {
                                &&& r == Err::<ValidTransaction, _>(
                                    TransactionValidityError::Invalid(e),
                                )
                                &&& final(module)@ == old(module)@
                            },
                            None => {
                                &&& r is Ok && r->Ok_0.provides_only(seq![hash@])
                                &&& final(module)@ == old(module)@.selected(*id, *collator)
                            },
                        }
                    },
                _ => {
                    &&& r is Ok && r->Ok_0.provides_only(Seq::empty())
                    &&& final(module)@ == old(module)@
                },
            },
    {
        let ghost start = module@;
        match call {
            Some(Call::select_parathread(id, collator, hash)) => {
                let pos: usize = match module.selection_place(*id) {
                    Ok(pos) => pos,
                    Err(e) => {
                        assert(start.bid_refused(*id, *hash, None) is Some);
                        return Err(e);
                    },
                };
                match module.chains().parachain_head(*id) {
                    Some(head) => {
                        let actual: H256 = T::Hashing::hash(head.as_slice());
                        assert(head_hashed::<T>(start, *id, Some(actual)));
                        assert(start.bid_refused(*id, *hash, Some(actual)) is None <==> actual@
                            == hash@);
                        module.commit_selection(*id, *collator, pos, hash, &actual)
                    },
                    None => {
                        assert(start.bid_refused(*id, *hash, None) is Some);
                        Err(
                            TransactionValidityError::Invalid(
                                InvalidTransaction::Custom(Error::InvalidId.code()),
                            ),
                        )
                    },
                }
            },
            _ => Ok(ValidTransaction::default()),
        }
    }
}

} // verus!
