//! What can be read of the registrar, and what its parts do, said of plain values.

use crate::chains::{ChainData, Chains};
use crate::commits::{Call, LimitParathreadCommits};
use crate::config::Trait;
use crate::hashing::same_hash;
use crate::ids::{
    ascending, ids_of, lemma_existence_swapped, lemma_has_place, lemma_id_order, lemma_place,
    lemma_swapped_ids, place, search_id, search_selection, splits, swap_ids, swapped_ids,
};
use crate::ordered::{existence_swapped, ordered, swap_ordered_existence};
use crate::module::Module;
use crate::queues::{
    any_waiting, contents, first_waiting, is_first_waiting, retry_later, take_next_retry,
    take_next_up,
};
use crate::schedule::{retry_missed, schedule};
use crate::state::State;
use crate::types::{
    ActiveEntry, BlockNumber, CollatorId, DispatchClass, DispatchInfo, Event, ParaId, ParaInfo,
    Retriable, Scheduling, Selection, H256,
};
use crate::validity::{
    Error, InvalidTransaction, TransactionValidity, TransactionValidityError, ValidTransaction,
};
use vstd::prelude::*;

verus! {

/// What is read of one para is what is kept of it, and nothing where nothing is kept.
pub proof fn law_reads_of_a_para<T: Trait>(m: &Module<T>, id: ParaId)
    ensures
        forall|r: Option<ParaInfo>| #[trigger]
            call_ensures(Module::<T>::paras, (m, id), r) ==> match r {
                Some(info) => m@.paras.contains_key(id) && info == m@.paras[id],
                None => !m@.paras.contains_key(id),
            },
        forall|r: Option<ParaInfo>| #[trigger]
            call_ensures(Module::<T>::ensure_thread_id, (m, id), r) ==> match r {
                Some(info) => m@.paras.contains_key(id) && info == m@.paras[id] && info.scheduling
                    == Scheduling::Dynamic,
                None => m@.paras.contains_key(id) ==> m@.paras[id].scheduling == Scheduling::Always,
            },
        forall|r: Option<ParaId>| #[trigger]
            call_ensures(Module::<T>::pending_swap, (m, id), r) ==> match r {
                Some(other) => m@.pending_swap.contains_key(id) && other == m@.pending_swap[id],
                None => !m@.pending_swap.contains_key(id),
            },
        forall|r: Option<&T::AccountId>| #[trigger]
            call_ensures(Module::<T>::debtor, (m, id), r) ==> match r {
                Some(who) => m@.debtors.contains_key(id) && *who == m@.debtors[id],
                None => !m@.debtors.contains_key(id),
            },
{
}

/// What is read of the registrar as a whole is what it holds.
pub proof fn law_reads_of_all<T: Trait>(m: &Module<T>)
    ensures
        forall|r: &Vec<ParaId>| #[trigger]
            call_ensures(Module::<T>::parachains, (m,), r) ==> r@ == m@.parachains,
        forall|r: u32| #[trigger]
            call_ensures(Module::<T>::thread_count, (m,), r) ==> r == m@.thread_count,
        forall|r: ParaId| #[trigger]
            call_ensures(Module::<T>::next_free_id, (m,), r) ==> r == m@.next_free_id,
        forall|r: Vec<ActiveEntry>| #[trigger]
            call_ensures(Module::<T>::active_paras, (m,), r) ==> r@ == m@.active,
        forall|r: &Vec<Event>| #[trigger]
            call_ensures(Module::<T>::events, (m,), r) ==> r@ == m@.events,
        forall|r: &Chains| #[trigger]
            call_ensures(Module::<T>::chains, (m,), r) ==> r@ == m@.chains,
        forall|r: &Vec<Vec<Selection>>| #[trigger]
            call_ensures(Module::<T>::selected_threads, (m,), r) ==> {
                &&& r@.len() == m@.selected_threads.len()
                &&& forall|i: int|
                    0 <= i < r@.len() ==> (#[trigger] r@[i])@ == m@.selected_threads[i]
            },
        forall|r: &Vec<Vec<Selection>>| #[trigger]
            call_ensures(Module::<T>::retry_queue, (m,), r) ==> {
                &&& r@.len() == m@.retry_queue.len()
                &&& forall|i: int| 0 <= i < r@.len() ==> (#[trigger] r@[i])@ == m@.retry_queue[i]
            },
{
    assert forall|r: &Vec<Vec<Selection>>| #[trigger]
        call_ensures(Module::<T>::selected_threads, (m,), r) implies ({
        &&& r@.len() == m@.selected_threads.len()
        &&& forall|i: int| 0 <= i < r@.len() ==> (#[trigger] r@[i])@ == m@.selected_threads[i]
    }) by {
        assert(contents(r@).len() == r@.len());
        assert forall|i: int| 0 <= i < r@.len() implies (#[trigger] r@[i])@
            == m@.selected_threads[i] by {
            assert(contents(r@)[i] == r@[i]@);
        }
    }
    assert forall|r: &Vec<Vec<Selection>>| #[trigger]
        call_ensures(Module::<T>::retry_queue, (m,), r) implies ({
        &&& r@.len() == m@.retry_queue.len()
        &&& forall|i: int| 0 <= i < r@.len() ==> (#[trigger] r@[i])@ == m@.retry_queue[i]
    }) by {
        assert(contents(r@).len() == r@.len());
        assert forall|i: int| 0 <= i < r@.len() implies (#[trigger] r@[i])@
            == m@.retry_queue[i] by {
            assert(contents(r@)[i] == r@[i]@);
        }
    }
}

/// A registrar that is made holds nothing, and hands out identifiers from `LOWEST_USER_ID` on.
pub proof fn law_new<T: Trait>(r: Module<T>)
    requires
        call_ensures(Module::<T>::new, (), r),
    ensures
        r@ == (State {
            parachains: Seq::empty(),
            thread_count: 0,
            selected_threads: Seq::empty(),
            active: Seq::empty(),
            next_free_id: 1000,
            pending_swap: Map::empty(),
            paras: Map::empty(),
            retry_queue: Seq::empty(),
            debtors: Map::<ParaId, T::AccountId>::empty(),
            chains: ChainData { code: Map::empty(), heads: Map::empty(), watermarks: Map::empty() },
            events: Seq::empty(),
        }),
{
}

/// Code and head data are kept until they are forgotten, a watermark stays; what is kept of other
/// paras is left alone, and what is kept is what is read.
pub proof fn law_chains(id: ParaId, code: Vec<u8>, head: Vec<u8>, block: BlockNumber)
    ensures
        forall|c: &mut Chains| #[trigger]
            call_ensures(Chains::initialize_para, (c, id, code, head), ()) ==> final(c)@ == (
            ChainData {
                code: c@.code.insert(id, code@),
                heads: c@.heads.insert(id, head@),
                watermarks: c@.watermarks,
            }),
        forall|c: &mut Chains| #[trigger]
            call_ensures(Chains::cleanup_para, (c, id), ()) ==> final(c)@ == (ChainData {
                code: c@.code.remove(id),
                heads: c@.heads.remove(id),
                watermarks: c@.watermarks,
            }),
        forall|c: &mut Chains| #[trigger]
            call_ensures(Chains::set_watermark, (c, id, block), ()) ==> final(c)@ == (ChainData {
                code: c@.code,
                heads: c@.heads,
                watermarks: c@.watermarks.insert(id, block),
            }),
        forall|c: &Chains, r: Option<&Vec<u8>>| #[trigger]
            call_ensures(Chains::parachain_code, (c, id), r) ==> match r {
                Some(v) => c@.code.contains_key(id) && v@ == c@.code[id],
                None => !c@.code.contains_key(id),
            },
        forall|c: &Chains, r: Option<&Vec<u8>>| #[trigger]
            call_ensures(Chains::parachain_head, (c, id), r) ==> match r {
                Some(v) => c@.heads.contains_key(id) && v@ == c@.heads[id],
                None => !c@.heads.contains_key(id),
            },
        forall|c: &Chains, r: Option<BlockNumber>| #[trigger]
            call_ensures(Chains::watermark, (c, id), r) ==> match r {
                Some(v) => c@.watermarks.contains_key(id) && v == c@.watermarks[id],
                None => !c@.watermarks.contains_key(id),
            },
        forall|c: Chains| #[trigger]
            call_ensures(Chains::new, (), c) ==> c@ == (ChainData {
                code: Map::empty(),
                heads: Map::empty(),
                watermarks: Map::empty(),
            }),
{
}

/// The numbers by which the transaction pool knows the errors.
pub proof fn law_codes()
    ensures
        forall|r: u8| #[trigger] call_ensures(Error::code, (Error::Duplicate,), r) ==> r == 0,
        forall|r: u8| #[trigger] call_ensures(Error::code, (Error::InvalidId,), r) ==> r == 1,
{
}

/// Registering and deregistering of parachains are operational calls of fixed weight; for all
/// other calls nothing is set.
pub proof fn law_weights(call: Call, r: Option<DispatchInfo>)
    requires
        call_ensures(Call::get_dispatch_info, (&call,), r),
    ensures
        r == match call {
            Call::register_para(_, _, _, _) => Some(
                DispatchInfo { weight: 5_000_000, class: DispatchClass::Operational },
            ),
            Call::deregister_para(_) => Some(
                DispatchInfo { weight: 10_000, class: DispatchClass::Operational },
            ),
            Call::set_thread_count(_) => None,
            Call::register_parathread(_, _) => None,
            Call::select_parathread(_, _, _) => None,
            Call::deregister_parathread => None,
            Call::swap(_) => None,
        },
{
}

/// A parathread that missed its block is put last into the queue of its number of retries, if that
/// is below the limit; there are then as many queues as the limit says. If it is not, nothing
/// changes.
pub proof fn law_retry_later(sel: Selection, n: u32, max: u32, i: int)
    ensures
        forall|qs: &mut Vec<Vec<Selection>>| #[trigger]
            call_ensures(retry_later, (qs, sel, n, max), ()) ==> {
                let start = qs@;
                let end = final(qs)@;
                &&& end.len() == if n < max {
                    max as int
                } else {
                    start.len() as int
                }
                &&& 0 <= i < end.len() ==> end[i]@ == {
                    let q = if i < start.len() {
                        start[i]@
                    } else {
                        Seq::empty()
                    };
                    if n < max && i == n {
                        q.push(sel)
                    } else {
                        q
                    }
                }
            },
{
    assert forall|qs: &mut Vec<Vec<Selection>>| #[trigger]
        call_ensures(retry_later, (qs, sel, n, max), ()) implies ({
        let start = qs@;
        let end = final(qs)@;
        &&& end.len() == if n < max {
            max as int
        } else {
            start.len() as int
        }
        &&& 0 <= i < end.len() ==> end[i]@ == {
            let q = if i < start.len() {
                start[i]@
            } else {
                Seq::empty()
            };
            if n < max && i == n {
                q.push(sel)
            } else {
                q
            }
        }
    }) by {
        let start = qs@;
        let end = final(qs)@;
        assert(contents(end).len() == end.len() && contents(start).len() == start.len());
        if 0 <= i < end.len() {
            assert(contents(end)[i] == end[i]@);
        }
        if 0 <= i < start.len() {
            assert(contents(start)[i] == start[i]@);
        }
    }
}

/// What is taken out to be retried is the head of the first queue in which something waits, with
/// the number of that queue; nothing is taken out where nothing waits.
pub proof fn law_take_next_retry(r: Option<(Selection, u32)>)
    ensures
        forall|qs: &mut Vec<Vec<Selection>>| #[trigger]
            call_ensures(take_next_retry, (qs,), r) && qs@.len() <= u32::MAX ==> {
                let start = qs@;
                let end = final(qs)@;
                &&& end.len() == start.len()
                &&& match r {
                    Some((sel, n)) => {
                        &&& n < start.len()
                        &&& start[n as int]@ == seq![sel] + end[n as int]@
                        &&& forall|j: int| 0 <= j < n ==> (#[trigger] start[j])@.len() == 0
                        &&& forall|j: int|
                            0 <= j < end.len() && j != n ==> (#[trigger] end[j])@ == start[j]@
                    },
                    None => {
                        &&& forall|j: int|
                            0 <= j < start.len() ==> (#[trigger] start[j])@.len() == 0
                        &&& forall|j: int| 0 <= j < end.len() ==> (#[trigger] end[j])@.len() == 0
                    },
                }
            },
{
    assert forall|qs: &mut Vec<Vec<Selection>>| #[trigger]
        call_ensures(take_next_retry, (qs,), r) && qs@.len() <= u32::MAX implies ({
        let start = qs@;
        let end = final(qs)@;
        &&& end.len() == start.len()
        &&& match r {
            Some((sel, n)) => {
                &&& n < start.len()
                &&& start[n as int]@ == seq![sel] + end[n as int]@
                &&& forall|j: int| 0 <= j < n ==> (#[trigger] start[j])@.len() == 0
                &&& forall|j: int|
                    0 <= j < end.len() && j != n ==> (#[trigger] end[j])@ == start[j]@
            },
            None => {
                &&& forall|j: int| 0 <= j < start.len() ==> (#[trigger] start[j])@.len() == 0
                &&& forall|j: int| 0 <= j < end.len() ==> (#[trigger] end[j])@.len() == 0
            },
        }
    }) by {
        let start = qs@;
        let end = final(qs)@;
        let a = contents(start);
        let b = contents(end);
        assert(b.len() == end.len() && a.len() == start.len());
        assert forall|j: int| 0 <= j < end.len() implies (#[trigger] end[j])@ == b[j] by {}
        assert forall|j: int| 0 <= j < start.len() implies (#[trigger] start[j])@ == a[j] by {}
        if any_waiting(a) {
            let k = first_waiting(a);
            assert(is_first_waiting(a, k));
            assert(b == a.update(k, a[k].drop_first()));
            assert(a[k] =~= seq![a[k][0]] + a[k].drop_first());
            assert forall|j: int| 0 <= j < k implies (#[trigger] start[j])@.len() == 0 by {
                assert(a[j].len() == 0);
            }
        } else {
            lemma_none_waits(a, a.len() as int);
            assert forall|j: int| 0 <= j < start.len() implies (
            #[trigger] start[j])@.len() == 0 by {
                assert(a[j].len() == 0);
            }
        }
    }
}

proof fn lemma_none_waits(qs: Seq<Seq<Selection>>, n: int)
    requires
        !any_waiting(qs),
        0 <= n <= qs.len(),
    ensures
        forall|j: int| 0 <= j < n ==> (#[trigger] qs[j]).len() == 0,
    decreases n,
{
    if n > 0 {
        lemma_none_waits(qs, n - 1);
        if qs[n - 1].len() > 0 {
            assert(is_first_waiting(qs, n - 1));
        }
    }
}

/// The first list is taken out where there are `size` of them or more; the others move up, and
/// empty ones are put behind until there are `size`.
pub proof fn law_take_next_up(size: usize, r: Vec<Selection>, i: int)
    ensures
        forall|qs: &mut Vec<Vec<Selection>>| #[trigger]
            call_ensures(take_next_up, (qs, size), r) && (size > 0 || qs@.len() > 0) ==> {
                let start = qs@;
                let end = final(qs)@;
                let shift: int = if start.len() >= size {
                    1
                } else {
                    0
                };
                &&& r@ == if start.len() >= size {
                    start[0]@
                } else {
                    Seq::empty()
                }
                &&& end.len() == if start.len() - shift >= size {
                    start.len() - shift
                } else {
                    size as int
                }
                &&& 0 <= i < end.len() ==> end[i]@ == if i + shift < start.len() {
                    start[i + shift]@
                } else {
                    Seq::empty()
                }
            },
{
    assert forall|qs: &mut Vec<Vec<Selection>>| #[trigger]
        call_ensures(take_next_up, (qs, size), r) && (size > 0 || qs@.len() > 0) implies ({
        let start = qs@;
        let end = final(qs)@;
        let shift: int = if start.len() >= size {
            1
        } else {
            0
        };
        &&& r@ == if start.len() >= size {
            start[0]@
        } else {
            Seq::empty()
        }
        &&& end.len() == if start.len() - shift >= size {
            start.len() - shift
        } else {
            size as int
        }
        &&& 0 <= i < end.len() ==> end[i]@ == if i + shift < start.len() {
            start[i + shift]@
        } else {
            Seq::empty()
        }
    }) by {
        let start = qs@;
        let end = final(qs)@;
        assert(contents(end).len() == end.len() && contents(start).len() == start.len());
        if 0 <= i < end.len() {
            assert(contents(end)[i] == end[i]@);
        }
        if start.len() > 0 {
            assert(contents(start)[0] == start[0]@);
        }
        if 0 <= i < start.len() {
            assert(contents(start)[i] == start[i]@);
        }
        if 0 <= i + 1 < start.len() {
            assert(contents(start)[i + 1] == start[i + 1]@);
        }
    }
}

/// What may be selected has its place among those selected for the last block of the queue: behind
/// all smaller identifiers, and before all larger ones. Only what is no parathread, comes when as
/// many are selected as may be, or is selected for that block already, may not be selected.
pub proof fn law_selection_place<T: Trait>(
    m: &Module<T>,
    id: ParaId,
    last: Seq<Selection>,
    r: Result<usize, TransactionValidityError>,
)
    requires
        call_ensures(Module::<T>::selection_place, (m, id), r),
        last == (if m@.selected_threads.len() == 0 {
            Seq::empty()
        } else {
            m@.selected_threads.last()
        }),
        forall|i: int, j: int|
            0 <= i < j < last.len() ==> (#[trigger] last[i]).0 < (#[trigger] last[j]).0,
    ensures
        if !m@.paras.contains_key(id) || !(m@.paras[id].scheduling is Dynamic) {
            r == Err::<usize, _>(TransactionValidityError::Invalid(InvalidTransaction::Custom(1)))
        } else if last.len() >= m@.thread_count {
            r == Err::<usize, _>(
                TransactionValidityError::Invalid(InvalidTransaction::ExhaustsResources),
            )
        } else if exists|i: int| 0 <= i < last.len() && (#[trigger] last[i]).0 == id {
            r == Err::<usize, _>(TransactionValidityError::Invalid(InvalidTransaction::Custom(0)))
        } else {
            &&& r is Ok
            &&& r->Ok_0 <= last.len()
            &&& forall|i: int| 0 <= i < r->Ok_0 ==> (#[trigger] last[i]).0 < id
            &&& forall|i: int| r->Ok_0 <= i < last.len() ==> id < (#[trigger] last[i]).0
        },
{
    let ids = ids_of(last);
    assert(last == m@.open_queues().last());
    if exists|i: int| 0 <= i < last.len() && (#[trigger] last[i]).0 == id {
        let i = choose|i: int| 0 <= i < last.len() && (#[trigger] last[i]).0 == id;
        assert(ids[i] == id);
    }
    if ids.contains(id) {
        assert(last[ids.index_of(id)].0 == id);
    } else {
        assert forall|i: int, j: int| 0 <= i < j < ids.len() implies #[trigger] ids[i]
            < #[trigger] ids[j] by {
            assert(last[i].0 < last[j].0);
        }
        lemma_has_place(ids, id);
        let p = place(ids, id);
        assert forall|i: int| 0 <= i < p implies (#[trigger] last[i]).0 < id by {
            assert(ids[i] < id);
        }
        assert forall|i: int| p <= i < last.len() implies id < (#[trigger] last[i]).0 by {
            assert(id < ids[i]);
        }
    }
}

/// A selection is put where it belongs in the list for the last block of the queue, if the hash
/// that was bid on is that of the head. If it is not, the bid is stale and nothing changes.
pub proof fn law_commit_selection<T: Trait>(
    id: ParaId,
    collator: CollatorId,
    pos: usize,
    hash: H256,
    actual: H256,
    r: TransactionValidity,
    last: Seq<Selection>,
)
    requires
        pos <= last.len(),
        forall|i: int| 0 <= i < pos ==> (#[trigger] last[i]).0 < id,
        forall|i: int| pos <= i < last.len() ==> id < (#[trigger] last[i]).0,
    ensures
        forall|m: &mut Module<T>| #[trigger]
            call_ensures(
                Module::<T>::commit_selection,
                (m, id, collator, pos, &hash, &actual),
                r,
            ) && last == (if m@.selected_threads.len() == 0 {
                Seq::empty()
            } else {
                m@.selected_threads.last()
            }) ==> if actual@ == hash@ {
                &&& r is Ok
                &&& r->Ok_0.provides@.len() == 1
                &&& r->Ok_0.provides@[0]@ == hash@
                &&& r->Ok_0.required@.len() == 0
                &&& r->Ok_0.priority == 0
                &&& r->Ok_0.longevity == u64::MAX
                &&& r->Ok_0.propagate
                &&& final(m)@ == (State {
                    selected_threads: if m@.selected_threads.len() == 0 {
                        seq![last.insert(pos as int, (id, collator))]
                    } else {
                        m@.selected_threads.update(
                            m@.selected_threads.len() - 1,
                            last.insert(pos as int, (id, collator)),
                        )
                    },
                    ..m@
                })
            } else {
                &&& r == Err::<ValidTransaction, _>(
                    TransactionValidityError::Invalid(InvalidTransaction::Stale),
                )
                &&& final(m)@ == m@
            },
{
    let ids = ids_of(last);
    assert(splits(ids, pos as int, id)) by {
        assert forall|i: int| 0 <= i < pos implies #[trigger] ids[i] < id by {
            assert(last[i].0 < id);
        }
        assert forall|i: int| pos <= i < ids.len() implies id < #[trigger] ids[i] by {
            assert(id < last[i].0);
        }
    }
    lemma_place(ids, pos as int, id);
    let put = last.insert(pos as int, (id, collator));
    assert(seq![Seq::<Selection>::empty()].update(0, put) =~= seq![put]);
    if let Ok(v) = r {
        let tags = v.provides@.map_values(|tag: Vec<u8>| tag@);
        if v.provides@.len() > 0 {
            assert(tags[0] == v.provides@[0]@);
        }
        assert(tags.len() == v.provides@.len());
    }
}

/// The schedule of a block is the one that the registrar has when the block begins; what missed a
/// block is queued as the registrar queues it when the block ends.
pub proof fn law_parts_of_a_block<T: Trait>(
    parachains: Vec<ParaId>,
    next_up: Vec<Selection>,
    next: Option<(Selection, u32)>,
    r: Vec<ActiveEntry>,
    proceeded: Vec<ParaId>,
    active: Vec<ActiveEntry>,
    i: int,
)
    ensures
        forall|
            m: &mut Module<T>,
            up: &mut Vec<Vec<Selection>>,
            again: &mut Vec<Vec<Selection>>,
        |
            #[trigger] call_ensures(Module::<T>::on_initialize, (m,), ())
                && #[trigger] call_ensures(take_next_up, (up, T::QUEUE_SIZE), next_up)
                && #[trigger] call_ensures(take_next_retry, (again,), next) && call_ensures(
                schedule,
                (&parachains, &next_up, next),
                r,
            ) && parachains@ == m@.parachains && (up@.len() == m@.selected_threads.len() && forall|
                i: int,
            |
                0 <= i < up@.len() ==> (#[trigger] up@[i])@ == m@.selected_threads[i]) && (
            again@.len() == m@.retry_queue.len() && forall|i: int|
                0 <= i < again@.len() ==> (#[trigger] again@[i])@ == m@.retry_queue[i]) ==> r@
                == final(m)@.active,
        forall|m: &mut Module<T>, qs: &mut Vec<Vec<Selection>>|
            #[trigger] call_ensures(Module::<T>::on_finalize, (m, Some(proceeded)), ())
                && #[trigger] call_ensures(
                retry_missed,
                (qs, &active, &proceeded, T::MAX_RETRIES),
                (),
            ) && active@ == m@.active && (qs@.len() == m@.retry_queue.len() && forall|j: int|
                0 <= j < qs@.len() ==> (#[trigger] qs@[j])@ == m@.retry_queue[j]) && 0 <= i
                < final(m)@.retry_queue.len() ==> {
                &&& final(qs)@.len() == final(m)@.retry_queue.len()
                &&& final(qs)@[i]@ == final(m)@.retry_queue[i]
            },
{
    assert forall|
        m: &mut Module<T>,
        up: &mut Vec<Vec<Selection>>,
        again: &mut Vec<Vec<Selection>>,
    |
        #[trigger] call_ensures(Module::<T>::on_initialize, (m,), ()) && #[trigger] call_ensures(
            take_next_up,
            (up, T::QUEUE_SIZE),
            next_up,
        ) && #[trigger] call_ensures(take_next_retry, (again,), next) && call_ensures(
            schedule,
            (&parachains, &next_up, next),
            r,
        ) && parachains@ == m@.parachains && (up@.len() == m@.selected_threads.len() && forall|
            i: int,
        |
            0 <= i < up@.len() ==> (#[trigger] up@[i])@ == m@.selected_threads[i]) && (again@.len()
            == m@.retry_queue.len() && forall|i: int|
            0 <= i < again@.len() ==> (#[trigger] again@[i])@ == m@.retry_queue[i]) implies r@
        == final(m)@.active by {
        assert(contents(up@) =~= m@.selected_threads);
        assert(contents(again@) =~= m@.retry_queue);
    }
    assert forall|m: &mut Module<T>, qs: &mut Vec<Vec<Selection>>|
        #[trigger] call_ensures(Module::<T>::on_finalize, (m, Some(proceeded)), ())
            && #[trigger] call_ensures(
            retry_missed,
            (qs, &active, &proceeded, T::MAX_RETRIES),
            (),
        ) && active@ == m@.active && (qs@.len() == m@.retry_queue.len() && forall|j: int|
            0 <= j < qs@.len() ==> (#[trigger] qs@[j])@ == m@.retry_queue[j]) && 0 <= i < final(
            m
        )@.retry_queue.len() implies ({
        &&& final(qs)@.len() == final(m)@.retry_queue.len()
        &&& final(qs)@[i]@ == final(m)@.retry_queue[i]
    }) by {
        assert(contents(qs@) =~= m@.retry_queue);
        assert(contents(final(qs)@).len() == final(qs)@.len());
        assert(contents(final(qs)@)[i] == final(qs)@[i]@);
    }
}

/// In an ascending list an identifier is found where it stands; where it does not, the place is
/// found behind all that are smaller, and before all that are larger.
pub proof fn law_search(
    ids: Vec<ParaId>,
    list: Vec<Selection>,
    id: ParaId,
    r: Result<usize, usize>,
)
    ensures
        (forall|i: int, j: int| 0 <= i < j < ids@.len() ==> #[trigger] ids@[i] < #[trigger] ids@[j])
            && call_ensures(search_id, (&ids, id), r) ==> match r {
            Ok(k) => k < ids@.len() && ids@[k as int] == id,
            Err(k) => {
                &&& k <= ids@.len()
                &&& forall|i: int| 0 <= i < k ==> #[trigger] ids@[i] < id
                &&& forall|i: int| k <= i < ids@.len() ==> id < #[trigger] ids@[i]
            },
        },
        (forall|i: int, j: int|
            0 <= i < j < list@.len() ==> (#[trigger] list@[i]).0 < (#[trigger] list@[j]).0)
            && call_ensures(search_selection, (&list, id), r) ==> match r {
            Ok(k) => k < list@.len() && list@[k as int].0 == id,
            Err(k) => {
                &&& k <= list@.len()
                &&& forall|i: int| 0 <= i < k ==> (#[trigger] list@[i]).0 < id
                &&& forall|i: int| k <= i < list@.len() ==> id < (#[trigger] list@[i]).0
            },
        },
{
    if (forall|i: int, j: int| 0 <= i < j < ids@.len() ==> #[trigger] ids@[i] < #[trigger] ids@[j])
        && call_ensures(search_id, (&ids, id), r) && r is Err {
        lemma_has_place(ids@, id);
    }
    let all = ids_of(list@);
    if (forall|i: int, j: int|
        0 <= i < j < list@.len() ==> (#[trigger] list@[i]).0 < (#[trigger] list@[j]).0)
        && call_ensures(search_selection, (&list, id), r) && r is Err {
        assert forall|i: int, j: int| 0 <= i < j < all.len() implies #[trigger] all[i]
            < #[trigger] all[j] by {
            assert(list@[i].0 < list@[j].0);
        }
        lemma_has_place(all, id);
        let k = r->Err_0;
        assert forall|i: int| 0 <= i < k implies (#[trigger] list@[i]).0 < id by {
            assert(all[i] < id);
        }
        assert forall|i: int| k <= i < list@.len() implies id < (#[trigger] list@[i]).0 by {
            assert(id < all[i]);
        }
    }
}

/// In an ascending list two identifiers that swap their existence change places: the one is there
/// where the other was. Whether any other is there stays as it was, and the list stays ascending.
pub proof fn law_swap_ids(one: ParaId, other: ParaId)
    ensures
        forall|ids: &mut Vec<ParaId>| #[trigger]
            call_ensures(swap_ids, (ids, one, other), ()) && (forall|i: int, j: int|
                0 <= i < j < ids@.len() ==> #[trigger] ids@[i] < #[trigger] ids@[j]) ==> {
                let s = ids@;
                let t = final(ids)@;
                &&& forall|i: int, j: int|
                    0 <= i < j < t.len() ==> #[trigger] t[i] < #[trigger] t[j]
                &&& t.contains(one) <==> s.contains(other)
                &&& t.contains(other) <==> s.contains(one)
                &&& forall|x: ParaId|
                    x != one && x != other ==> (#[trigger] t.contains(x) <==> s.contains(x))
            },
        forall|ids: &mut [ParaId]| #[trigger]
            call_ensures(swap_ordered_existence::<ParaId>, (ids, one, other), ()) && (forall|
                i: int,
                j: int,
            |
                0 <= i < j < ids@.len() ==> #[trigger] ids@[i] < #[trigger] ids@[j]) ==> {
                let s = ids@;
                let t = final(ids)@;
                &&& forall|i: int, j: int|
                    0 <= i < j < t.len() ==> #[trigger] t[i] < #[trigger] t[j]
                &&& t.contains(one) <==> s.contains(other)
                &&& t.contains(other) <==> s.contains(one)
                &&& forall|x: ParaId|
                    x != one && x != other ==> (#[trigger] t.contains(x) <==> s.contains(x))
            },
{
    lemma_id_order();
    assert forall|s: Seq<ParaId>| ascending(s) implies ({
        let t = #[trigger] swapped_ids(s, one, other);
        &&& ascending(t)
        &&& t.contains(one) <==> s.contains(other)
        &&& t.contains(other) <==> s.contains(one)
        &&& forall|x: ParaId|
            x != one && x != other ==> (#[trigger] t.contains(x) <==> s.contains(x))
    }) by {
        lemma_swapped_ids(s, one, other);
    }
    assert forall|s: Seq<ParaId>, t: Seq<ParaId>|
        ascending(s) && #[trigger] existence_swapped(s, t, one, other) implies t == swapped_ids(
        s,
        one,
        other,
    ) by {
        lemma_existence_swapped(s, t, one, other);
    }
    assert forall|ids: &mut [ParaId]| #[trigger]
        call_ensures(swap_ordered_existence::<ParaId>, (ids, one, other), ()) && ascending(
            ids@,
        ) implies final(ids)@ == swapped_ids(ids@, one, other) by {
        assert(ordered(ids@));
    }
}

/// The invariant of the registrar: the parachains are listed in ascending order, and are just
/// those registered as such; for no block is a parathread selected twice, and those selected stand
/// in ascending order; the active paras are in order, and none was retried more often than may be;
/// there are no more retry queues than retries; identifiers handed out are those of users.
pub proof fn law_invariant<T: Trait>(m: Module<T>)
    ensures
        m.wf() <==> {
            let s = m@;
            &&& forall|i: int, j: int|
                0 <= i < j < s.parachains.len() ==> #[trigger] s.parachains[i]
                    < #[trigger] s.parachains[j]
            &&& forall|x: ParaId| #[trigger]
                s.parachains.contains(x) <==> s.paras.contains_key(x) && s.paras[x].scheduling
                    == Scheduling::Always
            &&& forall|k: int, i: int, j: int|
                0 <= k < s.selected_threads.len() && 0 <= i < j < s.selected_threads[k].len() ==> (
                #[trigger] s.selected_threads[k][i]).0 < (#[trigger] s.selected_threads[k][j]).0
            &&& forall|i: int, j: int|
                0 <= i < j < s.active.len() ==> (#[trigger] s.active[i]).0 <= (
                #[trigger] s.active[j]).0
            &&& forall|i: int|
                0 <= i < s.active.len() ==> match (#[trigger] s.active[i]).1 {
                    Some((_, Retriable::WithRetries(n))) => n <= T::MAX_RETRIES,
                    _ => true,
                }
            &&& s.retry_queue.len() <= T::MAX_RETRIES
            &&& s.next_free_id >= 1000
        },
{
    let s = m@;
    if m.wf() {
        assert forall|k: int, i: int, j: int|
            0 <= k < s.selected_threads.len() && 0 <= i < j < s.selected_threads[k].len() implies (
        #[trigger] s.selected_threads[k][i]).0 < (#[trigger] s.selected_threads[k][j]).0 by {
            let ids = ids_of(s.selected_threads[k]);
            assert(ascending(ids));
            assert(ids[i] < ids[j]);
        }
        assert forall|x: ParaId| #[trigger] s.parachains.contains(x) implies s.paras.contains_key(x)
            && s.paras[x].scheduling == Scheduling::Always by {
            assert(s.is_chain(x));
        }
    }
    if forall|k: int, i: int, j: int|
        0 <= k < s.selected_threads.len() && 0 <= i < j < s.selected_threads[k].len() ==> (
        #[trigger] s.selected_threads[k][i]).0 < (#[trigger] s.selected_threads[k][j]).0 {
        assert forall|k: int| 0 <= k < s.selected_threads.len() implies ascending(
            ids_of(#[trigger] s.selected_threads[k]),
        ) by {
            let q = s.selected_threads[k];
            assert forall|i: int, j: int| 0 <= i < j < q.len() implies #[trigger] ids_of(q)[i]
                < #[trigger] ids_of(q)[j] by {
                assert(s.selected_threads[k][i].0 < s.selected_threads[k][j].0);
            }
        }
    }
}

/// Two hashes are the same just where all their bytes are.
pub proof fn law_same_hash(a: H256, b: H256, r: bool)
    requires
        call_ensures(same_hash, (&a, &b), r),
    ensures
        r <==> forall|i: int| 0 <= i < 32 ==> #[trigger] a@[i] == b@[i],
{
    if forall|i: int| 0 <= i < 32 ==> #[trigger] a@[i] == b@[i] {
        assert(a@ =~= b@);
    }
}

/// Of a transaction nothing is known but that it passes: it provides and requires nothing, has no
/// priority, holds for ever, and is passed on.
pub proof fn law_plain_transaction(r: ValidTransaction)
    requires
        call_ensures(ValidTransaction::default, (), r),
    ensures
        r.provides@.len() == 0,
        r.required@.len() == 0,
        r.priority == 0,
        r.longevity == u64::MAX,
        r.propagate,
{
    assert(r.provides@.map_values(|tag: Vec<u8>| tag@).len() == r.provides@.len());
}

/// How the rule for bids is shown, and that nothing is signed beside the transaction.
pub proof fn law_rule<T: Trait>(
    rule: LimitParathreadCommits<T>,
    shown: String,
    r: Result<(), TransactionValidityError>,
)
    ensures
        call_ensures(LimitParathreadCommits::<T>::fmt, (&rule,), shown) ==> shown@
            == "LimitParathreadCommits<T>"@,
        call_ensures(LimitParathreadCommits::<T>::additional_signed, (&rule,), r) ==> r is Ok,
{
}

} // verus!
