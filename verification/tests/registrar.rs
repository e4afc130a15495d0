use registrar::commits::{Call, LimitParathreadCommits};
use registrar::config::{ReservableCurrency, SwapAux, Trait};
use registrar::hashing::{BlakeTwo256, Hashing};
use registrar::module::{
    GenesisConfig, Module, Registrar, NOT_PARACHAIN, NOT_ROOT, NOT_SIGNED,
};
use registrar::types::{
    CollatorId, DispatchClass, DispatchInfo, DispatchResult, Event, Origin, ParaId, ParaInfo,
    Retriable, Scheduling, H256, LOWEST_USER_ID,
};
use registrar::validity::{
    Error, InvalidTransaction, TransactionValidity, TransactionValidityError,
};
use std::marker::PhantomData;

const DEPOSIT: u128 = 10;
const QUEUE_SIZE: usize = 2;
const MAX_RETRIES: u32 = 3;
const INITIAL: u128 = 10_000_000;

/// What a currency was asked for.
#[derive(Clone, PartialEq, Debug)]
enum Asked {
    Reserve(u64, u128),
    Unreserve(u64, u128),
}

struct Balances {
    /// What was moved from the free to the reserved balance of an account.
    reserved: Vec<(u64, u128)>,
    asked: Vec<Asked>,
}

impl Balances {
    fn reserved_balance(&self, who: u64) -> u128 {
        self.reserved.iter().filter(|e| e.0 == who).map(|e| e.1).sum()
    }

    fn free_balance(&self, who: u64) -> u128 {
        INITIAL - self.reserved_balance(who)
    }
}

impl ReservableCurrency<u64> for Balances {
    type Balance = u128;

    fn reserve(&mut self, who: &u64, value: u128) -> Result<(), &'static str> {
        self.asked.push(Asked::Reserve(*who, value));
        if *who >= 8 {
            return Err("not enough free funds");
        }
        self.reserved.push((*who, value));
        Ok(())
    }

    fn unreserve(&mut self, who: &u64, value: u128) -> u128 {
        self.asked.push(Asked::Unreserve(*who, value));
        match self.reserved.iter().position(|e| e.0 == *who && e.1 == value) {
            Some(i) => {
                self.reserved.remove(i);
                0
            }
            None => value,
        }
    }
}

/// A parachain slot that was leased.
#[derive(Clone, PartialEq, Debug)]
struct Lease {
    id: ParaId,
    who: u64,
    deposit: u128,
    until: u64,
}

/// What a swap handler was asked.
#[derive(Clone, PartialEq, Debug)]
enum Swap {
    Ensure(ParaId, ParaId),
    On(ParaId, ParaId),
}

struct Slots {
    leases: Vec<Lease>,
    calls: Vec<Swap>,
}

impl SwapAux for Slots {
    fn ensure_can_swap(&mut self, one: ParaId, other: ParaId) -> Result<(), &'static str> {
        self.calls.push(Swap::Ensure(one, other));
        if one == 13 || other == 13 {
            Err("cannot swap")
        } else {
            Ok(())
        }
    }

    fn on_swap(&mut self, one: ParaId, other: ParaId) -> Result<(), &'static str> {
        self.calls.push(Swap::On(one, other));
        for lease in self.leases.iter_mut() {
            if lease.id == one {
                lease.id = other;
            } else if lease.id == other {
                lease.id = one;
            }
        }
        Ok(())
    }
}

struct Test;

impl Trait for Test {
    type AccountId = u64;
    type Hashing = BlakeTwo256;
    type Currency = Balances;
    type SwapAux = Slots;
    const PARATHREAD_DEPOSIT: u128 = DEPOSIT;
    const QUEUE_SIZE: usize = QUEUE_SIZE;
    const MAX_RETRIES: u32 = MAX_RETRIES;
}

struct Ext {
    registrar: Module<Test>,
    balances: Balances,
    slots: Slots,
    block: u64,
    did_update: Option<Vec<ParaId>>,
}

fn new_test_ext(parachains: Vec<(ParaId, Vec<u8>, Vec<u8>)>) -> Ext {
    Ext {
        registrar: Module::build(&GenesisConfig { parachains }),
        balances: Balances { reserved: vec![], asked: vec![] },
        slots: Slots { leases: vec![], calls: vec![] },
        block: 1,
        did_update: None,
    }
}

/// What can be read of one para.
#[derive(PartialEq, Debug)]
struct ParaState {
    info: Option<ParaInfo>,
    pending_swap: Option<ParaId>,
    debtor: Option<u64>,
    code: Option<Vec<u8>>,
    head: Option<Vec<u8>>,
    watermark: Option<u64>,
}

/// What can be read of a registrar, its currency and its swap handler.
#[derive(PartialEq, Debug)]
struct Snapshot {
    parachains: Vec<ParaId>,
    thread_count: u32,
    selected_threads: Vec<Vec<(ParaId, CollatorId)>>,
    active: Vec<(ParaId, Option<(CollatorId, Retriable)>)>,
    next_free_id: ParaId,
    retry_queue: Vec<Vec<(ParaId, CollatorId)>>,
    events: Vec<Event>,
    paras: Vec<ParaState>,
    reserved: Vec<(u64, u128)>,
    asked: Vec<Asked>,
    leases: Vec<Lease>,
    swap_calls: Vec<Swap>,
}

impl Ext {
    fn run_to_block(&mut self, n: u64) {
        while self.block < n {
            if self.block > 1 {
                let did_update = self.did_update.take().unwrap_or(vec![]);
                self.registrar.on_finalize(Some(did_update));
            }
            self.block += 1;
            self.registrar.on_initialize();
            self.end_leases();
        }
    }

    /// Gives the deposits of the leases back that end with the block before.
    fn end_leases(&mut self) {
        let block = self.block;
        for lease in self.slots.leases.iter().filter(|l| l.until <= block) {
            assert_eq!(self.balances.unreserve(&lease.who, lease.deposit), 0);
        }
        self.slots.leases.retain(|l| l.until > block);
    }

    /// Leases a slot for a new parachain.
    fn lease(&mut self, who: u64, deposit: u128, until: u64) -> ParaId {
        let id = self.registrar.new_id();
        assert_eq!(self.balances.reserve(&who, deposit), Ok(()));
        self.slots.leases.push(Lease { id, who, deposit, until });
        id
    }

    fn set_heads(&mut self, ids: Vec<ParaId>) {
        self.did_update = Some(ids);
    }

    fn validate(&mut self, id: ParaId, col: &CollatorId, hash: H256) -> TransactionValidity {
        let call = Call::select_parathread(id, *col, hash);
        limit().validate(&mut self.registrar, &0, Some(&call), 0)
    }

    fn dispatch(&mut self, call: Call, origin: Origin<u64>) -> DispatchResult {
        call.dispatch(&mut self.registrar, &mut self.balances, &mut self.slots, origin)
    }

    fn schedule_thread(&mut self, id: ParaId, head_data: &[u8], col: &CollatorId) {
        let hdh = hash(head_data);
        assert!(self.validate(id, col, hdh).is_ok());
        let call = Call::select_parathread(id, *col, hdh);
        assert_eq!(self.dispatch(call, Origin::Signed(4)), Ok(()));
    }

    fn register_parathread(&mut self, who: u64, code: Vec<u8>, head: Vec<u8>) -> DispatchResult {
        self.registrar.register_parathread(&mut self.balances, Origin::Signed(who), code, head)
    }

    fn swap(&mut self, id: ParaId, other: ParaId) -> DispatchResult {
        self.registrar.swap(&mut self.slots, Origin::Parachain(id), other)
    }

    fn deregister_parathread(&mut self, id: ParaId) -> DispatchResult {
        self.registrar.deregister_parathread(&mut self.balances, Origin::Parachain(id))
    }

    fn code(&self, id: ParaId) -> Option<Vec<u8>> {
        self.registrar.chains().parachain_code(id).cloned()
    }

    fn head(&self, id: ParaId) -> Option<Vec<u8>> {
        self.registrar.chains().parachain_head(id).cloned()
    }

    fn snapshot(&self) -> Snapshot {
        let m = &self.registrar;
        let ids = (0..120).chain(990..1020);
        Snapshot {
            parachains: m.parachains().clone(),
            thread_count: m.thread_count(),
            selected_threads: m.selected_threads().clone(),
            active: m.active_paras(),
            next_free_id: m.next_free_id(),
            retry_queue: m.retry_queue().clone(),
            events: m.events().clone(),
            paras: ids
                .map(|id| ParaState {
                    info: m.paras(id),
                    pending_swap: m.pending_swap(id),
                    debtor: m.debtor(id).copied(),
                    code: self.code(id),
                    head: self.head(id),
                    watermark: m.chains().watermark(id),
                })
                .collect(),
            reserved: self.balances.reserved.clone(),
            asked: self.balances.asked.clone(),
            leases: self.slots.leases.clone(),
            swap_calls: self.slots.calls.clone(),
        }
    }
}

fn limit() -> LimitParathreadCommits<Test> {
    LimitParathreadCommits(PhantomData)
}

fn hash(data: &[u8]) -> H256 {
    <sp_runtime::traits::BlakeTwo256 as sp_runtime::traits::Hash>::hash(data).into()
}

fn user_id(i: u32) -> ParaId {
    LOWEST_USER_ID + i
}

fn one() -> CollatorId {
    CollatorId([1; 32])
}

const ALWAYS: Option<ParaInfo> = Some(ParaInfo { scheduling: Scheduling::Always });
const DYNAMIC: Option<ParaInfo> = Some(ParaInfo { scheduling: Scheduling::Dynamic });

fn with_retries(n: u32) -> Option<(CollatorId, Retriable)> {
    Some((one(), Retriable::WithRetries(n)))
}

fn invalid(e: InvalidTransaction) -> TransactionValidity {
    Err(TransactionValidityError::Invalid(e))
}

#[test]
fn basic_setup_works() {
    let ext = new_test_ext(vec![]);
    assert_eq!(ext.registrar.parachains(), &Vec::<ParaId>::new());
    assert_eq!(ext.registrar.thread_count(), 0);
    assert_eq!(ext.registrar.active_paras(), vec![]);
    assert_eq!(ext.registrar.next_free_id(), LOWEST_USER_ID);
    assert_eq!(ext.registrar.pending_swap(0), None);
    assert_eq!(ext.registrar.paras(0), None);
}

#[test]
fn genesis_registration_works() {
    let parachains = vec![
        (5u32, vec![1, 2, 3], vec![1]),
        (100u32, vec![4, 5, 6], vec![2]),
    ];
    let mut ext = new_test_ext(parachains);
    // Need to trigger on_initialize
    ext.run_to_block(2);
    // Genesis registration works
    assert_eq!(ext.registrar.active_paras(), vec![(5u32, None), (100u32, None)]);
    assert_eq!(ext.registrar.paras(5u32), ALWAYS);
    assert_eq!(ext.registrar.paras(100u32), ALWAYS);
    assert_eq!(ext.code(5u32), Some(vec![1, 2, 3]));
    assert_eq!(ext.code(100u32), Some(vec![4, 5, 6]));
}

#[test]
fn swap_chain_and_thread_works() {
    let mut ext = new_test_ext(vec![]);
    assert_eq!(ext.registrar.set_thread_count(Origin::Root, 1), Ok(()));

    // Need to trigger on_initialize
    ext.run_to_block(2);

    // Register a new parathread
    assert_eq!(ext.register_parathread(1, vec![1; 3], vec![1; 3]), Ok(()));

    // Lease out a new parachain
    assert_eq!(ext.registrar.new_id(), user_id(1));

    ext.run_to_block(9);
    // Ensure that the thread is scheduled around the swap time.
    let col = one();
    ext.schedule_thread(user_id(0), &[1; 3], &col);

    ext.run_to_block(10);
    assert_eq!(
        Registrar::register_para(
            &mut ext.registrar,
            user_id(1),
            ParaInfo { scheduling: Scheduling::Always },
            vec![2; 3],
            vec![2; 3],
        ),
        Ok(())
    );

    ext.run_to_block(11);
    // should be one active parachain and one active parathread.
    assert_eq!(
        ext.registrar.active_paras(),
        vec![(user_id(0), with_retries(0)), (user_id(1), None)]
    );

    // One half of the swap call does not actually trigger the swap.
    assert_eq!(ext.swap(user_id(0), user_id(1)), Ok(()));

    // Nothing changes from what was originally registered
    assert_eq!(ext.registrar.paras(user_id(0)), DYNAMIC);
    assert_eq!(ext.registrar.paras(user_id(1)), ALWAYS);
    assert_eq!(ext.registrar.parachains(), &vec![user_id(1)]);
    assert_eq!(ext.slots.calls, vec![]);
    assert_eq!(ext.code(user_id(0)), Some(vec![1u8; 3]));
    assert_eq!(ext.head(user_id(0)), Some(vec![1u8; 3]));
    assert_eq!(ext.code(user_id(1)), Some(vec![2u8; 3]));
    assert_eq!(ext.head(user_id(1)), Some(vec![2u8; 3]));
    // Intention to swap is added
    assert_eq!(ext.registrar.pending_swap(user_id(0)), Some(user_id(1)));

    // Intention to swap is reciprocated, swap actually happens
    assert_eq!(ext.swap(user_id(1), user_id(0)), Ok(()));

    assert_eq!(ext.registrar.paras(user_id(0)), ALWAYS);
    assert_eq!(ext.registrar.paras(user_id(1)), DYNAMIC);
    assert_eq!(ext.registrar.parachains(), &vec![user_id(0)]);
    assert_eq!(
        ext.slots.calls,
        vec![Swap::Ensure(user_id(1), user_id(0)), Swap::On(user_id(1), user_id(0))]
    );
    assert_eq!(ext.code(user_id(0)), Some(vec![1u8; 3]));
    assert_eq!(ext.head(user_id(0)), Some(vec![1u8; 3]));
    assert_eq!(ext.code(user_id(1)), Some(vec![2u8; 3]));
    assert_eq!(ext.head(user_id(1)), Some(vec![2u8; 3]));

    // Intention to swap is no longer present
    assert_eq!(ext.registrar.pending_swap(user_id(0)), None);
    assert_eq!(ext.registrar.pending_swap(user_id(1)), None);

    ext.run_to_block(12);
    // thread should not be queued or scheduled any more, even though it would otherwise be
    // being retried..
    assert_eq!(ext.registrar.active_paras(), vec![(user_id(0), None)]);
}

#[test]
fn swap_handles_funds_correctly() {
    let mut ext = new_test_ext(vec![]);
    assert_eq!(ext.registrar.set_thread_count(Origin::Root, 1), Ok(()));

    // Need to trigger on_initialize
    ext.run_to_block(2);

    let initial_1_balance = ext.balances.free_balance(1);
    let initial_2_balance = ext.balances.free_balance(2);

    // User 1 register a new parathread
    assert_eq!(ext.register_parathread(1, vec![1; 3], vec![1; 3]), Ok(()));

    // User 2 leases out a new parachain
    assert_eq!(ext.lease(2, 1, 50), user_id(1));

    ext.run_to_block(9);
    assert_eq!(ext.balances.free_balance(1), initial_1_balance - DEPOSIT);
    assert_eq!(ext.balances.free_balance(2), initial_2_balance - 1);

    // Swap the parachain and parathread
    assert_eq!(ext.swap(user_id(0), user_id(1)), Ok(()));
    assert_eq!(ext.slots.leases[0].id, user_id(1));
    assert_eq!(ext.swap(user_id(1), user_id(0)), Ok(()));
    assert_eq!(ext.slots.leases[0].id, user_id(0));

    // Deregister the parathread that was originally a parachain
    assert_eq!(ext.deregister_parathread(user_id(1)), Ok(()));
    assert_eq!(ext.balances.free_balance(1), initial_1_balance);
    assert_eq!(ext.balances.free_balance(2), initial_2_balance - 1);

    // Go past when a parachain loses its slot
    ext.run_to_block(50);

    // Funds are correctly returned
    assert_eq!(ext.balances.free_balance(1), initial_1_balance);
    assert_eq!(ext.balances.free_balance(2), initial_2_balance);
}

#[test]
fn register_deregister_chains_works() {
    let mut ext = new_test_ext(vec![(1u32, vec![1; 3], vec![1; 3])]);
    // Need to trigger on_initialize
    ext.run_to_block(2);

    // Genesis registration works
    assert_eq!(ext.registrar.active_paras(), vec![(1u32, None)]);
    assert_eq!(ext.registrar.paras(1u32), ALWAYS);
    assert_eq!(ext.code(1u32), Some(vec![1; 3]));

    // Register a new parachain
    assert_eq!(
        ext.registrar.register_para(
            Origin::Root,
            2u32,
            ParaInfo { scheduling: Scheduling::Always },
            vec![2; 3],
            vec![2; 3],
        ),
        Ok(())
    );

    let orig_bal = ext.balances.free_balance(3);
    // Register a new parathread
    assert_eq!(ext.register_parathread(3, vec![3; 3], vec![3; 3]), Ok(()));
    // deposit should be taken (reserved)
    assert_eq!(ext.balances.free_balance(3) + DEPOSIT, orig_bal);
    assert_eq!(ext.balances.reserved_balance(3), DEPOSIT);

    ext.run_to_block(3);

    // New paras are registered
    assert_eq!(ext.registrar.active_paras(), vec![(1u32, None), (2u32, None)]);
    assert_eq!(ext.registrar.paras(2u32), ALWAYS);
    assert_eq!(ext.registrar.paras(user_id(0)), DYNAMIC);
    assert_eq!(ext.code(2u32), Some(vec![2; 3]));
    assert_eq!(ext.code(user_id(0)), Some(vec![3; 3]));

    assert_eq!(ext.registrar.deregister_para(Origin::Root, 2u32), Ok(()));
    assert_eq!(ext.deregister_parathread(user_id(0)), Ok(()));
    // reserved balance should be returned.
    assert_eq!(ext.balances.free_balance(3), orig_bal);
    assert_eq!(ext.balances.reserved_balance(3), 0);

    ext.run_to_block(4);

    assert_eq!(ext.registrar.active_paras(), vec![(1u32, None)]);
    assert_eq!(ext.registrar.paras(2u32), None);
    assert_eq!(ext.code(2u32), None);
    assert_eq!(ext.registrar.paras(user_id(0)), None);
    assert_eq!(ext.code(user_id(0)), None);
}

#[test]
fn parathread_scheduling_works() {
    let mut ext = new_test_ext(vec![]);
    assert_eq!(ext.registrar.set_thread_count(Origin::Root, 1), Ok(()));

    ext.run_to_block(2);

    // Register a new parathread
    assert_eq!(ext.register_parathread(3, vec![3; 3], vec![3; 3]), Ok(()));

    ext.run_to_block(3);

    // transaction submitted to get parathread progressed.
    let col = one();
    ext.schedule_thread(user_id(0), &[3; 3], &col);

    ext.run_to_block(5);
    assert_eq!(ext.registrar.active_paras(), vec![(user_id(0), with_retries(0))]);
    ext.set_heads(vec![user_id(0)]);

    ext.run_to_block(6);
    // at next block, it shouldn't be retried.
    assert_eq!(ext.registrar.active_paras(), vec![]);
}

#[test]
fn removing_scheduled_parathread_works() {
    let mut ext = new_test_ext(vec![]);
    assert_eq!(ext.registrar.set_thread_count(Origin::Root, 1), Ok(()));

    ext.run_to_block(2);

    // Register some parathreads.
    assert_eq!(ext.register_parathread(3, vec![3; 3], vec![3; 3]), Ok(()));

    ext.run_to_block(3);
    // transaction submitted to get parathread progressed.
    let col = one();
    ext.schedule_thread(user_id(0), &[3; 3], &col);

    // now we remove the parathread
    assert_eq!(ext.deregister_parathread(user_id(0)), Ok(()));

    ext.run_to_block(5);
    assert_eq!(ext.registrar.active_paras(), vec![]); // should not be scheduled.

    assert_eq!(ext.register_parathread(3, vec![4; 3], vec![4; 3]), Ok(()));

    ext.run_to_block(6);
    // transaction submitted to get parathread progressed.
    ext.schedule_thread(user_id(1), &[4; 3], &col);

    ext.run_to_block(9);
    // thread's slot was missed and is now being re-scheduled.

    assert_eq!(ext.deregister_parathread(user_id(1)), Ok(()));

    ext.run_to_block(10);
    // thread's rescheduled slot was missed, but should not be reschedule since it was
    // removed.
    assert_eq!(ext.registrar.active_paras(), vec![]); // should not be scheduled.
}

#[test]
fn parathread_rescheduling_works() {
    let mut ext = new_test_ext(vec![]);
    assert_eq!(ext.registrar.set_thread_count(Origin::Root, 1), Ok(()));

    ext.run_to_block(2);

    // Register some parathreads.
    assert_eq!(ext.register_parathread(3, vec![3; 3], vec![3; 3]), Ok(()));
    assert_eq!(ext.register_parathread(4, vec![4; 3], vec![4; 3]), Ok(()));
    assert_eq!(ext.register_parathread(5, vec![5; 3], vec![5; 3]), Ok(()));

    ext.run_to_block(3);

    // transaction submitted to get parathread progressed.
    let col = one();
    ext.schedule_thread(user_id(0), &[3; 3], &col);

    // 4x: the initial time it was scheduled, plus 3 retries.
    for n in 5..9 {
        ext.run_to_block(n);
        assert_eq!(
            ext.registrar.active_paras(),
            vec![(user_id(0), with_retries((n - 5) as u32))]
        );
    }

    // missed too many times. dropped.
    ext.run_to_block(9);
    assert_eq!(ext.registrar.active_paras(), vec![]);

    // schedule and miss all 3 and check that they go through the queueing system ok.
    assert_eq!(ext.registrar.set_thread_count(Origin::Root, 2), Ok(()));
    ext.schedule_thread(user_id(0), &[3; 3], &col);
    ext.schedule_thread(user_id(1), &[4; 3], &col);

    ext.run_to_block(10);
    ext.schedule_thread(user_id(2), &[5; 3], &col);

    // 0 and 1 scheduled as normal.
    ext.run_to_block(11);
    assert_eq!(
        ext.registrar.active_paras(),
        vec![(user_id(0), with_retries(0)), (user_id(1), with_retries(0))]
    );

    // 2 scheduled, 0 retried
    ext.run_to_block(12);
    assert_eq!(
        ext.registrar.active_paras(),
        vec![(user_id(0), with_retries(1)), (user_id(2), with_retries(0))]
    );

    // 1 retried
    ext.run_to_block(13);
    assert_eq!(ext.registrar.active_paras(), vec![(user_id(1), with_retries(1))]);

    // 2 retried
    ext.run_to_block(14);
    assert_eq!(ext.registrar.active_paras(), vec![(user_id(2), with_retries(1))]);

    ext.run_to_block(15);
    assert_eq!(ext.registrar.active_paras(), vec![(user_id(0), with_retries(2))]);

    ext.run_to_block(16);
    assert_eq!(ext.registrar.active_paras(), vec![(user_id(1), with_retries(2))]);

    ext.run_to_block(17);
    assert_eq!(ext.registrar.active_paras(), vec![(user_id(2), with_retries(2))]);
}

#[test]
fn parathread_auction_handles_basic_errors() {
    let mut ext = new_test_ext(vec![]);
    ext.run_to_block(2);
    assert_eq!(ext.register_parathread(0, vec![7, 8, 9], vec![1, 1, 1]), Ok(()));

    ext.run_to_block(3);
    assert_eq!(ext.registrar.paras(user_id(0)), DYNAMIC);

    let good_para_id = user_id(0);
    let bad_para_id = user_id(1);
    let bad_head_hash = hash(&vec![1, 2, 1]);
    let good_head_hash = hash(&vec![1, 1, 1]);

    // Allow for threads
    assert_eq!(ext.registrar.set_thread_count(Origin::Root, 10), Ok(()));

    // Bad parathread id
    let col = CollatorId::default();
    assert!(ext.validate(bad_para_id, &col, good_head_hash).is_err());

    // Bad head data
    assert!(ext.validate(good_para_id, &col, bad_head_hash).is_err());

    // No duplicates
    assert!(ext.validate(good_para_id, &col, good_head_hash).is_ok());
    assert!(ext.validate(good_para_id, &col, good_head_hash).is_err());
}

#[test]
fn parathread_auction_works() {
    let mut ext = new_test_ext(vec![]);
    ext.run_to_block(2);
    // Register 5 parathreads
    for x in 0..5u8 {
        assert_eq!(ext.register_parathread(x as u64, vec![x; 3], vec![x; 3]), Ok(()));
    }

    ext.run_to_block(3);

    for x in 0..5 {
        assert_eq!(ext.registrar.paras(user_id(x)), DYNAMIC);
    }

    // Only 3 slots available... who will win??
    assert_eq!(ext.registrar.set_thread_count(Origin::Root, 3), Ok(()));

    // Everyone wants a thread
    for x in 0..5u8 {
        let para_id = user_id(x as u32);
        let collator_id = CollatorId::default();
        let head_hash = hash(&vec![x; 3]);

        // First 3 transactions win a slot
        if x < 3 {
            assert!(ext.validate(para_id, &collator_id, head_hash).is_ok());
        } else {
            // All others lose
            let before = ext.snapshot();
            assert_eq!(
                ext.validate(para_id, &collator_id, head_hash),
                invalid(InvalidTransaction::ExhaustsResources)
            );
            assert_eq!(ext.snapshot(), before);
        }
    }

    // 3 Threads are selected
    assert_eq!(
        ext.registrar.selected_threads()[1],
        vec![
            (user_id(0), CollatorId::default()),
            (user_id(1), CollatorId::default()),
            (user_id(2), CollatorId::default()),
        ]
    );

    // Assuming Queue Size is 2
    assert_eq!(<Test as Trait>::QUEUE_SIZE, 2);

    // 2 blocks later
    ext.run_to_block(5);
    // Threads left queue
    assert_eq!(ext.registrar.selected_threads()[0], vec![]);
    // Threads are active
    assert_eq!(
        ext.registrar.active_paras(),
        vec![
            (user_id(0), Some((CollatorId::default(), Retriable::WithRetries(0)))),
            (user_id(1), Some((CollatorId::default(), Retriable::WithRetries(0)))),
            (user_id(2), Some((CollatorId::default(), Retriable::WithRetries(0)))),
        ]
    );
}

#[test]
fn bids_are_refused_for_the_right_reason() {
    let mut ext = new_test_ext(vec![(7, vec![1], vec![2])]);
    ext.run_to_block(2);
    assert_eq!(ext.register_parathread(0, vec![7], vec![8]), Ok(()));
    let col = one();
    let good = hash(&[8]);
    // a parachain is no parathread, and neither is what is not registered.
    assert_eq!(ext.validate(7, &col, good), invalid(InvalidTransaction::Custom(1)));
    assert_eq!(ext.validate(8, &col, good), invalid(InvalidTransaction::Custom(1)));
    // no threads per block yet.
    assert_eq!(
        ext.validate(user_id(0), &col, good),
        invalid(InvalidTransaction::ExhaustsResources)
    );
    assert_eq!(ext.registrar.set_thread_count(Origin::Root, 2), Ok(()));
    assert_eq!(
        ext.validate(user_id(0), &col, hash(&[9])),
        invalid(InvalidTransaction::Stale)
    );
    let r = ext.validate(user_id(0), &col, good).unwrap();
    assert_eq!(r.priority, 0);
    assert_eq!(r.required, Vec::<Vec<u8>>::new());
    assert_eq!(r.provides, vec![good.to_vec()]);
    assert_eq!(r.longevity, u64::MAX);
    assert!(r.propagate);
    assert_eq!(
        ext.validate(user_id(0), &CollatorId([9; 32]), good),
        invalid(InvalidTransaction::Custom(0))
    );
    assert_eq!(Error::Duplicate.code(), 0);
    assert_eq!(Error::InvalidId.code(), 1);
}

#[test]
fn a_thread_without_a_head_cannot_be_bid_for() {
    let mut ext = new_test_ext(vec![]);
    assert_eq!(ext.registrar.set_thread_count(Origin::Root, 2), Ok(()));
    assert_eq!(ext.register_parathread(1, vec![1], vec![1]), Ok(()));
    // an identifier that is not registered takes over the registration, not the head.
    assert_eq!(ext.swap(user_id(0), 50), Ok(()));
    assert_eq!(ext.swap(50, user_id(0)), Ok(()));
    assert_eq!(ext.registrar.paras(50), DYNAMIC);
    assert_eq!(
        ext.validate(50, &one(), hash(&[1])),
        invalid(InvalidTransaction::Custom(1))
    );
}

#[test]
fn heads_are_hashed_with_blake2() {
    let mut ext = new_test_ext(vec![]);
    assert_eq!(ext.registrar.set_thread_count(Origin::Root, 1), Ok(()));
    assert_eq!(ext.register_parathread(1, vec![1], vec![]), Ok(()));
    let empty: H256 = [
        0x0e, 0x57, 0x51, 0xc0, 0x26, 0xe5, 0x43, 0xb2, 0xe8, 0xab, 0x2e, 0xb0, 0x60, 0x99, 0xda,
        0xa1, 0xd1, 0xe5, 0xdf, 0x47, 0x77, 0x8f, 0x77, 0x87, 0xfa, 0xab, 0x45, 0xcd, 0xf1, 0x2f,
        0xe3, 0xa8,
    ];
    let r = ext.validate(user_id(0), &one(), empty).unwrap();
    assert_eq!(r.provides, vec![empty.to_vec()]);
    // before the first block the queue has no item yet: one is made.
    assert_eq!(ext.registrar.selected_threads(), &vec![vec![(user_id(0), one())]]);
}

#[test]
fn other_transactions_pass() {
    let mut ext = new_test_ext(vec![]);
    let r = limit().validate(&mut ext.registrar, &0, None, 3).unwrap();
    assert_eq!(r.provides, Vec::<Vec<u8>>::new());
    let call = Call::swap(4);
    let r = limit().validate(&mut ext.registrar, &0, Some(&call), 3).unwrap();
    assert_eq!(r.provides, Vec::<Vec<u8>>::new());
    assert_eq!(ext.registrar.pending_swap(4), None);
    assert_eq!(limit().additional_signed(), Ok(()));
    assert_eq!(limit().fmt(), "LimitParathreadCommits<T>");
}

#[test]
fn outcomes_of_the_hash_are_handled() {
    let mut ext = new_test_ext(vec![]);
    assert_eq!(ext.registrar.set_thread_count(Origin::Root, 3), Ok(()));
    assert_eq!(ext.register_parathread(1, vec![1], vec![1]), Ok(()));
    assert_eq!(ext.register_parathread(1, vec![1], vec![1]), Ok(()));
    ext.run_to_block(2);
    ext.schedule_thread(user_id(0), &[1], &one());
    let pos = ext.registrar.selection_place(user_id(1)).unwrap();
    assert_eq!(pos, 1);
    let col = one();
    assert_eq!(
        ext.registrar.commit_selection(user_id(1), col, pos, &[4; 32], &[5; 32]),
        invalid(InvalidTransaction::Stale)
    );
    assert!(ext
        .registrar
        .commit_selection(user_id(1), col, pos, &[4; 32], &[4; 32])
        .is_ok());
    assert_eq!(
        ext.registrar.selected_threads()[1],
        vec![(user_id(0), col), (user_id(1), col)]
    );
}

#[test]
fn origins_are_checked() {
    let mut ext = new_test_ext(vec![]);
    let m = &mut ext.registrar;
    let info = ParaInfo { scheduling: Scheduling::Always };
    assert_eq!(
        m.register_para(Origin::Signed(1), 1, info, vec![], vec![]),
        Err(NOT_ROOT)
    );
    assert_eq!(m.paras(1), None);
    assert_eq!(m.deregister_para(Origin::Unsigned, 1), Err(NOT_ROOT));
    assert_eq!(m.set_thread_count(Origin::Parachain(1), 1), Err(NOT_ROOT));
    assert_eq!(m.thread_count(), 0);
    let balances = &mut ext.balances;
    assert_eq!(m.register_parathread(balances, Origin::Root, vec![], vec![]), Err(NOT_SIGNED));
    assert_eq!(m.select_parathread(Origin::Root, 1, one(), [0; 32]), Err(NOT_SIGNED));
    assert_eq!(m.select_parathread(Origin::Signed(1), 1, one(), [0; 32]), Ok(()));
    assert_eq!(m.deregister_parathread(balances, Origin::Root), Err(NOT_PARACHAIN));
    assert_eq!(m.swap(&mut ext.slots, Origin::Signed(1), 1), Err(NOT_PARACHAIN));
    assert_eq!(ext.snapshot(), new_test_ext(vec![]).snapshot());
}

#[test]
fn registration_is_refused_for_the_right_reason() {
    let mut ext = new_test_ext(vec![(1, vec![1], vec![2])]);
    let before = ext.snapshot();
    let m = &mut ext.registrar;
    let info = ParaInfo { scheduling: Scheduling::Dynamic };
    assert_eq!(
        m.register_para(Origin::Root, 1, info, vec![9], vec![9]),
        Err("Parachain already exists")
    );
    assert_eq!(m.paras(1), ALWAYS);
    assert_eq!(m.deregister_para(Origin::Root, 2), Err("Invalid id"));
    assert_eq!(ext.deregister_parathread(2), Err("invalid id"));
    assert_eq!(ext.deregister_parathread(1), Err("invalid parathread id"));
    assert_eq!(ext.snapshot(), before);
    assert_eq!(ext.register_parathread(9, vec![], vec![]), Err("not enough free funds"));
    assert_eq!(ext.balances.asked, vec![Asked::Reserve(9, DEPOSIT)]);
    ext.balances.asked.clear();
    assert_eq!(ext.snapshot(), before);
}

#[test]
fn events_tell_what_happened() {
    let mut ext = new_test_ext(vec![]);
    assert_eq!(ext.register_parathread(1, vec![1], vec![1]), Ok(()));
    assert_eq!(ext.registrar.debtor(user_id(0)), Some(&1));
    assert_eq!(ext.deregister_parathread(user_id(0)), Ok(()));
    assert_eq!(
        ext.registrar.events(),
        &vec![
            Event::ParathreadRegistered(user_id(0)),
            Event::ParathreadDeregistered(user_id(0)),
        ]
    );
    assert_eq!(ext.registrar.debtor(user_id(0)), None);
    assert_eq!(
        ext.balances.asked,
        vec![Asked::Reserve(1, DEPOSIT), Asked::Unreserve(1, DEPOSIT)]
    );
}

#[test]
fn a_taken_identifier_is_passed_over() {
    let mut ext = new_test_ext(vec![]);
    let info = ParaInfo { scheduling: Scheduling::Always };
    let id = user_id(0);
    assert_eq!(
        ext.registrar.register_para(Origin::Root, id, info, vec![1], vec![1]),
        Ok(())
    );
    assert_eq!(ext.register_parathread(2, vec![2], vec![2]), Ok(()));
    // it stays what it was; the deposit is taken all the same.
    assert_eq!(ext.registrar.paras(id), ALWAYS);
    assert_eq!(ext.code(id), Some(vec![1]));
    assert_eq!(ext.registrar.debtor(id), Some(&2));
    assert_eq!(ext.balances.reserved_balance(2), DEPOSIT);
    assert_eq!(ext.registrar.next_free_id(), user_id(1));
}

#[test]
fn without_a_debtor_the_default_account_is_paid() {
    let mut ext = new_test_ext(vec![]);
    let info = ParaInfo { scheduling: Scheduling::Dynamic };
    assert_eq!(
        ext.registrar.register_para(Origin::Root, 3, info, vec![1], vec![1]),
        Ok(())
    );
    assert_eq!(ext.register_parathread(0, vec![2], vec![2]), Ok(()));
    assert_eq!(ext.balances.reserved_balance(0), DEPOSIT);
    assert_eq!(ext.deregister_parathread(3), Ok(()));
    assert_eq!(ext.balances.reserved_balance(0), 0);
}

#[test]
fn outcomes_of_the_deposit_are_handled() {
    let mut ext = new_test_ext(vec![]);
    let m = &mut ext.registrar;
    assert_eq!(m.complete_registration(5, Err("broke"), vec![1], vec![1]), Err("broke"));
    assert_eq!(m.paras(user_id(0)), None);
    assert_eq!(m.complete_registration(5, Ok(()), vec![1], vec![1]), Ok(()));
    assert_eq!(m.paras(user_id(0)), DYNAMIC);
    assert_eq!(m.remove_parathread(user_id(0)), Ok(Some(5)));
    assert_eq!(m.remove_parathread(user_id(0)), Err("invalid id"));
}

#[test]
fn swaps_can_be_forbidden() {
    let mut ext = new_test_ext(vec![(13, vec![1], vec![1]), (14, vec![2], vec![2])]);
    assert_eq!(ext.swap(13, 14), Ok(()));
    assert_eq!(ext.slots.calls, vec![]);
    assert_eq!(ext.swap(14, 13), Err("cannot swap"));
    assert_eq!(ext.slots.calls, vec![Swap::Ensure(14, 13)]);
    assert_eq!(ext.registrar.pending_swap(13), Some(14));
    assert_eq!(ext.registrar.complete_swap(14, 13, Err("no")), Err("no"));
    assert_eq!(ext.registrar.pending_swap(13), Some(14));
}

#[test]
fn swapping_twice_restores() {
    let mut ext = new_test_ext(vec![(4, vec![1], vec![1])]);
    assert_eq!(ext.register_parathread(1, vec![2], vec![2]), Ok(()));
    for _ in 0..2 {
        assert_eq!(ext.swap(4, user_id(0)), Ok(()));
        assert_eq!(ext.swap(user_id(0), 4), Ok(()));
    }
    assert_eq!(ext.registrar.paras(4), ALWAYS);
    assert_eq!(ext.registrar.paras(user_id(0)), DYNAMIC);
    assert_eq!(ext.registrar.parachains(), &vec![4]);
    assert_eq!(ext.registrar.debtor(user_id(0)), Some(&1));
    assert_eq!(ext.registrar.debtor(4), None);
    // with itself, nothing changes.
    assert_eq!(ext.swap(4, 4), Ok(()));
    assert_eq!(ext.swap(4, 4), Ok(()));
    assert_eq!(ext.registrar.paras(4), ALWAYS);
    assert_eq!(ext.registrar.parachains(), &vec![4]);
    assert_eq!(ext.registrar.pending_swap(4), None);
}

#[test]
fn genesis_sorts_and_drops_duplicates() {
    let ext = new_test_ext(vec![
        (9, vec![1], vec![11]),
        (3, vec![2], vec![12]),
        (9, vec![3], vec![13]),
    ]);
    assert_eq!(ext.registrar.parachains(), &vec![3, 9]);
    assert_eq!(ext.code(9), Some(vec![1]));
    assert_eq!(ext.head(9), Some(vec![11]));
    assert_eq!(ext.head(3), Some(vec![12]));
    assert_eq!(ext.registrar.chains().watermark(3), Some(0));
    // nothing is kept of what is not listed.
    assert_eq!(ext.registrar.chains().watermark(4), None);
    assert_eq!(ext.code(4), None);
    assert_eq!(ext.head(4), None);
    assert_eq!(ext.registrar.next_free_id(), LOWEST_USER_ID);
    assert_eq!(ext.registrar.active_paras(), vec![]);
}

#[test]
fn identifiers_are_unique() {
    let mut m: Module<Test> = Module::new();
    assert_eq!(m.new_id(), 1000);
    assert_eq!(m.new_id(), 1001);
    assert_eq!(m.next_free_id(), 1002);
    // identifiers ascend, whichever way they are handed out.
    let mut ext = new_test_ext(vec![(7, vec![], vec![])]);
    assert_eq!(ext.register_parathread(1, vec![], vec![]), Ok(()));
    assert_eq!(ext.registrar.paras(LOWEST_USER_ID), DYNAMIC);
    assert_eq!(ext.deregister_parathread(LOWEST_USER_ID), Ok(()));
    assert_eq!(ext.registrar.new_id(), LOWEST_USER_ID + 1);
}

#[test]
fn registering_is_undone_by_deregistering() {
    let mut m: Module<Test> = Module::build(&GenesisConfig {
        parachains: vec![(2, vec![], vec![]), (6, vec![], vec![])],
    });
    let info = ParaInfo { scheduling: Scheduling::Always };
    assert_eq!(Registrar::register_para(&mut m, 4, info, vec![1], vec![2]), Ok(()));
    assert_eq!(m.parachains(), &vec![2, 4, 6]);
    assert_eq!(Registrar::deregister_para(&mut m, 4), Ok(()));
    assert_eq!(m.parachains(), &vec![2, 6]);
    assert_eq!(m.paras(4), None);
    assert_eq!(m.chains().parachain_head(4), None);
    assert_eq!(Registrar::deregister_para(&mut m, 4), Err("Invalid id"));
}

#[test]
fn only_threads_have_a_thread_id() {
    let mut ext = new_test_ext(vec![(1, vec![], vec![])]);
    assert_eq!(ext.register_parathread(1, vec![], vec![]), Ok(()));
    assert_eq!(ext.registrar.ensure_thread_id(1), None);
    assert_eq!(ext.registrar.ensure_thread_id(2), None);
    assert_eq!(ext.registrar.ensure_thread_id(user_id(0)), DYNAMIC);
}

#[test]
fn nothing_is_retried_without_an_update() {
    let mut ext = new_test_ext(vec![]);
    assert_eq!(ext.registrar.set_thread_count(Origin::Root, 1), Ok(()));
    assert_eq!(ext.register_parathread(3, vec![3; 3], vec![3; 3]), Ok(()));
    ext.run_to_block(3);
    ext.schedule_thread(user_id(0), &[3; 3], &one());
    ext.run_to_block(5);
    ext.registrar.on_finalize(None);
    assert_eq!(ext.registrar.retry_queue(), &Vec::<Vec<(ParaId, CollatorId)>>::new());
    ext.registrar.on_finalize(Some(vec![]));
    assert_eq!(
        ext.registrar.retry_queue(),
        &vec![vec![(user_id(0), one())], vec![], vec![]]
    );
}

#[test]
fn a_retry_gives_way_to_a_new_selection() {
    let mut ext = new_test_ext(vec![]);
    assert_eq!(ext.registrar.set_thread_count(Origin::Root, 1), Ok(()));
    assert_eq!(ext.register_parathread(3, vec![3; 3], vec![3; 3]), Ok(()));
    ext.run_to_block(3);
    ext.schedule_thread(user_id(0), &[3; 3], &one());
    ext.run_to_block(4);
    ext.schedule_thread(user_id(0), &[3; 3], &one());
    ext.run_to_block(6);
    // selected anew: once only, in its first attempt.
    assert_eq!(ext.registrar.active_paras(), vec![(user_id(0), with_retries(0))]);
}

/// Adds up the bytes, and puts their number behind the sum.
struct Sum;

impl Hashing for Sum {
    fn hash(data: &[u8]) -> H256 {
        let mut r = [0; 32];
        r[0] = data.iter().sum();
        r[1] = data.len() as u8;
        r
    }
}

/// A currency with small amounts, of one account.
struct Coins(u16);

impl ReservableCurrency<u64> for Coins {
    type Balance = u16;

    fn reserve(&mut self, _who: &u64, value: u16) -> Result<(), &'static str> {
        match self.0.checked_sub(value) {
            Some(left) => {
                self.0 = left;
                Ok(())
            }
            None => Err("too poor"),
        }
    }

    fn unreserve(&mut self, _who: &u64, value: u16) -> u16 {
        self.0 += value;
        0
    }
}

struct Small;

impl Trait for Small {
    type AccountId = u64;
    type Hashing = Sum;
    type Currency = Coins;
    type SwapAux = Slots;
    const PARATHREAD_DEPOSIT: u16 = 3;
    const QUEUE_SIZE: usize = 1;
    const MAX_RETRIES: u32 = 0;
}

#[test]
fn a_runtime_supplies_hash_and_currency() {
    let mut m: Module<Small> = Module::new();
    let mut coins = Coins(5);
    assert_eq!(m.set_thread_count(Origin::Root, 1), Ok(()));
    assert_eq!(
        m.register_parathread(&mut coins, Origin::Signed(1), vec![1], vec![2, 5]),
        Ok(())
    );
    assert_eq!(coins.0, 2);
    assert_eq!(
        m.register_parathread(&mut coins, Origin::Signed(1), vec![1], vec![2, 5]),
        Err("too poor")
    );
    let rule: LimitParathreadCommits<Small> = LimitParathreadCommits(PhantomData);
    let blake = Call::select_parathread(user_id(0), one(), hash(&[2, 5]));
    assert_eq!(
        rule.validate(&mut m, &1, Some(&blake), 0),
        invalid(InvalidTransaction::Stale)
    );
    let mut sum = [0; 32];
    sum[0] = 7;
    sum[1] = 2;
    let bid = Call::select_parathread(user_id(0), one(), sum);
    let r = rule.validate(&mut m, &1, Some(&bid), 0).unwrap();
    assert_eq!(r.provides, vec![sum.to_vec()]);
    m.on_initialize();
    assert_eq!(m.active_paras(), vec![(user_id(0), with_retries(0))]);
    // nothing is retried.
    m.on_finalize(Some(vec![]));
    m.on_initialize();
    assert_eq!(m.active_paras(), vec![]);
    assert_eq!(m.deregister_parathread(&mut coins, Origin::Parachain(user_id(0))), Ok(()));
    assert_eq!(coins.0, 5);
}

#[test]
fn blake2_is_the_hash_of_the_runtime() {
    assert_eq!(BlakeTwo256::hash(&[1, 2, 3]), hash(&[1, 2, 3]));
    assert_ne!(BlakeTwo256::hash(&[1, 2, 3]), BlakeTwo256::hash(&[1, 2, 4]));
}

#[test]
fn some_calls_have_a_weight() {
    let info = ParaInfo { scheduling: Scheduling::Always };
    assert_eq!(
        Call::register_para(1, info, vec![], vec![]).get_dispatch_info(),
        Some(DispatchInfo { weight: 5_000_000, class: DispatchClass::Operational })
    );
    assert_eq!(
        Call::deregister_para(1).get_dispatch_info(),
        Some(DispatchInfo { weight: 10_000, class: DispatchClass::Operational })
    );
    let others = [
        Call::set_thread_count(1),
        Call::register_parathread(vec![], vec![]),
        Call::select_parathread(1, one(), [0; 32]),
        Call::deregister_parathread,
        Call::swap(1),
    ];
    for call in others {
        assert_eq!(call.get_dispatch_info(), None);
    }
}

#[test]
fn calls_are_sent_to_the_function_of_their_name() {
    let mut ext = new_test_ext(vec![(1, vec![1], vec![1])]);
    let info = ParaInfo { scheduling: Scheduling::Always };
    let register = Call::register_para(2, info, vec![2], vec![3]);
    assert_eq!(ext.dispatch(register, Origin::Root), Ok(()));
    assert_eq!(ext.registrar.parachains(), &vec![1, 2]);
    assert_eq!(ext.dispatch(Call::deregister_para(1), Origin::Root), Ok(()));
    assert_eq!(ext.dispatch(Call::set_thread_count(4), Origin::Root), Ok(()));
    assert_eq!(ext.dispatch(Call::set_thread_count(5), Origin::Signed(1)), Err(NOT_ROOT));
    assert_eq!(ext.registrar.thread_count(), 4);
    let thread = Call::register_parathread(vec![4], vec![5]);
    assert_eq!(ext.dispatch(thread, Origin::Signed(6)), Ok(()));
    assert_eq!(ext.balances.asked, vec![Asked::Reserve(6, DEPOSIT)]);
    assert_eq!(ext.dispatch(Call::swap(2), Origin::Parachain(user_id(0))), Ok(()));
    assert_eq!(ext.dispatch(Call::swap(user_id(0)), Origin::Parachain(2)), Ok(()));
    assert_eq!(ext.slots.calls, vec![Swap::Ensure(2, user_id(0)), Swap::On(2, user_id(0))]);
    assert_eq!(ext.registrar.parachains(), &vec![user_id(0)]);
    assert_eq!(ext.dispatch(Call::deregister_parathread, Origin::Parachain(2)), Ok(()));
    assert_eq!(
        ext.balances.asked,
        vec![Asked::Reserve(6, DEPOSIT), Asked::Unreserve(6, DEPOSIT)]
    );
}

#[test]
fn what_is_swapped_out_stays_out() {
    let mut ext = new_test_ext(vec![]);
    assert_eq!(ext.registrar.set_thread_count(Origin::Root, 2), Ok(()));
    for x in 0..3u8 {
        assert_eq!(ext.register_parathread(x as u64, vec![x], vec![x]), Ok(()));
    }
    ext.run_to_block(3);
    ext.schedule_thread(user_id(0), &[0], &one());
    ext.schedule_thread(user_id(2), &[2], &one());
    // both leave the queue, the one that is selected and the one that is not.
    assert_eq!(ext.swap(user_id(0), user_id(1)), Ok(()));
    assert_eq!(ext.swap(user_id(1), user_id(0)), Ok(()));
    assert_eq!(ext.registrar.selected_threads(), &vec![vec![], vec![(user_id(2), one())]]);
    // the same once more changes nothing in the queues.
    assert_eq!(ext.swap(user_id(0), user_id(1)), Ok(()));
    assert_eq!(ext.swap(user_id(1), user_id(0)), Ok(()));
    assert_eq!(ext.registrar.selected_threads(), &vec![vec![], vec![(user_id(2), one())]]);
    for block in 5..9 {
        ext.run_to_block(block);
        assert_eq!(
            ext.registrar.active_paras(),
            vec![(user_id(2), with_retries((block - 5) as u32))]
        );
    }
}

struct NoQueue;

impl Trait for NoQueue {
    type AccountId = u64;
    type Hashing = BlakeTwo256;
    type Currency = Balances;
    type SwapAux = Slots;
    const PARATHREAD_DEPOSIT: u128 = DEPOSIT;
    const QUEUE_SIZE: usize = 0;
    const MAX_RETRIES: u32 = 1;
}

#[test]
fn a_queue_without_items_runs_out() {
    let mut m: Module<NoQueue> = Module::new();
    let mut balances = Balances { reserved: vec![], asked: vec![] };
    assert_eq!(m.set_thread_count(Origin::Root, 2), Ok(()));
    let rule: LimitParathreadCommits<NoQueue> = LimitParathreadCommits(PhantomData);
    for x in 0..2u8 {
        let who = Origin::Signed(1);
        assert_eq!(m.register_parathread(&mut balances, who, vec![], vec![x]), Ok(()));
        let bid = Call::select_parathread(user_id(x as u32), one(), hash(&[x]));
        assert!(rule.validate(&mut m, &1, Some(&bid), 0).is_ok());
    }
    // what is deregistered does not become active, though the last queue is taken out.
    let gone = Origin::Parachain(user_id(0));
    assert_eq!(m.deregister_parathread(&mut balances, gone), Ok(()));
    m.on_initialize();
    assert_eq!(m.active_paras(), vec![(user_id(1), with_retries(0))]);
    assert_eq!(m.selected_threads().len(), 0);
}

#[test]
fn a_block_lists_everything_once() {
    let mut ext = new_test_ext(vec![(3, vec![], vec![]), (2000, vec![], vec![])]);
    assert_eq!(ext.registrar.set_thread_count(Origin::Root, 2), Ok(()));
    for x in 0..3u8 {
        assert_eq!(ext.register_parathread(1, vec![], vec![x]), Ok(()));
    }
    ext.run_to_block(2);
    ext.schedule_thread(user_id(2), &[2], &one());
    ext.run_to_block(3);
    ext.schedule_thread(user_id(0), &[0], &one());
    ext.schedule_thread(user_id(1), &[1], &one());
    ext.run_to_block(5);
    assert_eq!(
        ext.registrar.active_paras(),
        vec![
            (3, None),
            (user_id(0), with_retries(0)),
            (user_id(1), with_retries(0)),
            (user_id(2), with_retries(1)),
            (2000, None),
        ]
    );
}

#[test]
fn a_queue_is_filled_before_it_is_taken_from() {
    let mut ext = new_test_ext(vec![]);
    assert_eq!(ext.registrar.set_thread_count(Origin::Root, 1), Ok(()));
    assert_eq!(ext.register_parathread(1, vec![1], vec![1]), Ok(()));
    ext.schedule_thread(user_id(0), &[1], &one());
    ext.registrar.on_initialize();
    assert_eq!(ext.registrar.active_paras(), vec![]);
    ext.registrar.on_initialize();
    assert_eq!(ext.registrar.active_paras(), vec![(user_id(0), with_retries(0))]);
}
