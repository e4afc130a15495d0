//! The plain values that the registrar handles.

use vstd::prelude::*;

verus! {

/// Identifier of a parachain or parathread (collectively a "para").
pub type ParaId = u32;

/// The first identifier handed out to users; lower numbers are kept for system-level chains.
pub const LOWEST_USER_ID: ParaId = 1000;

/// Number of a block.
pub type BlockNumber = u64;

/// A 256-bit hash.
pub type H256 = [u8; 32];

/// What a dispatchable call returns.
pub type DispatchResult = Result<(), &'static str>;

/// Which share of a block a call draws on.
#[derive(Clone, Copy, PartialEq, Eq, Structural, Debug)]
pub enum DispatchClass {
    /// What is left to the calls of users.
    Normal,
    /// What is kept for the calls by which the system is run.
    Operational,
}

/// What a call takes up of a block.
#[derive(Clone, Copy, PartialEq, Eq, Structural, Debug)]
pub struct DispatchInfo {
    /// How heavy the call is.
    pub weight: u32,
    /// Which share of the block it draws on.
    pub class: DispatchClass,
}

/// The public key of a collator.
#[derive(Clone, Copy, PartialEq, Eq, Debug)]
pub struct CollatorId(pub [u8; 32]);

impl Default for CollatorId {
    fn default() -> (r: Self)
        ensures
            r.0@ == Seq::new(32, |i: int| 0u8),
    {
        CollatorId([0u8; 32])
    }
}

/// When a para gets to execute.
#[derive(Clone, Copy, PartialEq, Eq, Structural, Debug)]
pub enum Scheduling {
    /// In every block: a parachain.
    Always,
    /// In those blocks for which it wins a slot: a parathread.
    Dynamic,
}

/// What is recorded of a registered para.
#[derive(Clone, Copy, PartialEq, Eq, Structural, Debug)]
pub struct ParaInfo {
    pub scheduling: Scheduling,
}

/// Whether a scheduled parathread that misses its block may be scheduled again.
#[derive(Clone, Copy, PartialEq, Eq, Structural, Debug)]
pub enum Retriable {
    /// It may not.
    Never,
    /// It may; so many retries have been made already.
    WithRetries(u32),
}

/// A parathread and the collator chosen to advance it.
pub type Selection = (ParaId, CollatorId);

/// A para that may execute in the current block. Where the collator is set, no other may provide
/// the block.
pub type ActiveEntry = (ParaId, Option<(CollatorId, Retriable)>);

/// Who sends a call.
#[derive(PartialEq, Eq, Debug)]
pub enum Origin<AccountId> {
    /// The system itself.
    Root,
    /// The holder of an account.
    Signed(AccountId),
    /// Nobody in particular.
    Unsigned,
    /// A para.
    Parachain(ParaId),
}

/// What the registrar reports of its work.
#[derive(Clone, Copy, PartialEq, Eq, Structural, Debug)]
pub enum Event {
    /// A parathread was registered; its new ID is supplied.
    ParathreadRegistered(ParaId),
    /// The parathread of the supplied ID was de-registered.
    ParathreadDeregistered(ParaId),
}

} // verus!
