//! What the transaction pool is told of a transaction.

use vstd::prelude::*;

verus! {

/// Custom validity errors used while validating transactions.
#[derive(Clone, Copy, PartialEq, Eq, Structural, Debug)]
pub enum Error {
    /// Parathread ID has already been submitted for this block.
    Duplicate,
    /// Parathread ID does not identify a parathread.
    InvalidId,
}

impl Error {
    /// The number by which the error is known to the transaction pool.
    pub open spec fn spec_code(self) -> u8 {
        match self {
            Error::Duplicate => 0,
            Error::InvalidId => 1,
        }
    }

    /// The number by which the error is known to the transaction pool.
    pub fn code(self) -> (r: u8)
        ensures
            r == self.spec_code(),
    {
        match self {
            Error::Duplicate => 0,
            Error::InvalidId => 1,
        }
    }
}

/// Why a transaction is invalid.
#[derive(Clone, Copy, PartialEq, Eq, Structural, Debug)]
pub enum InvalidTransaction {
    /// It is outdated.
    Stale,
    /// It would exhaust the resources of the block.
    ExhaustsResources,
    /// For a reason that is particular to a module.
    Custom(u8),
}

/// Why a transaction did not pass.
#[derive(Clone, Copy, PartialEq, Eq, Structural, Debug)]
pub enum TransactionValidityError {
    /// It is invalid.
    Invalid(InvalidTransaction),
}

/// What is known of a transaction that passed.
#[derive(PartialEq, Eq, Debug)]
pub struct ValidTransaction {
    /// The larger, the sooner it is taken up.
    pub priority: u64,
    /// The tags that other transactions have to provide before.
    pub required: Vec<Vec<u8>>,
    /// The tags that it provides; of two with the same tag, one is thrown out.
    pub provides: Vec<Vec<u8>>,
    /// For how many blocks this holds at least.
    pub longevity: u64,
    /// Whether it is passed on to peers.
    pub propagate: bool,
}

impl ValidTransaction {
    /// Nothing particular is known but the tags that are provided.
    pub open spec fn provides_only(self, tags: Seq<Seq<u8>>) -> bool {
        &&& self.priority == 0
        &&& self.required@.len() == 0
        &&& self.provides@.map_values(|tag: Vec<u8>| tag@) == tags
        &&& self.longevity == u64::MAX
        &&& self.propagate
    }
}

impl Default for ValidTransaction {
    fn default() -> (r: Self)
        ensures
            r.provides_only(Seq::empty()),
    {
        let r = ValidTransaction {
            priority: 0,
            required: Vec::new(),
            provides: Vec::new(),
            longevity: u64::MAX,
            propagate: true,
        };
        assert(r.provides@.map_values(|tag: Vec<u8>| tag@) =~= Seq::empty());
        r
    }
}

/// The outcome of validating a transaction.
pub type TransactionValidity = Result<ValidTransaction, TransactionValidityError>;

} // verus!
