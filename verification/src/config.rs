//! What a runtime supplies to the registrar.

use crate::hashing::Hashing;
use crate::types::ParaId;
use vstd::prelude::*;

verus! {

/// A currency of which an account's funds can be set aside.
pub trait ReservableCurrency<AccountId> {
    /// An amount of the currency.
    type Balance: Copy;

    /// Moves `value` from the free to the reserved balance of `who`, or says why it cannot.
    fn reserve(&mut self, who: &AccountId, value: Self::Balance) -> Result<(), &'static str>;

    /// Moves up to `value` from the reserved to the free balance of `who`; returns what could not
    /// be moved.
    fn unreserve(&mut self, who: &AccountId, value: Self::Balance) -> Self::Balance;
}

/// Handler for when two paras are swapped.
pub trait SwapAux {
    /// Says whether the two may be swapped.
    fn ensure_can_swap(&mut self, one: ParaId, other: ParaId) -> Result<(), &'static str>;

    /// Swaps what else is kept of the two.
    fn on_swap(&mut self, one: ParaId, other: ParaId) -> Result<(), &'static str>;
}

/// Configuration of the registrar.
pub trait Trait: Sized {
    /// Identifies the holder of an account.
    type AccountId: Default;

    /// Hashes head data.
    type Hashing: Hashing;

    /// The system's currency for parathread payment.
    type Currency: ReservableCurrency<Self::AccountId>;

    /// Handler for when two paras are swapped.
    type SwapAux: SwapAux;

    /// The deposit to be paid to run a parathread.
    const PARATHREAD_DEPOSIT: <Self::Currency as ReservableCurrency<Self::AccountId>>::Balance;

    /// The number of items in the parathread queue, aka the number of blocks in advance to
    /// schedule parachain execution.
    const QUEUE_SIZE: usize;

    /// The number of rotations that you will have as grace if you miss a block.
    const MAX_RETRIES: u32;
}

/// An amount of the currency in which deposits are paid.
pub type BalanceOf<T> =
    <<T as Trait>::Currency as ReservableCurrency<<T as Trait>::AccountId>>::Balance;

} // verus!
