//! State transition functions: what an instruction does to the states of the
//! addresses it touches. The pipeline takes any function that implements
//! [`StateTransition`]; two for transferable amounts are given here.

use crate::crypto::UserAddress;
use crate::kvs::pairs;
use crate::kvs::state_in;
use crate::kvs::MemoryDB;
use crate::kvs::StateUpdate;
use crate::state_type::U64;
use crate::traits::CallNameConverter;
use crate::traits::MemId;
use crate::traits::MemNameConverter;
use vstd::bytes::spec_u64_to_le_bytes;
use vstd::prelude::*;

verus! {

/// A state transition function, acting for one caller.
pub trait StateTransition {
    /// The address on whose behalf the function acts.
    spec fn caller_address(&self) -> Seq<u8>;

    /// The states that the function writes, in order, for the instruction
    /// `payload` over `states`; `None` where it rejects the instruction.
    spec fn transition(&self, payload: Seq<u8>, states: Map<Seq<u8>, Seq<u8>>) -> Option<
        Seq<(Seq<u8>, Seq<u8>)>,
    >;

    /// The address on whose behalf the function acts.
    fn caller(&self) -> (address: UserAddress)
        ensures
            address@ == self.caller_address(),
    ;

    /// Runs the function on `payload` against the states in `store`,
    /// without writing.
    fn apply(&self, payload: &[u8], store: &MemoryDB) -> (updates: Option<Vec<StateUpdate>>)
        ensures
            (match updates {
                Some(u) => self.transition(payload@, store@) == Some(pairs(u@)),
                None => self.transition(payload@, store@).is_none(),
            }),
    ;
}

/// What giving `owner` the supply that `payload` holds writes.
pub open spec fn construct_updates(owner: Seq<u8>, payload: Seq<u8>) -> Option<
    Seq<(Seq<u8>, Seq<u8>)>,
> {
    match U64::decoded(payload) {
        Some(total_supply) => Some(seq![(owner, spec_u64_to_le_bytes(total_supply.0))]),
        None => None,
    }
}

/// What moving the amount that `payload` holds from `sender` to `recipient`
/// writes over `states`: the balance of the sender less the amount, and
/// that of the recipient plus the amount. Nothing where the sender holds
/// less than the amount, or the recipient would hold more than fits in 64
/// bits, or a balance cannot be read.
pub open spec fn transfer_updates(
    sender: Seq<u8>,
    recipient: Seq<u8>,
    payload: Seq<u8>,
    states: Map<Seq<u8>, Seq<u8>>,
) -> Option<Seq<(Seq<u8>, Seq<u8>)>> {
    match (
        U64::decoded(payload),
        U64::decoded(state_in(states, sender)),
        U64::decoded(state_in(states, recipient)),
    ) {
        (Some(amount), Some(from), Some(to)) => if from.0 < amount.0 {
            None
        } else if sender == recipient {
            Some(seq![(sender, spec_u64_to_le_bytes(from.0))])
        } else if to.0 + amount.0 > u64::MAX {
            None
        } else {
            Some(
                seq![
                    (sender, spec_u64_to_le_bytes((from.0 - amount.0) as u64)),
                    (recipient, spec_u64_to_le_bytes((to.0 + amount.0) as u64)),
                ],
            )
        },
        _ => None,
    }
}

/// Gives the owner the whole supply: the instruction is the amount.
#[derive(Clone, Copy, Debug)]
pub struct Construct {
    pub owner: UserAddress,
}

impl StateTransition for Construct {
    open spec fn caller_address(&self) -> Seq<u8> {
        self.owner@
    }

    open spec fn transition(&self, payload: Seq<u8>, states: Map<Seq<u8>, Seq<u8>>) -> Option<
        Seq<(Seq<u8>, Seq<u8>)>,
    > {
        construct_updates(self.owner@, payload)
    }

    fn caller(&self) -> (address: UserAddress) {
        self.owner
    }

    fn apply(&self, payload: &[u8], store: &MemoryDB) -> (updates: Option<Vec<StateUpdate>>) {
        let total_supply = match U64::decode(payload) {
            Some(total_supply) => total_supply,
            None => return None,
        };
        let mut updates: Vec<StateUpdate> = Vec::new();
        updates.push(StateUpdate { address: self.owner, state: total_supply.into_state() });
        assert(pairs(updates@) =~= seq![(self.owner@, spec_u64_to_le_bytes(total_supply.0))]);
        Some(updates)
    }
}

/// Moves an amount from the sender to the recipient: the instruction is the
/// amount. Rejected where the sender holds less, or the recipient would
/// hold more than fits.
#[derive(Clone, Copy, Debug)]
pub struct Transfer {
    pub sender: UserAddress,
    pub recipient: UserAddress,
}

impl StateTransition for Transfer {
    open spec fn caller_address(&self) -> Seq<u8> {
        self.sender@
    }

    open spec fn transition(&self, payload: Seq<u8>, states: Map<Seq<u8>, Seq<u8>>) -> Option<
        Seq<(Seq<u8>, Seq<u8>)>,
    > {
        transfer_updates(self.sender@, self.recipient@, payload, states)
    }

    fn caller(&self) -> (address: UserAddress) {
        self.sender
    }

    fn apply(&self, payload: &[u8], store: &MemoryDB) -> (updates: Option<Vec<StateUpdate>>) {
        let amount = match U64::decode(payload) {
            Some(amount) => amount,
            None => return None,
        };
        let from = match U64::try_from_state(&store.get(&self.sender)) {
            Some(from) => from,
            None => return None,
        };
        let to = match U64::try_from_state(&store.get(&self.recipient)) {
            Some(to) => to,
            None => return None,
        };
        let remaining = match from.checked_sub(amount) {
            Some(remaining) => remaining,
            None => return None,
        };
        let mut updates: Vec<StateUpdate> = Vec::new();
        if self.sender.same(&self.recipient) {
            updates.push(StateUpdate { address: self.sender, state: from.into_state() });
            assert(pairs(updates@) =~= seq![(self.sender@, spec_u64_to_le_bytes(from.0))]);
            return Some(updates);
        }
        let received = match to.checked_add(amount) {
            Some(received) => received,
            None => return None,
        };
        updates.push(StateUpdate { address: self.sender, state: remaining.into_state() });
        updates.push(StateUpdate { address: self.recipient, state: received.into_state() });
        assert(pairs(updates@) =~= seq![
            (self.sender@, spec_u64_to_le_bytes(remaining.0)),
            (self.recipient@, spec_u64_to_le_bytes(received.0)),
        ]);
        Some(updates)
    }
}

/// The names of the calls of the transferable amounts: `construct` is call
/// 0 and `transfer` is call 1.
#[derive(Clone, Copy, Debug)]
pub struct CallName;

impl CallNameConverter for CallName {
    open spec fn names_call(name: Seq<char>) -> bool {
        name == "construct"@ || name == "transfer"@
    }

    open spec fn call_id(name: Seq<char>) -> u32 {
        if name == "construct"@ {
            0
        } else {
            1
        }
    }

    fn as_id(name: &str) -> (id: u32) {
        if name.to_owned() == "construct".to_owned() {
            0
        } else {
            1
        }
    }
}

/// The names of the kinds of memory of the transferable amounts: `Balance`
/// is memory 0.
#[derive(Clone, Copy, Debug)]
pub struct MemName;

impl MemNameConverter for MemName {
    open spec fn names_memory(name: Seq<char>) -> bool {
        name == "Balance"@
    }

    open spec fn memory_id(name: Seq<char>) -> MemId {
        MemId(0)
    }

    fn as_id(name: &str) -> (id: MemId) {
        MemId(0)
    }
}

} // verus!
