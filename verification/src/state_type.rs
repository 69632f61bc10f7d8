//! The application state that the enclave stores and encrypts.

use crate::bytes::subrange;
use crate::crypto::UserAddress;
use crate::kvs::state_in;
use crate::kvs::MemoryDB;
use crate::kvs::StateUpdate;
use crate::traits::IntoVec;
use crate::traits::State;
use crate::traits::StateDecoder;
use crate::primitives::scale_decode_u64;
use crate::primitives::scale_encode_u64;
use vstd::bytes::spec_u64_from_le_bytes;
use vstd::bytes::spec_u64_to_le_bytes;
use vstd::prelude::*;

verus! {

/// The length in bytes of an application state as it is encrypted.
pub const STATE_SIZE: usize = 8;

/// An application state: bytes that only the state transition function
/// interprets. A state that was never written is empty.
#[derive(Clone, Debug, Default)]
pub struct StateType(pub Vec<u8>);

impl View for StateType {
    type V = Seq<u8>;

    open spec fn view(&self) -> Seq<u8> {
        self.0@
    }
}

impl StateType {
    /// The state that holds `bytes`.
    pub fn new(bytes: Vec<u8>) -> (state: StateType)
        ensures
            state@ == bytes@,
    {
        StateType(bytes)
    }

    /// The bytes of the state.
    pub fn into_bytes(self) -> (bytes: Vec<u8>)
        ensures
            bytes@ == self@,
    {
        self.0
    }

    /// The bytes of the state.
    pub fn as_bytes(&self) -> (bytes: &[u8])
        ensures
            bytes@ == self@,
    {
        self.0.as_slice()
    }

    /// A copy of the state.
    pub fn duplicate(&self) -> (state: StateType)
        ensures
            state@ == self@,
    {
        StateType(subrange(self.0.as_slice(), 0, self.0.len()))
    }
}

/// An unsigned 64-bit amount, stored as eight bytes, least significant first.
#[derive(Clone, Copy, Debug, PartialEq, Eq, Structural, PartialOrd, Ord, Hash)]
pub struct U64(pub u64);

impl U64 {
    /// The amount `raw`.
    pub fn from_raw(raw: u64) -> (value: U64)
        ensures
            value.0 == raw,
    {
        U64(raw)
    }

    /// The amount as a number.
    pub fn as_raw(&self) -> (raw: u64)
        ensures
            raw == self.0,
    {
        self.0
    }

    /// What a state holds that was read as an amount: nothing for an empty
    /// state, the first eight bytes otherwise, and no amount where fewer
    /// than eight are there.
    pub open spec fn decoded(bytes: Seq<u8>) -> Option<U64> {
        if bytes.len() == 0 {
            Some(U64(0))
        } else if bytes.len() >= 8 {
            Some(U64(spec_u64_from_le_bytes(bytes.subrange(0, 8))))
        } else {
            None
        }
    }

    /// The eight bytes of the amount.
    pub fn as_bytes(&self) -> (bytes: Vec<u8>)
        ensures
            bytes@ == spec_u64_to_le_bytes(self.0),
            bytes@.len() == STATE_SIZE,
    {
        proof {
            vstd::bytes::lemma_auto_spec_u64_to_from_le_bytes();
        }
        scale_encode_u64(self.0)
    }

    /// Reads an amount from the front of `bytes`.
    pub fn from_bytes(bytes: &[u8]) -> (value: Option<U64>)
        ensures
            value.is_some() <==> bytes@.len() >= 8,
            value matches Some(v) ==> v.0 == spec_u64_from_le_bytes(bytes@.subrange(0, 8)),
    {
        match scale_decode_u64(bytes) {
            Some(raw) => Some(U64(raw)),
            None => None,
        }
    }

    /// Reads an amount from bytes; no bytes is zero.
    pub fn decode(bytes: &[u8]) -> (value: Option<U64>)
        ensures
            value == U64::decoded(bytes@),
    {
        if bytes.len() == 0 {
            Some(U64(0))
        } else {
            U64::from_bytes(bytes)
        }
    }

    /// Reads the amount that `state` holds, by way of its bytes.
    pub fn from_state(state: &U64) -> (value: Option<U64>)
        ensures
            value == Some(*state),
    {
        let bytes = state.as_bytes();
        proof {
            vstd::bytes::lemma_auto_spec_u64_to_from_le_bytes();
            assert(bytes@.subrange(0, 8) =~= bytes@);
        }
        U64::from_bytes(bytes.as_slice())
    }

    /// Reads an amount from a stored state; an empty state is zero.
    pub fn try_from_state(state: &StateType) -> (value: Option<U64>)
        ensures
            value == U64::decoded(state@),
    {
        U64::decode(state.0.as_slice())
    }

    /// Reads an amount from bytes; no bytes is zero.
    pub fn try_from_vec(bytes: Vec<u8>) -> (value: Option<U64>)
        ensures
            value == U64::decoded(bytes@),
    {
        U64::decode(bytes.as_slice())
    }

    /// The state that holds this amount.
    pub fn into_state(self) -> (state: StateType)
        ensures
            state@ == spec_u64_to_le_bytes(self.0),
            state@.len() == STATE_SIZE,
            U64::decoded(state@) == Some(self),
    {
        let bytes = self.as_bytes();
        proof {
            vstd::bytes::lemma_auto_spec_u64_to_from_le_bytes();
            assert(bytes@.subrange(0, 8) =~= bytes@);
        }
        StateType(bytes)
    }

    /// The sum, where it fits in 64 bits.
    pub fn checked_add(self, other: U64) -> (sum: Option<U64>)
        ensures
            sum.is_some() <==> self.0 + other.0 <= u64::MAX,
            sum matches Some(s) ==> s.0 == self.0 + other.0,
    {
        if self.0 > u64::MAX - other.0 {
            None
        } else {
            Some(U64(self.0 + other.0))
        }
    }

    /// The difference, where `other` is not the larger.
    pub fn checked_sub(self, other: U64) -> (difference: Option<U64>)
        ensures
            difference.is_some() <==> other.0 <= self.0,
            difference matches Some(d) ==> d.0 == self.0 - other.0,
    {
        if other.0 > self.0 {
            None
        } else {
            Some(U64(self.0 - other.0))
        }
    }
}

impl Default for U64 {
    fn default() -> (value: U64)
        ensures
            value.0 == 0,
    {
        U64(0)
    }
}

impl State for U64 {
    open spec fn encoded(&self) -> Seq<u8> {
        spec_u64_to_le_bytes(self.0)
    }

    open spec fn decoded_from(bytes: Seq<u8>) -> Option<U64> {
        if bytes.len() >= 8 {
            Some(U64(spec_u64_from_le_bytes(bytes.subrange(0, 8))))
        } else {
            None
        }
    }

    open spec fn byte_size() -> nat {
        8
    }

    fn encode_s(&self) -> (bytes: Vec<u8>) {
        self.as_bytes()
    }

    fn decode_s(bytes: &[u8]) -> (state: Option<U64>) {
        U64::from_bytes(bytes)
    }

    fn size(&self) -> (size: usize) {
        STATE_SIZE
    }
}

impl StateDecoder for U64 {
    open spec fn stored_as(bytes: Seq<u8>) -> Option<U64> {
        U64::decoded(bytes)
    }

    fn decode_vec(v: Vec<u8>) -> (state: Option<U64>) {
        U64::decode(v.as_slice())
    }

    fn decode_mut_bytes(b: &[u8]) -> (state: Option<U64>) {
        U64::decode(b)
    }
}

/// What is read back from the bytes of an amount is the amount.
pub proof fn lemma_amount_round_trip(value: U64)
    ensures
        value.encoded().len() == STATE_SIZE,
        U64::decoded_from(value.encoded()) == Some(value),
        U64::decoded(value.encoded()) == Some(value),
{
    vstd::bytes::lemma_auto_spec_u64_to_from_le_bytes();
    assert(value.encoded().subrange(0, 8) =~= value.encoded());
}

/// The address of an account in the state of an application.
#[derive(Clone, Copy, Debug, Default, PartialEq, Eq, PartialOrd, Ord)]
pub struct Address(pub [u8; 20]);

impl View for Address {
    type V = Seq<u8>;

    open spec fn view(&self) -> Seq<u8> {
        self.0@
    }
}

impl Address {
    /// The address of the account of a user.
    pub fn from_user_address(address: &UserAddress) -> (account: Address)
        ensures
            account@ == address@,
    {
        Address(address.0)
    }

    /// The address of the user that the account belongs to.
    pub fn to_user_address(&self) -> (address: UserAddress)
        ensures
            address@ == self@,
    {
        UserAddress::from_array(self.0)
    }
}

impl IntoVec for Address {
    open spec fn bytes(&self) -> Seq<u8> {
        self@
    }

    fn into_vec(&self) -> (bytes: Vec<u8>) {
        subrange(self.0.as_slice(), 0, 20)
    }
}

/// The amount that `states` hold for `address`: zero where none was
/// written.
pub open spec fn amount_in(states: Map<Seq<u8>, Seq<u8>>, address: Seq<u8>) -> u64 {
    match U64::decoded(state_in(states, address)) {
        Some(amount) => amount.0,
        None => 0,
    }
}

/// The amounts of the accounts of an application, by address.
#[derive(Debug)]
pub struct Mapping(pub MemoryDB);

impl Mapping {
    /// The amount of the account at `address`: zero where none was set.
    pub open spec fn amount(&self, address: Seq<u8>) -> u64 {
        amount_in(self.0@, address)
    }

    /// A mapping in which every account holds nothing.
    pub fn new() -> (mapping: Mapping)
        ensures
            forall|address: Seq<u8>| mapping.amount(address) == 0,
    {
        Mapping(MemoryDB::new())
    }

    /// The amount of the account at `address`.
    pub fn get(&self, address: &Address) -> (amount: U64)
        ensures
            amount.0 == self.amount(address@),
    {
        match U64::try_from_state(&self.0.get(&address.to_user_address())) {
            Some(amount) => amount,
            None => U64(0),
        }
    }

    /// Sets the amount of the account at `address`. No other account
    /// changes.
    pub fn insert(&mut self, address: Address, amount: U64)
        ensures
            final(self).amount(address@) == amount.0,
            forall|other: Seq<u8>|
                other != address@ ==> final(self).amount(other) == old(self).amount(other),
    {
        self.0.write_one(
            StateUpdate { address: address.to_user_address(), state: amount.into_state() },
        );
    }
}

} // verus!
