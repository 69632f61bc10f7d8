//! What the types of an application state have in common: an encoding, and
//! names that stand for numbers.

use vstd::prelude::*;

verus! {

/// A state of a user that can be written as bytes and read back.
pub trait State: Sized {
    /// The bytes of the state.
    spec fn encoded(&self) -> Seq<u8>;

    /// The state that `bytes` hold, if they hold one.
    spec fn decoded_from(bytes: Seq<u8>) -> Option<Self>;

    /// The number of bytes that the state takes.
    spec fn byte_size() -> nat;

    /// Writes the state as bytes.
    fn encode_s(&self) -> (bytes: Vec<u8>)
        ensures
            bytes@ == self.encoded(),
    ;

    /// Reads a state from bytes.
    fn decode_s(bytes: &[u8]) -> (state: Option<Self>)
        ensures
            state == Self::decoded_from(bytes@),
    ;

    /// The number of bytes that the state takes.
    fn size(&self) -> (size: usize)
        ensures
            size == Self::byte_size(),
    ;
}

/// Reads a state of one type from the bytes of a state of another.
pub fn from_state<T: State, S: State>(state: &S) -> (converted: Option<T>)
    ensures
        converted == T::decoded_from(state.encoded()),
{
    let bytes = state.encode_s();
    T::decode_s(bytes.as_slice())
}

/// A state that can be read from what the store holds, where no bytes stand
/// for the state that was never written.
pub trait StateDecoder: State {
    /// The state that `bytes` from the store hold, if they hold one.
    spec fn stored_as(bytes: Seq<u8>) -> Option<Self>;

    /// Reads a state from a vector of bytes.
    fn decode_vec(v: Vec<u8>) -> (state: Option<Self>)
        ensures
            state == Self::stored_as(v@),
    ;

    /// Reads a state from a slice of bytes.
    fn decode_mut_bytes(b: &[u8]) -> (state: Option<Self>)
        ensures
            state == Self::stored_as(b@),
    ;
}

/// A value that can be written as a vector of bytes.
pub trait IntoVec {
    /// The bytes of the value.
    spec fn bytes(&self) -> Seq<u8>;

    /// Writes the value as bytes.
    fn into_vec(&self) -> (bytes: Vec<u8>)
        ensures
            bytes@ == self.bytes(),
    ;
}

/// The number of a kind of memory that states are kept in.
#[derive(Clone, Copy, Debug, PartialEq, Eq, Structural, Hash)]
pub struct MemId(pub u32);

impl MemId {
    /// The number.
    pub fn as_raw(&self) -> (raw: u32)
        ensures
            raw == self.0,
    {
        self.0
    }
}

/// The names of the kinds of memory of an application, and their numbers.
pub trait MemNameConverter {
    /// Whether `name` names a kind of memory.
    spec fn names_memory(name: Seq<char>) -> bool;

    /// The number of the kind of memory that `name` names.
    spec fn memory_id(name: Seq<char>) -> MemId;

    /// The number of the kind of memory that `name` names.
    fn as_id(name: &str) -> (id: MemId)
        requires
            Self::names_memory(name@),
        ensures
            id == Self::memory_id(name@),
    ;
}

/// The names of the calls of an application, and their numbers.
pub trait CallNameConverter {
    /// Whether `name` names a call.
    spec fn names_call(name: Seq<char>) -> bool;

    /// The number of the call that `name` names.
    spec fn call_id(name: Seq<char>) -> u32;

    /// The number of the call that `name` names.
    fn as_id(name: &str) -> (id: u32)
        requires
            Self::names_call(name@),
        ensures
            id == Self::call_id(name@),
    ;
}

} // verus!
