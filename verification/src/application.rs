//! The application key chain: one ratcheting chain of symmetric keys for each
//! member of the roster, derived from the root secret of an epoch.

use crate::bytes::array_from_slice;
use crate::crypto::Ciphertext;
use crate::crypto::CIPHERTEXT_SIZE;
use crate::error::Error;
use crate::handshake::sealing_nonce;
use crate::primitives::aead_open;
use crate::primitives::aead_opened;
use crate::primitives::aead_seal;
use crate::primitives::aead_sealed;
use crate::primitives::IV_SIZE;
use crate::secrets::derive_key;
use crate::secrets::kdf;
use crate::secrets::PathSecret;
use crate::secrets::LABEL_APP;
use crate::secrets::LABEL_MESSAGE;
use crate::secrets::LABEL_RATCHET;
use crate::secrets::LABEL_UPDATE;
use crate::state_type::STATE_SIZE;
use crate::tree_math::MAX_ROSTER;
use vstd::prelude::*;

verus! {

/// The first chain key of the member at `roster_idx` in the epoch whose root
/// secret is `root`.
pub open spec fn first_chain_key(root: Seq<u8>, roster_idx: u32) -> Seq<u8> {
    kdf(LABEL_APP, roster_idx, root)
}

/// The chain key that follows `key`.
pub open spec fn next_chain_key(key: Seq<u8>) -> Seq<u8> {
    kdf(LABEL_RATCHET, 0, key)
}

/// The chain key `steps` ratchet steps after `key`.
pub open spec fn chain_key_after(key: Seq<u8>, steps: nat) -> Seq<u8>
    decreases steps,
{
    if steps == 0 {
        key
    } else {
        next_chain_key(chain_key_after(key, (steps - 1) as nat))
    }
}

/// The key that seals the one message sent under the chain key `key`.
pub open spec fn message_key(key: Seq<u8>) -> Seq<u8> {
    kdf(LABEL_MESSAGE, 0, key)
}

/// The key that seals the `position`-th state that the message under the
/// chain key `key` updated.
pub open spec fn update_key(key: Seq<u8>, position: u32) -> Seq<u8> {
    kdf(LABEL_UPDATE, position, key)
}

/// The message `plaintext` sealed under the chain key `key`.
pub open spec fn sealed_message(key: Seq<u8>, plaintext: Seq<u8>) -> Seq<u8> {
    aead_sealed(message_key(key), sealing_nonce(), plaintext)
}

/// What `ciphertext` opens to under the chain key `key`.
pub open spec fn opened_message(key: Seq<u8>, ciphertext: Seq<u8>) -> Option<Seq<u8>> {
    aead_opened(message_key(key), sealing_nonce(), ciphertext)
}

/// The `position`-th updated state sealed under the chain key `key`.
pub open spec fn sealed_update(key: Seq<u8>, position: u32, state: Seq<u8>) -> Seq<u8> {
    aead_sealed(update_key(key, position), sealing_nonce(), state)
}

/// What the `position`-th updated state opens to under the chain key `key`.
pub open spec fn opened_update(key: Seq<u8>, position: u32, ciphertext: Seq<u8>) -> Option<
    Seq<u8>,
> {
    aead_opened(update_key(key, position), sealing_nonce(), ciphertext)
}

/// The state of one member's chain: the current chain key and the number of
/// ratchet steps taken in this epoch.
#[derive(Clone, Copy, Debug)]
pub struct RatchetState {
    pub key: [u8; 32],
    pub generation: u64,
}

/// The key chains of an epoch, one for each live member of the roster.
#[derive(Debug)]
pub struct AppKeyChain {
    slots: Vec<Option<RatchetState>>,
}

impl AppKeyChain {
    /// The number of roster indices the chain covers.
    pub closed spec fn roster_len(&self) -> nat {
        self.slots@.len()
    }

    /// The chain of the member at `roster_idx`: `None` for an index outside
    /// the roster or a blank leaf.
    pub closed spec fn slot(&self, roster_idx: int) -> Option<RatchetState> {
        if 0 <= roster_idx < self.slots@.len() {
            self.slots@[roster_idx]
        } else {
            None
        }
    }

    /// The current chain key of `roster_idx`, where it has a chain.
    pub open spec fn chain_key(&self, roster_idx: int) -> Seq<u8> {
        self.slot(roster_idx).unwrap().key@
    }

    /// The number of ratchet steps that the chain of `roster_idx` has taken,
    /// where it has a chain.
    pub open spec fn generation(&self, roster_idx: int) -> u64 {
        self.slot(roster_idx).unwrap().generation
    }

    /// Whether the chain of `roster_idx` can be used: it exists and its
    /// counter can still advance.
    pub open spec fn usable(&self, roster_idx: int) -> bool {
        self.slot(roster_idx).is_some() && self.generation(roster_idx) < u64::MAX
    }

    /// Whether `self` is `before` after one ratchet step of `roster_idx`:
    /// that chain has moved on by one key and one count, and no other chain
    /// has changed.
    pub open spec fn ratcheted_from(&self, before: &AppKeyChain, roster_idx: int) -> bool {
        &&& self.roster_len() == before.roster_len()
        &&& before.slot(roster_idx).is_some()
        &&& self.slot(roster_idx).is_some()
        &&& self.chain_key(roster_idx) == next_chain_key(before.chain_key(roster_idx))
        &&& self.generation(roster_idx) == before.generation(roster_idx) + 1
        &&& forall|other: int| other != roster_idx ==> self.slot(other) == before.slot(other)
    }

    /// The chains of the epoch whose root secret is `root`: a fresh chain
    /// for every roster index that `live` marks, none for the others.
    pub fn from_root_secret(root: &PathSecret, live: &Vec<bool>) -> (chain: AppKeyChain)
        requires
            live@.len() <= MAX_ROSTER,
        ensures
            chain.roster_len() == live@.len(),
            forall|i: int|
                0 <= i < live@.len() && live@[i] ==> (#[trigger] chain.slot(i)).is_some()
                    && chain.chain_key(i) == first_chain_key(root@, i as u32) && chain.generation(
                    i,
                ) == 0,
            forall|i: int|
                0 <= i < live@.len() && !live@[i] ==> (#[trigger] chain.slot(i)).is_none(),
    {
        let mut slots: Vec<Option<RatchetState>> = Vec::new();
        let mut i: usize = 0;
        while i < live.len()
            invariant
                i <= live@.len() <= MAX_ROSTER,
                slots@.len() == i,
                forall|j: int|
                    0 <= j < i && live@[j] ==> (#[trigger] slots@[j]).is_some()
                        && slots@[j].unwrap().key@ == first_chain_key(root@, j as u32)
                        && slots@[j].unwrap().generation == 0,
                forall|j: int| 0 <= j < i && !live@[j] ==> (#[trigger] slots@[j]).is_none(),
            decreases live.len() - i,
        {
            if live[i] {
                let key = derive_key(LABEL_APP, i as u32, root.as_bytes());
                slots.push(Some(RatchetState { key, generation: 0 }));
            } else {
                slots.push(None);
            }
            i += 1;
        }
        AppKeyChain { slots }
    }

    /// The current chain of `roster_idx`.
    pub fn ratchet_state(&self, roster_idx: usize) -> (state: Option<RatchetState>)
        ensures
            state == self.slot(roster_idx as int),
    {
        if roster_idx < self.slots.len() {
            self.slots[roster_idx]
        } else {
            None
        }
    }

    /// Moves the chain of `roster_idx` one step forward. The step cannot be
    /// undone: the new key is derived from the old one, which is dropped.
    pub fn ratchet(&mut self, roster_idx: usize) -> (result: Result<(), Error>)
        ensures
            result.is_ok() <==> old(self).usable(roster_idx as int),
            result.is_ok() ==> final(self).ratcheted_from(old(self), roster_idx as int),
            result matches Err(e) ==> e == Error::UnknownMember && *final(self) == *old(self),
    {
        if roster_idx >= self.slots.len() {
            return Err(Error::UnknownMember);
        }
        match self.slots[roster_idx] {
            Some(state) => {
                if state.generation == u64::MAX {
                    return Err(Error::UnknownMember);
                }
                let key = derive_key(LABEL_RATCHET, 0, state.key.as_slice());
                self.slots.set(
                    roster_idx,
                    Some(RatchetState { key, generation: state.generation + 1 }),
                );
                Ok(())
            },
            None => Err(Error::UnknownMember),
        }
    }

    /// Opens `ciphertext` under the current chain key of `roster_idx`,
    /// without moving the chain.
    pub fn open_msg(&self, roster_idx: usize, ciphertext: &[u8]) -> (result: Result<Vec<u8>, Error>)
        ensures
            (match result {
                Ok(plaintext) => ciphertext@.len() == CIPHERTEXT_SIZE && self.usable(
                    roster_idx as int,
                ) && opened_message(self.chain_key(roster_idx as int), ciphertext@)
                    == Some(plaintext@) && plaintext@.len() == STATE_SIZE,
                Err(Error::MalformedCiphertext) => ciphertext@.len() != CIPHERTEXT_SIZE || (
                self.usable(roster_idx as int) && opened_message(
                    self.chain_key(roster_idx as int),
                    ciphertext@,
                ).is_none()),
                Err(Error::UnknownMember) => ciphertext@.len() == CIPHERTEXT_SIZE && !self.usable(
                    roster_idx as int,
                ),
                Err(_) => false,
            }),
    {
        if ciphertext.len() != CIPHERTEXT_SIZE {
            return Err(Error::MalformedCiphertext);
        }
        let state = match self.ratchet_state(roster_idx) {
            Some(state) => state,
            None => return Err(Error::UnknownMember),
        };
        if state.generation == u64::MAX {
            return Err(Error::UnknownMember);
        }
        let key = derive_key(LABEL_MESSAGE, 0, state.key.as_slice());
        let nonce = [0u8; IV_SIZE];
        assert(nonce@ =~= sealing_nonce());
        match aead_open(&key, &nonce, ciphertext) {
            Some(plaintext) => Ok(plaintext),
            None => Err(Error::MalformedCiphertext),
        }
    }

    /// Seals `plaintext` under the current chain key of `roster_idx`,
    /// without moving the chain.
    pub fn seal_msg(&self, roster_idx: usize, plaintext: &[u8]) -> (result: Result<
        Ciphertext,
        Error,
    >)
        ensures
            (match result {
                Ok(ciphertext) => plaintext@.len() == STATE_SIZE && self.usable(roster_idx as int)
                    && ciphertext@ == sealed_message(
                    self.chain_key(roster_idx as int),
                    plaintext@,
                ) && opened_message(self.chain_key(roster_idx as int), ciphertext@)
                    == Some(plaintext@),
                Err(Error::StateSizeMismatch) => plaintext@.len() != STATE_SIZE,
                Err(Error::UnknownMember) => plaintext@.len() == STATE_SIZE && !self.usable(
                    roster_idx as int,
                ),
                Err(_) => false,
            }),
    {
        if plaintext.len() != STATE_SIZE {
            return Err(Error::StateSizeMismatch);
        }
        let state = match self.ratchet_state(roster_idx) {
            Some(state) => state,
            None => return Err(Error::UnknownMember),
        };
        if state.generation == u64::MAX {
            return Err(Error::UnknownMember);
        }
        let key = derive_key(LABEL_MESSAGE, 0, state.key.as_slice());
        let nonce = [0u8; IV_SIZE];
        assert(nonce@ =~= sealing_nonce());
        let sealed = aead_seal(&key, &nonce, plaintext);
        Ok(Ciphertext(array_from_slice::<CIPHERTEXT_SIZE>(sealed.as_slice())))
    }

    /// Seals the `position`-th state that a message updated, under a key
    /// derived from the current chain key of `roster_idx`. The chain does
    /// not move.
    pub fn seal_update(&self, roster_idx: usize, position: u32, state: &[u8]) -> (result: Result<
        Ciphertext,
        Error,
    >)
        ensures
            (match result {
                Ok(ciphertext) => state@.len() == STATE_SIZE && self.slot(
                    roster_idx as int,
                ).is_some() && ciphertext@ == sealed_update(
                    self.chain_key(roster_idx as int),
                    position,
                    state@,
                ) && opened_update(self.chain_key(roster_idx as int), position, ciphertext@)
                    == Some(state@),
                Err(Error::StateSizeMismatch) => state@.len() != STATE_SIZE,
                Err(Error::UnknownMember) => state@.len() == STATE_SIZE && self.slot(
                    roster_idx as int,
                ).is_none(),
                Err(_) => false,
            }),
    {
        if state.len() != STATE_SIZE {
            return Err(Error::StateSizeMismatch);
        }
        let slot = match self.ratchet_state(roster_idx) {
            Some(slot) => slot,
            None => return Err(Error::UnknownMember),
        };
        let key = derive_key(LABEL_UPDATE, position, slot.key.as_slice());
        let nonce = [0u8; IV_SIZE];
        assert(nonce@ =~= sealing_nonce());
        let sealed = aead_seal(&key, &nonce, state);
        Ok(Ciphertext(array_from_slice::<CIPHERTEXT_SIZE>(sealed.as_slice())))
    }

    /// Opens the `position`-th updated state under a key derived from the
    /// current chain key of `roster_idx`. The chain does not move.
    pub fn open_update(&self, roster_idx: usize, position: u32, ciphertext: &[u8]) -> (result:
        Result<Vec<u8>, Error>)
        ensures
            (match result {
                Ok(state) => ciphertext@.len() == CIPHERTEXT_SIZE && self.slot(
                    roster_idx as int,
                ).is_some() && opened_update(
                    self.chain_key(roster_idx as int),
                    position,
                    ciphertext@,
                ) == Some(state@) && state@.len() == STATE_SIZE,
                Err(Error::MalformedCiphertext) => ciphertext@.len() != CIPHERTEXT_SIZE || (
                self.slot(roster_idx as int).is_some() && opened_update(
                    self.chain_key(roster_idx as int),
                    position,
                    ciphertext@,
                ).is_none()),
                Err(Error::UnknownMember) => ciphertext@.len() == CIPHERTEXT_SIZE && self.slot(
                    roster_idx as int,
                ).is_none(),
                Err(_) => false,
            }),
    {
        if ciphertext.len() != CIPHERTEXT_SIZE {
            return Err(Error::MalformedCiphertext);
        }
        let slot = match self.ratchet_state(roster_idx) {
            Some(slot) => slot,
            None => return Err(Error::UnknownMember),
        };
        let key = derive_key(LABEL_UPDATE, position, slot.key.as_slice());
        let nonce = [0u8; IV_SIZE];
        assert(nonce@ =~= sealing_nonce());
        match aead_open(&key, &nonce, ciphertext) {
            Some(state) => Ok(state),
            None => Err(Error::MalformedCiphertext),
        }
    }

    /// Seals `plaintext` as the next message of `roster_idx` and moves that
    /// chain one step forward, so that the key is never used again.
    pub fn encrypt_msg(&mut self, roster_idx: usize, plaintext: &[u8]) -> (result: Result<
        Ciphertext,
        Error,
    >)
        ensures
            (match result {
                Ok(ciphertext) => plaintext@.len() == STATE_SIZE && old(self).usable(
                    roster_idx as int,
                ) && ciphertext@ == sealed_message(
                    old(self).chain_key(roster_idx as int),
                    plaintext@,
                ) && opened_message(old(self).chain_key(roster_idx as int), ciphertext@)
                    == Some(plaintext@) && final(self).ratcheted_from(old(self), roster_idx as int),
                Err(Error::StateSizeMismatch) => plaintext@.len() != STATE_SIZE && *final(self)
                    == *old(self),
                Err(Error::UnknownMember) => plaintext@.len() == STATE_SIZE && !old(self).usable(
                    roster_idx as int,
                ) && *final(self) == *old(self),
                Err(_) => false,
            }),
    {
        let ciphertext = match self.seal_msg(roster_idx, plaintext) {
            Ok(ciphertext) => ciphertext,
            Err(e) => return Err(e),
        };
        match self.ratchet(roster_idx) {
            Ok(()) => Ok(ciphertext),
            Err(e) => Err(e),
        }
    }

    /// Opens `ciphertext` as the next message of `roster_idx` and, if it
    /// opens, moves that chain one step forward. A ciphertext that does not
    /// open leaves the chain where it was.
    pub fn decrypt_msg(&mut self, roster_idx: usize, ciphertext: &[u8]) -> (result: Result<
        Vec<u8>,
        Error,
    >)
        ensures
            (match result {
                Ok(plaintext) => {
                    &&& ciphertext@.len() == CIPHERTEXT_SIZE
                    &&& old(self).usable(roster_idx as int)
                    &&& opened_message(old(self).chain_key(roster_idx as int), ciphertext@)
                        == Some(plaintext@)
                    &&& plaintext@.len() == STATE_SIZE
                    &&& final(self).ratcheted_from(old(self), roster_idx as int)
                },
                Err(Error::MalformedCiphertext) => {
                    &&& ciphertext@.len() != CIPHERTEXT_SIZE || (old(self).usable(
                        roster_idx as int,
                    ) && opened_message(
                        old(self).chain_key(roster_idx as int),
                        ciphertext@,
                    ).is_none())
                    &&& *final(self) == *old(self)
                },
                Err(Error::UnknownMember) => {
                    &&& ciphertext@.len() == CIPHERTEXT_SIZE
                    &&& !old(self).usable(roster_idx as int)
                    &&& *final(self) == *old(self)
                },
                Err(_) => false,
            }),
    {
        let plaintext = match self.open_msg(roster_idx, ciphertext) {
            Ok(plaintext) => plaintext,
            Err(e) => return Err(e),
        };
        match self.ratchet(roster_idx) {
            Ok(()) => Ok(plaintext),
            Err(e) => Err(e),
        }
    }
}

/// A chain that is used twice is used under two keys in a row: the second
/// use finds the chain one step on, with the key derived from the key of the
/// first use, and the count one higher. No use finds the chain where an
/// earlier use found it.
pub proof fn lemma_ratchet_only_advances(
    first: &AppKeyChain,
    second: &AppKeyChain,
    third: &AppKeyChain,
    roster_idx: int,
)
    requires
        second.ratcheted_from(first, roster_idx),
        third.ratcheted_from(second, roster_idx),
    ensures
        first.generation(roster_idx) < second.generation(roster_idx) < third.generation(
            roster_idx,
        ),
        second.chain_key(roster_idx) == chain_key_after(first.chain_key(roster_idx), 1),
        third.chain_key(roster_idx) == chain_key_after(first.chain_key(roster_idx), 2),
        forall|other: int| other != roster_idx ==> third.slot(other) == first.slot(other),
{
    reveal_with_fuel(chain_key_after, 3);
}

} // verus!
