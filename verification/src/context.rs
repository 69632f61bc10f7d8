//! The enclave context and the instruction pipeline that runs on it.
//!
//! One context holds the group state, the key chain of the current epoch and
//! the state store. Every call takes the context explicitly, and a call that
//! fails leaves it as it was.

use crate::application::next_chain_key;
use crate::application::opened_message;
use crate::application::opened_update;
use crate::application::sealed_message;
use crate::application::sealed_update;
use crate::application::AppKeyChain;
use crate::crypto::AccessPolicy;
use crate::crypto::Ciphertext;
use crate::crypto::LockParam;
use crate::crypto::UserAddress;
use crate::crypto::CIPHERTEXT_SIZE;
use crate::error::Error;
use crate::group_state::GroupState;
use crate::handshake::Handshake;
use crate::kvs::pairs;
use crate::kvs::state_in;
use crate::kvs::written;
use crate::kvs::MemoryDB;
use crate::kvs::StateUpdate;
use crate::primitives::keccak256_digest;
use crate::secrets::PathSecretRequest;
use crate::state_type::StateType;
use crate::state_type::STATE_SIZE;
use crate::stf::StateTransition;
use vstd::prelude::*;

verus! {

/// The most states that one instruction may write.
pub const MAX_UPDATES: usize = 65536;

/// Whether the states of `updates` can be sealed: each has the state size,
/// and there are no more than an instruction may write.
pub open spec fn sealable(updates: Seq<(Seq<u8>, Seq<u8>)>) -> bool {
    &&& updates.len() <= MAX_UPDATES
    &&& forall|i: int| 0 <= i < updates.len() ==> (#[trigger] updates[i]).1.len() == STATE_SIZE
}

/// Whether `ciphertexts` holds the states of `updates`, each sealed at its
/// position under the chain key `key`, so that it opens to the state under
/// that key.
pub open spec fn seals_updates(
    ciphertexts: Seq<Ciphertext>,
    key: Seq<u8>,
    updates: Seq<(Seq<u8>, Seq<u8>)>,
) -> bool {
    &&& ciphertexts.len() == updates.len()
    &&& forall|i: int|
        0 <= i < ciphertexts.len() ==> (#[trigger] ciphertexts[i])@ == sealed_update(
            key,
            i as u32,
            updates[i].1,
        ) && opened_update(key, i as u32, ciphertexts[i]@) == Some(updates[i].1)
}

/// Whether `lock_params` holds the lock parameter of each state of
/// `updates`: its Keccak-256 digest.
pub open spec fn locks_updates(lock_params: Seq<LockParam>, updates: Seq<(Seq<u8>, Seq<u8>)>)
    -> bool {
    &&& lock_params.len() == updates.len()
    &&& forall|i: int|
        0 <= i < lock_params.len() ==> (#[trigger] lock_params[i])@ == keccak256_digest(
            updates[i].1,
        )
}

/// What applying a received ciphertext gave.
#[derive(Debug)]
pub struct ReturnUpdatedState {
    /// Whether the state transition function accepted the instruction.
    pub accepted: bool,
    /// The states that the instruction wrote, sealed, in order.
    pub ciphertexts: Vec<Ciphertext>,
}

/// An instruction made by this enclave, ready to be attested and submitted.
#[derive(Debug)]
pub struct SealedInstruction {
    /// The instruction, sealed as the next message of this member.
    pub instruction: Ciphertext,
    /// The states that the instruction wrote, sealed, in order.
    pub ciphertexts: Vec<Ciphertext>,
    /// The lock parameter of each of those states.
    pub lock_params: Vec<LockParam>,
}

/// The context of an enclave.
#[derive(Debug)]
pub struct EnclaveContext {
    pub(crate) group_state: GroupState,
    pub(crate) key_chain: AppKeyChain,
    pub(crate) store: MemoryDB,
    /// The addresses registered for notifications, found by comparing
    /// addresses; one that was registered twice stands twice.
    pub(crate) notifications: Vec<UserAddress>,
}

impl EnclaveContext {
    /// The group state.
    pub closed spec fn group(&self) -> GroupState {
        self.group_state
    }

    /// The key chain of the current epoch.
    pub closed spec fn chain(&self) -> AppKeyChain {
        self.key_chain
    }

    /// The state written for each address.
    pub closed spec fn states(&self) -> Map<Seq<u8>, Seq<u8>> {
        self.store@
    }

    /// Whether updates of `address` are to be notified.
    pub closed spec fn notifies(&self, address: Seq<u8>) -> bool {
        exists|i: int| 0 <= i < self.notifications@.len() && self.notifications@[i]@ == address
    }

    /// The context of a member with the given group state and key chain,
    /// with an empty state store.
    pub fn new(group_state: GroupState, key_chain: AppKeyChain) -> (context: EnclaveContext)
        ensures
            context.group() == group_state,
            context.chain() == key_chain,
            context.states() == Map::<Seq<u8>, Seq<u8>>::empty(),
            forall|address: Seq<u8>| !context.notifies(address),
    {
        EnclaveContext {
            group_state,
            key_chain,
            store: MemoryDB::new(),
            notifications: Vec::new(),
        }
    }

    /// The context of a member with the given group state, with the key
    /// chain of its current epoch and an empty state store. The member must
    /// hold the root secret of the epoch.
    pub fn from_group(group_state: GroupState) -> (result: Result<EnclaveContext, Error>)
        requires
            group_state.wf(),
        ensures
            (match result {
                Ok(context) => {
                    &&& context.group() == group_state
                    &&& group_state.node(group_state.depth() as int, 0).secret() matches Some(root)
                    &&& group_state.keyed_by(&context.chain(), root)
                    &&& context.states() == Map::<Seq<u8>, Seq<u8>>::empty()
                    &&& forall|address: Seq<u8>| !context.notifies(address)
                },
                Err(e) => e == Error::MissingSecret && group_state.node(
                    group_state.depth() as int,
                    0,
                ).secret().is_none(),
            }),
    {
        let key_chain = match group_state.key_chain() {
            Ok(key_chain) => key_chain,
            Err(e) => return Err(e),
        };
        Ok(EnclaveContext::new(group_state, key_chain))
    }

    /// Empties the state store and forgets the notifications; the group and
    /// its keys stay.
    pub fn reset(&mut self)
        ensures
            final(self).group() == old(self).group(),
            final(self).chain() == old(self).chain(),
            final(self).states() == Map::<Seq<u8>, Seq<u8>>::empty(),
            forall|address: Seq<u8>| !final(self).notifies(address),
    {
        self.store = MemoryDB::new();
        self.notifications = Vec::new();
    }

    /// The group state.
    pub fn group_state(&self) -> (group_state: &GroupState)
        ensures
            *group_state == self.group(),
    {
        &self.group_state
    }

    /// The key chain of the current epoch.
    pub fn key_chain(&self) -> (key_chain: &AppKeyChain)
        ensures
            *key_chain == self.chain(),
    {
        &self.key_chain
    }

    /// The state store.
    pub fn store(&self) -> (store: &MemoryDB)
        ensures
            store@ == self.states(),
    {
        &self.store
    }

    /// Whether updates of `address` are to be notified.
    pub fn is_notified(&self, address: &UserAddress) -> (notified: bool)
        ensures
            notified == self.notifies(address@),
    {
        let mut i: usize = 0;
        while i < self.notifications.len()
            invariant
                i <= self.notifications@.len(),
                forall|j: int| 0 <= j < i ==> self.notifications@[j]@ != address@,
            decreases self.notifications.len() - i,
        {
            if self.notifications[i].same(address) {
                return true;
            }
            i += 1;
        }
        false
    }

    /// Why the context refuses the ciphertext of an instruction of
    /// `roster_idx`, if it does: the ciphertext has the wrong length, the
    /// member has no usable chain, the ciphertext does not open, or the
    /// states that the function would write cannot be sealed.
    pub open spec fn refusal<T: StateTransition>(
        &self,
        stf: &T,
        roster_idx: int,
        ciphertext: Seq<u8>,
    ) -> Option<Error> {
        if ciphertext.len() != CIPHERTEXT_SIZE {
            Some(Error::MalformedCiphertext)
        } else if !self.chain().usable(roster_idx) {
            Some(Error::UnknownMember)
        } else {
            match opened_message(self.chain().chain_key(roster_idx), ciphertext) {
                None => Some(Error::MalformedCiphertext),
                Some(payload) => match stf.transition(payload, self.states()) {
                    Some(updates) => if sealable(updates) {
                        None
                    } else {
                        Some(Error::StateSizeMismatch)
                    },
                    None => None,
                },
            }
        }
    }

    /// Whether `self` is `before` after an instruction of `roster_idx` has
    /// run, for which the state transition function gave `updates`: the
    /// states that the function asked for are written, or none if it
    /// rejected the instruction; the chain of `roster_idx` has moved one
    /// step; nothing else has changed.
    pub open spec fn ran(
        &self,
        before: &EnclaveContext,
        roster_idx: int,
        updates: Option<Seq<(Seq<u8>, Seq<u8>)>>,
    ) -> bool {
        &&& self.group() == before.group()
        &&& self.chain().ratcheted_from(&before.chain(), roster_idx)
        &&& forall|address: Seq<u8>| self.notifies(address) == before.notifies(address)
        &&& self.states() == match updates {
            Some(updates) => written(before.states(), updates),
            None => before.states(),
        }
    }

    /// Whether `self` is `before` after this member has made an instruction
    /// for `caller`, for which the state transition function gave
    /// `updates`: the states are written, the chain of `roster_idx` has
    /// moved one step, and `caller` is registered for notifications. No
    /// other registration and nothing of the group has changed.
    pub open spec fn made(
        &self,
        before: &EnclaveContext,
        roster_idx: int,
        updates: Seq<(Seq<u8>, Seq<u8>)>,
        caller: Seq<u8>,
    ) -> bool {
        &&& self.group() == before.group()
        &&& self.chain().ratcheted_from(&before.chain(), roster_idx)
        &&& self.states() == written(before.states(), updates)
        &&& self.notifies(caller)
        &&& forall|address: Seq<u8>|
            address != caller ==> self.notifies(address) == before.notifies(address)
    }

    /// Seals the states of `updates` under the current chain key of
    /// `roster_idx`, in order.
    fn seal_updates(&self, roster_idx: usize, updates: &Vec<StateUpdate>) -> (result: Result<
        Vec<Ciphertext>,
        Error,
    >)
        requires
            self.chain().slot(roster_idx as int).is_some(),
        ensures
            (match result {
                Ok(ciphertexts) => sealable(pairs(updates@)) && seals_updates(
                    ciphertexts@,
                    self.chain().chain_key(roster_idx as int),
                    pairs(updates@),
                ),
                Err(e) => e == Error::StateSizeMismatch && !sealable(pairs(updates@)),
            }),
    {
        if updates.len() > MAX_UPDATES {
            return Err(Error::StateSizeMismatch);
        }
        let mut ciphertexts: Vec<Ciphertext> = Vec::new();
        let mut i: usize = 0;
        while i < updates.len()
            invariant
                i <= updates@.len() <= MAX_UPDATES,
                self.chain().slot(roster_idx as int).is_some(),
                ciphertexts@.len() == i,
                forall|j: int| 0 <= j < i ==> (#[trigger] pairs(updates@)[j]).1.len() == STATE_SIZE,
                forall|j: int|
                    0 <= j < i ==> (#[trigger] ciphertexts@[j])@ == sealed_update(
                        self.chain().chain_key(roster_idx as int),
                        j as u32,
                        pairs(updates@)[j].1,
                    ) && opened_update(
                        self.chain().chain_key(roster_idx as int),
                        j as u32,
                        ciphertexts@[j]@,
                    ) == Some(pairs(updates@)[j].1),
            decreases updates.len() - i,
        {
            match self.key_chain.seal_update(roster_idx, i as u32, updates[i].state.as_bytes()) {
                Ok(ciphertext) => {
                    ciphertexts.push(ciphertext);
                },
                Err(_) => {
                    assert(pairs(updates@)[i as int].1.len() != STATE_SIZE);
                    return Err(Error::StateSizeMismatch);
                },
            }
            i += 1;
        }
        Ok(ciphertexts)
    }

    /// Applies a ciphertext received from the log as the next instruction
    /// of the member at `roster_idx`: opens it, runs the state transition
    /// function, writes the states it asks for, seals each of them, and
    /// moves the chain of `roster_idx` one step. The chain moves whether or
    /// not the function accepts the instruction. A ciphertext that is
    /// refused changes nothing.
    pub fn insert_ciphertext<T: StateTransition>(
        &mut self,
        stf: &T,
        roster_idx: usize,
        ciphertext: &[u8],
    ) -> (result: Result<ReturnUpdatedState, Error>)
        ensures
            (match result {
                Ok(output) => {
                    &&& old(self).refusal(stf, roster_idx as int, ciphertext@).is_none()
                    &&& opened_message(old(self).chain().chain_key(roster_idx as int), ciphertext@)
                        matches Some(payload)
                    &&& final(self).ran(
                        old(self),
                        roster_idx as int,
                        stf.transition(payload, old(self).states()),
                    )
                    &&& output.accepted == stf.transition(payload, old(self).states()).is_some()
                    &&& seals_updates(
                        output.ciphertexts@,
                        old(self).chain().chain_key(roster_idx as int),
                        match stf.transition(payload, old(self).states()) {
                            Some(updates) => updates,
                            None => Seq::empty(),
                        },
                    )
                },
                Err(e) => old(self).refusal(stf, roster_idx as int, ciphertext@) == Some(e)
                    && *final(self) == *old(self),
            }),
    {
        let payload = match self.key_chain.open_msg(roster_idx, ciphertext) {
            Ok(payload) => payload,
            Err(e) => return Err(e),
        };
        let output = match stf.apply(payload.as_slice(), &self.store) {
            Some(updates) => {
                let ciphertexts = match self.seal_updates(roster_idx, &updates) {
                    Ok(ciphertexts) => ciphertexts,
                    Err(e) => return Err(e),
                };
                self.store.write(&updates);
                ReturnUpdatedState { accepted: true, ciphertexts }
            },
            None => ReturnUpdatedState { accepted: false, ciphertexts: Vec::new() },
        };
        let ratcheted = self.key_chain.ratchet(roster_idx);
        assert(ratcheted.is_ok());
        assert(self.notifications == old(self).notifications);
        assert(self.ran(
            old(self),
            roster_idx as int,
            stf.transition(payload@, old(self).states()),
        ));
        Ok(output)
    }

    /// Applies a handshake received from the log: moves the group to the
    /// next epoch and replaces the key chain by that of the new epoch. A
    /// handshake that is refused changes nothing.
    pub fn insert_handshake(&mut self, handshake: &Handshake, req: &PathSecretRequest) -> (result:
        Result<(), Error>)
        requires
            old(self).group().wf(),
        ensures
            (match result {
                Ok(()) => {
                    &&& old(self).group().outcome(handshake, req) matches Ok(secret)
                    &&& final(self).group().follows(&old(self).group(), handshake, secret)
                    &&& final(self).group().is_member()
                    &&& final(self).group().held_root() matches Some(root)
                    &&& final(self).group().keyed_by(&final(self).chain(), root)
                    &&& final(self).states() == old(self).states()
                    &&& forall|address: Seq<u8>|
                        final(self).notifies(address) == old(self).notifies(address)
                },
                Err(e) => old(self).group().outcome(handshake, req) == Err::<Seq<u8>, Error>(e)
                    && *final(self) == *old(self),
            }),
    {
        match self.group_state.process_handshake(handshake, req) {
            Ok(key_chain) => {
                self.key_chain = key_chain;
                assert(self.notifications == old(self).notifications);
                Ok(())
            },
            Err(e) => Err(e),
        }
    }

    /// The state of the holder of `policy`, once its signature has
    /// been checked.
    pub fn get_state(&self, policy: &AccessPolicy) -> (result: Result<StateType, Error>)
        ensures
            result.is_ok() <==> policy.valid(),
            result matches Ok(state) ==> state@ == state_in(
                self.states(),
                policy.account(),
            ),
            result matches Err(e) ==> e == Error::InvalidCapability,
    {
        let address = match policy.verified_account_id() {
            Ok(address) => address,
            Err(e) => return Err(e),
        };
        Ok(self.store.get(&address))
    }

    /// Registers `address` for notifications. Nothing else changes.
    fn notify(&mut self, address: UserAddress)
        ensures
            final(self).notifies(address@),
            forall|other: Seq<u8>|
                other != address@ ==> final(self).notifies(other) == old(self).notifies(other),
            final(self).group_state == old(self).group_state,
            final(self).key_chain == old(self).key_chain,
            final(self).store == old(self).store,
    {
        let ghost before = self.notifications@;
        self.notifications.push(address);
        proof {
            assert(self.notifications@[before.len() as int]@ == address@);
            assert forall|other: Seq<u8>| other != address@ implies self.notifies(other)
                == old(self).notifies(other) by {
                if self.notifies(other) {
                    let i = choose|i: int|
                        0 <= i < self.notifications@.len() && self.notifications@[i]@ == other;
                    assert(before[i]@ == other);
                }
                if old(self).notifies(other) {
                    let i = choose|i: int| 0 <= i < before.len() && before[i]@ == other;
                    assert(self.notifications@[i]@ == other);
                }
            }
        }
    }

    /// Registers the holder of `policy` for notifications, once its
    /// signature has been checked. Nothing is registered for a signature
    /// that does not verify.
    pub fn register_notification(&mut self, policy: &AccessPolicy) -> (result: Result<
        UserAddress,
        Error,
    >)
        ensures
            result.is_ok() <==> policy.valid(),
            result matches Ok(address) ==> address@ == policy.account(),
            result.is_ok() ==> final(self).notifies(policy.account()),
            result.is_ok() ==> forall|other: Seq<u8>|
                other != policy.account() ==> final(self).notifies(other) == old(self).notifies(
                    other,
                ),
            result matches Err(e) ==> e == Error::InvalidCapability && *final(self) == *old(self),
            final(self).group() == old(self).group(),
            final(self).chain() == old(self).chain(),
            final(self).states() == old(self).states(),
    {
        let address = match policy.verified_account_id() {
            Ok(address) => address,
            Err(e) => return Err(e),
        };
        self.notify(address);
        Ok(address)
    }

    /// Why the context refuses to make an instruction, if it does. The
    /// capability comes first: the signature must verify, and the caller of
    /// the function must be the holder of the policy.
    pub open spec fn construction_refusal(
        &self,
        policy: &AccessPolicy,
        caller: Seq<u8>,
        payload: Seq<u8>,
        updates: Option<Seq<(Seq<u8>, Seq<u8>)>>,
    ) -> Option<Error> {
        let me = self.group().my_roster_idx() as int;
        if !policy.valid() || policy.account() != caller {
            Some(Error::InvalidCapability)
        } else if payload.len() != STATE_SIZE {
            Some(Error::StateSizeMismatch)
        } else if !self.chain().usable(me) {
            Some(Error::UnknownMember)
        } else {
            match updates {
                Some(updates) => if sealable(updates) {
                    None
                } else {
                    Some(Error::StateSizeMismatch)
                },
                None => None,
            }
        }
    }

    /// Makes an instruction of this member: checks the capability of the
    /// caller, runs the state transition function, and, if the function
    /// accepts, writes the states it asks for, seals the instruction as the
    /// next message of this member, moves this member's chain one step, and
    /// registers the caller for notifications. Returns `None`, with nothing
    /// changed, where the function rejects the instruction. A call that is
    /// refused changes nothing.
    pub fn construct_instruction<T: StateTransition>(
        &mut self,
        stf: &T,
        policy: &AccessPolicy,
        payload: &[u8],
    ) -> (result: Result<Option<SealedInstruction>, Error>)
        ensures
            (match result {
                Ok(Some(sealed)) => {
                    &&& old(self).construction_refusal(
                        policy,
                        stf.caller_address(),
                        payload@,
                        stf.transition(payload@, old(self).states()),
                    ).is_none()
                    &&& stf.transition(payload@, old(self).states()) matches Some(updates)
                    &&& final(self).made(
                        old(self),
                        old(self).group().my_roster_idx() as int,
                        updates,
                        policy.account(),
                    )
                    &&& sealed.instruction@ == sealed_message(
                        old(self).chain().chain_key(old(self).group().my_roster_idx() as int),
                        payload@,
                    )
                    &&& opened_message(
                        old(self).chain().chain_key(old(self).group().my_roster_idx() as int),
                        sealed.instruction@,
                    ) == Some(payload@)
                    &&& seals_updates(
                        sealed.ciphertexts@,
                        old(self).chain().chain_key(old(self).group().my_roster_idx() as int),
                        updates,
                    )
                    &&& locks_updates(sealed.lock_params@, updates)
                },
                Ok(None) => old(self).construction_refusal(
                    policy,
                    stf.caller_address(),
                    payload@,
                    stf.transition(payload@, old(self).states()),
                ).is_none() && stf.transition(payload@, old(self).states()).is_none()
                    && *final(self) == *old(self),
                Err(e) => old(self).construction_refusal(
                    policy,
                    stf.caller_address(),
                    payload@,
                    stf.transition(payload@, old(self).states()),
                ) == Some(e) && *final(self) == *old(self),
            }),
    {
        let address = match policy.verified_account_id() {
            Ok(address) => address,
            Err(e) => return Err(e),
        };
        if !address.same(&stf.caller()) {
            return Err(Error::InvalidCapability);
        }
        let me: usize = self.group_state.my_roster_idx() as usize;
        let instruction = match self.key_chain.seal_msg(me, payload) {
            Ok(instruction) => instruction,
            Err(e) => return Err(e),
        };
        let updates = match stf.apply(payload, &self.store) {
            Some(updates) => updates,
            None => return Ok(None),
        };
        let ciphertexts = match self.seal_updates(me, &updates) {
            Ok(ciphertexts) => ciphertexts,
            Err(e) => return Err(e),
        };
        let mut lock_params: Vec<LockParam> = Vec::new();
        let mut i: usize = 0;
        while i < updates.len()
            invariant
                i <= updates@.len(),
                lock_params@.len() == i,
                forall|j: int|
                    0 <= j < i ==> (#[trigger] lock_params@[j])@ == keccak256_digest(
                        pairs(updates@)[j].1,
                    ),
            decreases updates.len() - i,
        {
            lock_params.push(LockParam::of_state(updates[i].state.as_bytes()));
            i += 1;
        }
        self.store.write(&updates);
        let ratcheted = self.key_chain.ratchet(me);
        assert(ratcheted.is_ok());
        assert(self.notifications == old(self).notifications);
        let ghost written = *self;
        self.notify(address);
        proof {
            assert forall|other: Seq<u8>| other != policy.account() implies self.notifies(other)
                == old(self).notifies(other) by {
                assert(written.notifies(other) == old(self).notifies(other));
            }
        }
        Ok(Some(SealedInstruction { instruction, ciphertexts, lock_params }))
    }
}

} // verus!
