//! Path secrets, the store that holds them, and the one-way derivations that
//! turn a secret into the next secret, into a key pair and into keys.

use crate::bytes::u32_be;
use crate::bytes::u32_to_be_bytes;
use crate::primitives::keccak256;
use crate::primitives::keccak256_digest;
use crate::primitives::random_secret;
use crate::primitives::x25519_basepoint;
use crate::primitives::x25519_mul;
use crate::primitives::x25519;
use std::collections::HashMap;
use vstd::prelude::*;

verus! {

broadcast use vstd::std_specs::hash::group_hash_axioms;

/// Label of the derivation of a parent's path secret from its child's.
pub const LABEL_PATH: u8 = 1;

/// Label of the derivation of a node's private key from its path secret.
pub const LABEL_NODE: u8 = 2;

/// Label of the derivation of the one-time key that seals a path secret.
pub const LABEL_EPHEMERAL: u8 = 3;

/// Label of the derivation of a sealing key from a shared secret.
pub const LABEL_SEAL: u8 = 4;

/// Label of the derivation of a member's first chain key from a root secret.
pub const LABEL_APP: u8 = 5;

/// Label of the derivation of the next chain key from a chain key.
pub const LABEL_RATCHET: u8 = 6;

/// Label of the derivation of a message key from a chain key.
pub const LABEL_MESSAGE: u8 = 7;

/// Label of the derivation of the key of an updated state from a chain key.
pub const LABEL_UPDATE: u8 = 8;

/// The key derivation function: the Keccak-256 digest of the label, the
/// index as four bytes and the secret.
pub open spec fn kdf(label: u8, index: u32, secret: Seq<u8>) -> Seq<u8> {
    keccak256_digest(seq![label] + u32_be(index) + secret)
}

/// The path secret of a parent, given that of the child it was derived from.
pub open spec fn next_path_secret(secret: Seq<u8>) -> Seq<u8> {
    kdf(LABEL_PATH, 0, secret)
}

/// The path secret `level` levels above the node whose path secret is
/// `secret`.
pub open spec fn path_secret(secret: Seq<u8>, level: nat) -> Seq<u8>
    decreases level,
{
    if level == 0 {
        secret
    } else {
        next_path_secret(path_secret(secret, (level - 1) as nat))
    }
}

/// The private key of the node whose path secret is `secret`.
pub open spec fn node_private(secret: Seq<u8>) -> Seq<u8> {
    kdf(LABEL_NODE, 0, secret)
}

/// The public key of the node whose path secret is `secret`.
pub open spec fn node_public(secret: Seq<u8>) -> Seq<u8> {
    x25519_mul(node_private(secret), x25519_basepoint())
}

/// Climbing `a` levels and then `b` more gives the secret `a + b` levels up:
/// whoever holds a secret on a path derives the same secrets above it as the
/// holder of the leaf secret does.
pub proof fn lemma_path_secret_add(secret: Seq<u8>, a: nat, b: nat)
    ensures
        path_secret(path_secret(secret, a), b) == path_secret(secret, a + b),
    decreases b,
{
    if b > 0 {
        lemma_path_secret_add(secret, a, (b - 1) as nat);
    }
}

/// Derives 32 bytes from a label, an index and a secret.
pub fn derive_key(label: u8, index: u32, secret: &[u8]) -> (out: [u8; 32])
    ensures
        out@ == kdf(label, index, secret@),
{
    let mut input: Vec<u8> = Vec::new();
    input.push(label);
    let index_bytes = u32_to_be_bytes(index);
    input.extend_from_slice(index_bytes.as_slice());
    input.extend_from_slice(secret);
    assert(input@ =~= seq![label] + u32_be(index) + secret@);
    keccak256(input.as_slice())
}

/// The public key that belongs to a private key.
pub fn public_key_of(private_key: &[u8; 32]) -> (public_key: [u8; 32])
    ensures
        public_key@ == x25519_mul(private_key@, x25519_basepoint()),
        forall|other: Seq<u8>|
            other.len() == 32 ==> #[trigger] x25519_mul(other, public_key@) == x25519_mul(
                private_key@,
                x25519_mul(other, x25519_basepoint()),
            ),
{
    let mut basepoint = [0u8; 32];
    basepoint[0] = 9;
    assert(basepoint@ =~= x25519_basepoint());
    x25519(private_key, &basepoint)
}

/// A path secret: 32 bytes from which a node's key pair and the path
/// secret of the node's parent are derived.
#[derive(Clone, Copy, Debug)]
pub struct PathSecret(pub [u8; 32]);

impl View for PathSecret {
    type V = Seq<u8>;

    open spec fn view(&self) -> Seq<u8> {
        self.0@
    }
}

impl PathSecret {
    /// The path secret with the bytes of `array`.
    pub fn from_array(array: [u8; 32]) -> (secret: PathSecret)
        ensures
            secret@ == array@,
    {
        PathSecret(array)
    }

    /// A fresh random path secret.
    pub fn new_from_random() -> (secret: PathSecret) {
        PathSecret(random_secret())
    }

    /// The bytes of the secret.
    pub fn as_bytes(&self) -> (bytes: &[u8])
        ensures
            bytes@ == self@,
    {
        self.0.as_slice()
    }

    /// The path secret of the parent node.
    pub fn parent(&self) -> (secret: PathSecret)
        ensures
            secret@ == next_path_secret(self@),
    {
        PathSecret(derive_key(LABEL_PATH, 0, self.0.as_slice()))
    }

    /// The private key of the node.
    pub fn private_key(&self) -> (key: [u8; 32])
        ensures
            key@ == node_private(self@),
    {
        derive_key(LABEL_NODE, 0, self.0.as_slice())
    }

    /// The public key of the node. The private key that it belongs to has
    /// the length of a key.
    pub fn public_key(&self) -> (key: [u8; 32])
        ensures
            key@ == node_public(self@),
            node_private(self@).len() == 32,
    {
        let private = self.private_key();
        public_key_of(&private)
    }
}

/// The key under which the store keeps the secret of a member at an epoch.
pub open spec fn store_key(roster_idx: u32, epoch: u32) -> u64 {
    (roster_idx as u64 * 0x1_0000_0000 + epoch as u64) as u64
}

/// The store of path secrets: at most one secret for each member and epoch.
pub struct PathSecretKVS {
    secrets: HashMap<u64, PathSecret>,
}

impl PathSecretKVS {
    /// The secret kept for `roster_idx` at `epoch`, if there is one.
    pub closed spec fn secret_at(&self, roster_idx: u32, epoch: u32) -> Option<Seq<u8>> {
        if self.secrets@.contains_key(store_key(roster_idx, epoch)) {
            Some(self.secrets@[store_key(roster_idx, epoch)]@)
        } else {
            None
        }
    }

    /// An empty store.
    pub fn new() -> (kvs: PathSecretKVS)
        ensures
            forall|r: u32, e: u32| kvs.secret_at(r, e).is_none(),
    {
        PathSecretKVS { secrets: HashMap::new() }
    }

    /// The secret kept for `roster_idx` at `epoch`.
    pub fn get(&self, roster_idx: u32, epoch: u32) -> (secret: Option<PathSecret>)
        ensures
            (match secret {
                Some(s) => self.secret_at(roster_idx, epoch) == Some(s@),
                None => self.secret_at(roster_idx, epoch).is_none(),
            }),
    {
        let key: u64 = roster_idx as u64 * 0x1_0000_0000 + epoch as u64;
        match self.secrets.get(&key) {
            Some(secret) => Some(*secret),
            None => None,
        }
    }

    /// Keeps `secret` for `roster_idx` at `epoch`, in place of what was kept
    /// there. Nothing else changes.
    pub fn insert(&mut self, roster_idx: u32, epoch: u32, secret: PathSecret)
        ensures
            final(self).secret_at(roster_idx, epoch) == Some(secret@),
            forall|r: u32, e: u32|
                (r != roster_idx || e != epoch) ==> final(self).secret_at(r, e)
                    == old(self).secret_at(r, e),
    {
        let key: u64 = roster_idx as u64 * 0x1_0000_0000 + epoch as u64;
        self.secrets.insert(key, secret);
        assert forall|r: u32, e: u32| (r != roster_idx || e != epoch) implies self.secret_at(r, e)
            == old(self).secret_at(r, e) by {
            assert(store_key(r, e) != store_key(roster_idx, epoch));
        }
    }

    /// Drops the secret kept for `roster_idx` at `epoch`, once no message
    /// of that epoch is to be opened any more. Nothing else changes.
    pub fn remove(&mut self, roster_idx: u32, epoch: u32)
        ensures
            final(self).secret_at(roster_idx, epoch).is_none(),
            forall|r: u32, e: u32|
                (r != roster_idx || e != epoch) ==> final(self).secret_at(r, e)
                    == old(self).secret_at(r, e),
    {
        let key: u64 = roster_idx as u64 * 0x1_0000_0000 + epoch as u64;
        self.secrets.remove(&key);
        assert forall|r: u32, e: u32| (r != roster_idx || e != epoch) implies self.secret_at(r, e)
            == old(self).secret_at(r, e) by {
            assert(store_key(r, e) != store_key(roster_idx, epoch));
        }
    }

    /// Keeps a fresh random secret for `roster_idx` at `epoch`. Nothing else
    /// changes.
    pub fn insert_random_path_secret(&mut self, roster_idx: u32, epoch: u32)
        ensures
            final(self).secret_at(roster_idx, epoch).is_some(),
            forall|r: u32, e: u32|
                (r != roster_idx || e != epoch) ==> final(self).secret_at(r, e)
                    == old(self).secret_at(r, e),
    {
        self.insert(roster_idx, epoch, PathSecret::new_from_random());
    }
}

/// Where the path secrets of a handshake come from.
pub enum PathSecretRequest {
    /// From a store held by this process.
    Local(PathSecretKVS),
}

impl PathSecretRequest {
    /// The secret that the source has for `roster_idx` at `epoch`.
    pub open spec fn secret_at(&self, roster_idx: u32, epoch: u32) -> Option<Seq<u8>> {
        match self {
            PathSecretRequest::Local(kvs) => kvs.secret_at(roster_idx, epoch),
        }
    }

    /// Asks the source for the secret of `roster_idx` at `epoch`.
    pub fn path_secret(&self, roster_idx: u32, epoch: u32) -> (secret: Option<PathSecret>)
        ensures
            (match secret {
                Some(s) => self.secret_at(roster_idx, epoch) == Some(s@),
                None => self.secret_at(roster_idx, epoch).is_none(),
            }),
    {
        match self {
            PathSecretRequest::Local(kvs) => kvs.get(roster_idx, epoch),
        }
    }
}

} // verus!
