//! Addresses, digests, access rights and the fixed-length ciphertext.
//!
//! An address is derived from a public key with SHA-256, which the library
//! uses for nothing else: every other digest, and every derived key, is
//! Keccak-256.

use crate::bytes::array_from_slice;
use crate::bytes::chunk;
use crate::bytes::split_chunks;
use crate::bytes::subrange;
use crate::error::Error;
use crate::primitives::base64_bytes;
use crate::primitives::base64_decode;
use crate::primitives::base64_encode;
use crate::primitives::base64_text;
use crate::primitives::ed25519_accepts;
use crate::primitives::ed25519_sign_with_fresh_key;
use crate::primitives::ed25519_verify;
use crate::primitives::keccak256;
use crate::primitives::random_secret;
use crate::primitives::keccak256_digest;
use crate::primitives::sha256;
use crate::primitives::sha256_digest;
use crate::primitives::TAG_SIZE;
use crate::state_type::STATE_SIZE;
use crate::traits::IntoVec;
use vstd::prelude::*;

verus! {

/// Length of a user address.
pub const ADDRESS_SIZE: usize = 20;

/// Length of an access right on the wire: signature, public key, challenge.
pub const ACCESS_RIGHT_SIZE: usize = 128;

/// Length of a ciphertext: an encrypted state and its tag.
pub const CIPHERTEXT_SIZE: usize = STATE_SIZE + TAG_SIZE;

/// Length of a lock parameter.
pub const LOCK_PARAM_SIZE: usize = 32;

/// The address that belongs to a public key: the last 20 bytes of its
/// SHA-256 digest.
pub open spec fn address_of(pubkey: Seq<u8>) -> Seq<u8> {
    sha256_digest(pubkey).subrange(12, 32)
}

/// A 256-bit hash function.
pub trait Hash256: Sized {
    /// The bytes of a digest.
    spec fn digest(&self) -> Seq<u8>;

    /// The digest that the function gives for `inp`.
    spec fn digest_of(inp: Seq<u8>) -> Seq<u8>;

    /// Hashes `inp`.
    fn hash(inp: &[u8]) -> (out: Self)
        ensures
            out.digest() == Self::digest_of(inp@),
    ;

    /// Hashes a public key.
    fn from_pubkey(pubkey: &[u8; 32]) -> (out: Self)
        ensures
            out.digest() == Self::digest_of(pubkey@),
    ;
}

/// A SHA-256 digest.
#[derive(Clone, Debug)]
pub struct Sha256(pub [u8; 32]);

impl View for Sha256 {
    type V = Seq<u8>;

    open spec fn view(&self) -> Seq<u8> {
        self.0@
    }
}

impl Hash256 for Sha256 {
    open spec fn digest(&self) -> Seq<u8> {
        self.0@
    }

    open spec fn digest_of(inp: Seq<u8>) -> Seq<u8> {
        sha256_digest(inp)
    }

    fn hash(inp: &[u8]) -> (out: Sha256) {
        Sha256(sha256(inp))
    }

    fn from_pubkey(pubkey: &[u8; 32]) -> (out: Sha256) {
        Sha256(sha256(pubkey.as_slice()))
    }
}

impl Sha256 {
    /// The digest as an array.
    pub fn as_array(&self) -> (array: [u8; 32])
        ensures
            array@ == self@,
    {
        self.0
    }

    /// The digest as a slice.
    pub fn as_bytes(&self) -> (bytes: &[u8])
        ensures
            bytes@ == self@,
    {
        self.0.as_slice()
    }

    /// Overwrites the digest with the 32 bytes of `src`.
    pub fn copy_from_slice(&mut self, src: &[u8])
        requires
            src@.len() == 32,
        ensures
            final(self)@ == src@,
    {
        self.0 = array_from_slice::<32>(src);
    }
}

impl Default for Sha256 {
    fn default() -> (out: Sha256)
        ensures
            out@ == Seq::new(32, |i: int| 0u8),
    {
        let out = Sha256([0u8; 32]);
        assert(out@ =~= Seq::new(32, |i: int| 0u8));
        out
    }
}

/// Hashing with Keccak-256.
pub trait Keccak256<T> {
    /// The Keccak-256 digest of the bytes of `self`.
    spec fn keccak256_of(&self) -> Seq<u8>;

    /// The bytes of a result.
    spec fn result_bytes(result: T) -> Seq<u8>;

    /// Hashes `self`.
    fn keccak256(&self) -> (out: T)
        ensures
            Self::result_bytes(out) == self.keccak256_of(),
    ;
}

impl Keccak256<[u8; 32]> for [u8] {
    open spec fn keccak256_of(&self) -> Seq<u8> {
        keccak256_digest(self@)
    }

    open spec fn result_bytes(result: [u8; 32]) -> Seq<u8> {
        result@
    }

    fn keccak256(&self) -> (out: [u8; 32]) {
        keccak256(self)
    }
}

/// The address of a user: the last 20 bytes of the digest of the user's
/// public key.
#[derive(Clone, Copy, Debug, PartialEq, Eq, Hash)]
pub struct UserAddress(pub [u8; 20]);

impl View for UserAddress {
    type V = Seq<u8>;

    open spec fn view(&self) -> Seq<u8> {
        self.0@
    }
}

impl UserAddress {
    /// The address of the signer, if `sig` verifies over `msg` under
    /// `pubkey`.
    pub fn from_sig(msg: &[u8], sig: &[u8; 64], pubkey: &[u8; 32]) -> (result: Result<
        UserAddress,
        Error,
    >)
        ensures
            result.is_ok() <==> ed25519_accepts(pubkey@, msg@, sig@),
            result matches Ok(address) ==> address@ == address_of(pubkey@),
            result matches Err(e) ==> e == Error::InvalidCapability,
    {
        if ed25519_verify(pubkey, msg, sig) {
            Ok(UserAddress::from_pubkey(pubkey))
        } else {
            Err(Error::InvalidCapability)
        }
    }

    /// The address of the holder of `access_right`, if its signature
    /// verifies.
    pub fn from_access_right(access_right: &AccessRight) -> (result: Result<UserAddress, Error>)
        ensures
            result.is_ok() <==> access_right.valid(),
            result matches Ok(address) ==> address@ == address_of(access_right.pubkey@),
            result matches Err(e) ==> e == Error::InvalidCapability,
    {
        match access_right.verify_sig() {
            Ok(()) => Ok(UserAddress::from_pubkey(access_right.pubkey())),
            Err(e) => Err(e),
        }
    }

    /// The address that belongs to `pubkey`.
    pub fn from_pubkey(pubkey: &[u8; 32]) -> (address: UserAddress)
        ensures
            address@ == address_of(pubkey@),
    {
        let hash = Sha256::from_pubkey(pubkey);
        let array = hash.as_array();
        let tail = subrange(array.as_slice(), 12, 32);
        UserAddress(array_from_slice::<20>(tail.as_slice()))
    }

    /// Appends the 20 bytes of the address to `writer`.
    pub fn write(&self, writer: &mut Vec<u8>)
        ensures
            final(writer)@ == old(writer)@ + self@,
    {
        writer.extend_from_slice(self.0.as_slice());
        assert(writer@ =~= old(writer)@ + self@);
    }

    /// Reads an address from `reader` at `*position` and moves the position
    /// past it. Where fewer than 20 bytes are left nothing is read.
    pub fn read(reader: &[u8], position: &mut usize) -> (address: Option<UserAddress>)
        ensures
            address.is_some() <==> *old(position) + ADDRESS_SIZE <= reader@.len(),
            address matches Some(a) ==> a@ == reader@.subrange(
                *old(position) as int,
                *old(position) + ADDRESS_SIZE,
            ) && *final(position) == *old(position) + ADDRESS_SIZE,
            address.is_none() ==> *final(position) == *old(position),
    {
        let at: usize = *position;
        if at > reader.len() || reader.len() - at < ADDRESS_SIZE {
            return None;
        }
        let bytes = subrange(reader, at, at + ADDRESS_SIZE);
        *position = at + ADDRESS_SIZE;
        Some(UserAddress(array_from_slice::<20>(bytes.as_slice())))
    }

    /// The address in base64.
    pub fn base64_encode(&self) -> (text: String)
        ensures
            text@ == base64_text(self@),
            base64_bytes(text@) == Some(self@),
    {
        base64_encode(self.0.as_slice())
    }

    /// The address that `encoded_str` stands for.
    pub fn base64_decode(encoded_str: &str) -> (address: UserAddress)
        requires
            base64_bytes(encoded_str@) matches Some(bytes) && bytes.len() == ADDRESS_SIZE,
        ensures
            Some(address@) == base64_bytes(encoded_str@),
    {
        match base64_decode(encoded_str) {
            Some(decoded) => UserAddress(array_from_slice::<20>(decoded.as_slice())),
            None => UserAddress([0u8; 20]),
        }
    }

    /// The address that `encoded_str` stands for, or `None` where it is not
    /// the base64 form of 20 bytes.
    pub fn try_base64_decode(encoded_str: &str) -> (address: Option<UserAddress>)
        ensures
            (match address {
                Some(a) => base64_bytes(encoded_str@) == Some(a@),
                None => !(base64_bytes(encoded_str@) matches Some(bytes) && bytes.len()
                    == ADDRESS_SIZE),
            }),
    {
        match base64_decode(encoded_str) {
            Some(decoded) => {
                if decoded.len() == ADDRESS_SIZE {
                    Some(UserAddress::base64_decode(encoded_str))
                } else {
                    None
                }
            },
            None => None,
        }
    }

    /// The bytes of the address.
    pub fn as_bytes(&self) -> (bytes: &[u8])
        ensures
            bytes@ == self@,
    {
        self.0.as_slice()
    }

    /// The address with the bytes of `array`.
    pub fn from_array(array: [u8; 20]) -> (address: UserAddress)
        ensures
            address@ == array@,
    {
        UserAddress(array)
    }

    /// Whether two addresses are the same.
    pub fn same(&self, other: &UserAddress) -> (equal: bool)
        ensures
            equal == (self@ == other@),
    {
        crate::bytes::slice_eq(self.0.as_slice(), other.0.as_slice())
    }
}

impl IntoVec for UserAddress {
    open spec fn bytes(&self) -> Seq<u8> {
        self@
    }

    fn into_vec(&self) -> (bytes: Vec<u8>) {
        subrange(self.0.as_slice(), 0, ADDRESS_SIZE)
    }
}

impl Default for UserAddress {
    fn default() -> (address: UserAddress)
        ensures
            address@ == Seq::new(20, |i: int| 0u8),
    {
        let address = UserAddress([0u8; 20]);
        assert(address@ =~= Seq::new(20, |i: int| 0u8));
        address
    }
}

/// The right to read and write the state of one address: a signature over a
/// challenge, the public key that it verifies under, and the challenge.
#[derive(Clone, Debug)]
pub struct AccessRight {
    pub sig: [u8; 64],
    pub pubkey: [u8; 32],
    pub challenge: [u8; 32],
}

impl AccessRight {
    /// Whether the signature verifies over the challenge under the public
    /// key.
    pub open spec fn valid(&self) -> bool {
        ed25519_accepts(self.pubkey@, self.challenge@, self.sig@)
    }

    /// The bytes of the access right on the wire.
    pub open spec fn wire(&self) -> Seq<u8> {
        self.sig@ + self.pubkey@ + self.challenge@
    }

    /// The access right of a fresh random key pair over a fresh random
    /// challenge. It is handed out only once its signature has verified.
    pub fn new_from_rng() -> (result: Result<AccessRight, Error>)
        ensures
            result matches Ok(access_right) ==> access_right.valid(),
            result matches Err(e) ==> e == Error::InvalidCapability,
    {
        let challenge = random_secret();
        let (sig, pubkey) = ed25519_sign_with_fresh_key(&challenge);
        AccessRight::checked(sig, pubkey, challenge)
    }

    /// An access right whose signature is known to verify.
    pub fn new(sig: [u8; 64], pubkey: [u8; 32], challenge: [u8; 32]) -> (access_right: AccessRight)
        requires
            ed25519_accepts(pubkey@, challenge@, sig@),
        ensures
            access_right.valid(),
            access_right.sig == sig,
            access_right.pubkey == pubkey,
            access_right.challenge == challenge,
    {
        AccessRight { sig, pubkey, challenge }
    }

    /// The access right made of the three parts, if the signature verifies.
    pub fn checked(sig: [u8; 64], pubkey: [u8; 32], challenge: [u8; 32]) -> (result: Result<
        AccessRight,
        Error,
    >)
        ensures
            result.is_ok() <==> ed25519_accepts(pubkey@, challenge@, sig@),
            result matches Ok(access_right) ==> access_right.sig == sig && access_right.pubkey
                == pubkey && access_right.challenge == challenge,
            result matches Err(e) ==> e == Error::InvalidCapability,
    {
        if ed25519_verify(&pubkey, challenge.as_slice(), &sig) {
            Ok(AccessRight::new(sig, pubkey, challenge))
        } else {
            Err(Error::InvalidCapability)
        }
    }

    /// Checks the signature over the challenge.
    pub fn verify_sig(&self) -> (result: Result<(), Error>)
        ensures
            result.is_ok() <==> self.valid(),
            result matches Err(e) ==> e == Error::InvalidCapability,
    {
        if ed25519_verify(&self.pubkey, self.challenge.as_slice(), &self.sig) {
            Ok(())
        } else {
            Err(Error::InvalidCapability)
        }
    }

    /// The address of the public key, whether or not the signature verifies.
    pub fn user_address(&self) -> (address: UserAddress)
        ensures
            address@ == address_of(self.pubkey@),
    {
        UserAddress::from_pubkey(self.pubkey())
    }

    /// The address of the holder, once the signature has been checked.
    pub fn verified_user_address(&self) -> (result: Result<UserAddress, Error>)
        ensures
            result.is_ok() <==> self.valid(),
            result matches Ok(address) ==> address@ == address_of(self.pubkey@),
            result matches Err(e) ==> e == Error::InvalidCapability,
    {
        UserAddress::from_access_right(self)
    }

    /// The public key.
    pub fn pubkey(&self) -> (pubkey: &[u8; 32])
        ensures
            *pubkey == self.pubkey,
    {
        &self.pubkey
    }

    /// The 128 bytes of the access right on the wire: signature, public key,
    /// challenge.
    pub fn into_raw(self) -> (raw: Vec<u8>)
        ensures
            raw@ == self.wire(),
            raw@.len() == ACCESS_RIGHT_SIZE,
    {
        let mut raw: Vec<u8> = Vec::new();
        raw.extend_from_slice(self.sig.as_slice());
        raw.extend_from_slice(self.pubkey.as_slice());
        raw.extend_from_slice(self.challenge.as_slice());
        assert(raw@ =~= self.wire());
        raw
    }

    /// Reads an access right from its 128 bytes on the wire. The signature
    /// is not checked.
    pub fn from_raw(raw: &[u8]) -> (access_right: Option<AccessRight>)
        ensures
            access_right.is_some() <==> raw@.len() == ACCESS_RIGHT_SIZE,
            access_right matches Some(a) ==> a.wire() == raw@,
    {
        if raw.len() != ACCESS_RIGHT_SIZE {
            return None;
        }
        let sig = subrange(raw, 0, 64);
        let pubkey = subrange(raw, 64, 96);
        let challenge = subrange(raw, 96, 128);
        let access_right = AccessRight {
            sig: array_from_slice::<64>(sig.as_slice()),
            pubkey: array_from_slice::<32>(pubkey.as_slice()),
            challenge: array_from_slice::<32>(challenge.as_slice()),
        };
        assert(access_right.wire() =~= raw@);
        Some(access_right)
    }
}

/// A policy of access to the state of an address: what a caller presents to
/// be let in. Each kind of policy can be verified, and names the address it
/// gives access to.
#[derive(Clone, Debug)]
pub enum AccessPolicy {
    /// A signature over a challenge, under the key that the address belongs
    /// to.
    Ed25519ChallengeResponse(AccessRight),
}

impl AccessPolicy {
    /// Whether the policy verifies.
    pub open spec fn valid(&self) -> bool {
        match self {
            AccessPolicy::Ed25519ChallengeResponse(access_right) => access_right.valid(),
        }
    }

    /// The address that the policy gives access to.
    pub open spec fn account(&self) -> Seq<u8> {
        match self {
            AccessPolicy::Ed25519ChallengeResponse(access_right) => address_of(
                access_right.pubkey@,
            ),
        }
    }

    /// Verifies the policy.
    pub fn verify(&self) -> (result: Result<(), Error>)
        ensures
            result.is_ok() <==> self.valid(),
            result matches Err(e) ==> e == Error::InvalidCapability,
    {
        match self {
            AccessPolicy::Ed25519ChallengeResponse(access_right) => access_right.verify_sig(),
        }
    }

    /// The address that the policy names, whether or not it verifies.
    pub fn into_account_id(&self) -> (address: UserAddress)
        ensures
            address@ == self.account(),
    {
        match self {
            AccessPolicy::Ed25519ChallengeResponse(access_right) => access_right.user_address(),
        }
    }

    /// The address that the policy gives access to, once it has verified.
    pub fn verified_account_id(&self) -> (result: Result<UserAddress, Error>)
        ensures
            result.is_ok() <==> self.valid(),
            result matches Ok(address) ==> address@ == self.account(),
            result matches Err(e) ==> e == Error::InvalidCapability,
    {
        match self {
            AccessPolicy::Ed25519ChallengeResponse(access_right) => {
                access_right.verified_user_address()
            },
        }
    }
}

/// An encrypted application state of the fixed ciphertext length.
#[derive(Clone, Debug)]
pub struct Ciphertext(pub [u8; CIPHERTEXT_SIZE]);

impl View for Ciphertext {
    type V = Seq<u8>;

    open spec fn view(&self) -> Seq<u8> {
        self.0@
    }
}

impl Ciphertext {
    /// The ciphertext that holds `bytes`.
    pub fn from_bytes(bytes: &[u8]) -> (ciphertext: Ciphertext)
        requires
            bytes@.len() == CIPHERTEXT_SIZE,
        ensures
            ciphertext@ == bytes@,
    {
        Ciphertext(array_from_slice::<CIPHERTEXT_SIZE>(bytes))
    }

    /// The ciphertext that holds `bytes`, which is refused unless it has
    /// the ciphertext length.
    pub fn try_from_bytes(bytes: &[u8]) -> (result: Result<Ciphertext, Error>)
        ensures
            result.is_ok() <==> bytes@.len() == CIPHERTEXT_SIZE,
            result matches Ok(ciphertext) ==> ciphertext@ == bytes@,
            result matches Err(e) ==> e == Error::MalformedCiphertext,
    {
        if bytes.len() == CIPHERTEXT_SIZE {
            Ok(Ciphertext::from_bytes(bytes))
        } else {
            Err(Error::MalformedCiphertext)
        }
    }

    /// The ciphertexts that `bytes` is the concatenation of, in order.
    pub fn from_bytes_iter(bytes: &[u8]) -> (ciphertexts: Vec<Ciphertext>)
        requires
            bytes@.len() % CIPHERTEXT_SIZE as nat == 0,
        ensures
            ciphertexts@.len() == bytes@.len() / CIPHERTEXT_SIZE as nat,
            forall|i: int|
                0 <= i < ciphertexts@.len() ==> (#[trigger] ciphertexts@[i])@ == chunk(
                    bytes@,
                    CIPHERTEXT_SIZE as int,
                    i,
                ),
    {
        let pieces = split_chunks(bytes, CIPHERTEXT_SIZE);
        let mut ciphertexts: Vec<Ciphertext> = Vec::new();
        let mut i: usize = 0;
        while i < pieces.len()
            invariant
                i <= pieces@.len(),
                ciphertexts@.len() == i,
                forall|j: int|
                    0 <= j < pieces@.len() ==> (#[trigger] pieces@[j])@ == chunk(
                        bytes@,
                        CIPHERTEXT_SIZE as int,
                        j,
                    ),
                forall|j: int|
                    0 <= j < pieces@.len() ==> (#[trigger] pieces@[j])@.len() == CIPHERTEXT_SIZE,
                forall|j: int|
                    0 <= j < i ==> (#[trigger] ciphertexts@[j])@ == chunk(
                        bytes@,
                        CIPHERTEXT_SIZE as int,
                        j,
                    ),
            decreases pieces.len() - i,
        {
            ciphertexts.push(Ciphertext::from_bytes(pieces[i].as_slice()));
            i += 1;
        }
        ciphertexts
    }

    /// The bytes of the ciphertext.
    pub fn as_bytes(&self) -> (bytes: &[u8])
        ensures
            bytes@ == self@,
    {
        self.0.as_slice()
    }

    /// The bytes of the ciphertext.
    pub fn into_vec(self) -> (bytes: Vec<u8>)
        ensures
            bytes@ == self@,
    {
        subrange(self.0.as_slice(), 0, CIPHERTEXT_SIZE)
    }

    /// The length of a ciphertext.
    pub fn len(&self) -> (len: usize)
        ensures
            len == CIPHERTEXT_SIZE,
            len == self@.len(),
    {
        CIPHERTEXT_SIZE
    }
}

/// The lock parameter of a state: the digest that tells one submitted state
/// from another.
#[derive(Clone, Copy, Debug)]
pub struct LockParam(pub [u8; LOCK_PARAM_SIZE]);

impl View for LockParam {
    type V = Seq<u8>;

    open spec fn view(&self) -> Seq<u8> {
        self.0@
    }
}

impl LockParam {
    /// The lock parameter that holds `bytes`.
    pub fn from_bytes(bytes: &[u8]) -> (lock_param: LockParam)
        requires
            bytes@.len() == LOCK_PARAM_SIZE,
        ensures
            lock_param@ == bytes@,
    {
        LockParam(array_from_slice::<LOCK_PARAM_SIZE>(bytes))
    }

    /// The lock parameters that `bytes` is the concatenation of, in order.
    pub fn from_bytes_iter(bytes: &[u8]) -> (lock_params: Vec<LockParam>)
        requires
            bytes@.len() % LOCK_PARAM_SIZE as nat == 0,
        ensures
            lock_params@.len() == bytes@.len() / LOCK_PARAM_SIZE as nat,
            forall|i: int|
                0 <= i < lock_params@.len() ==> (#[trigger] lock_params@[i])@ == chunk(
                    bytes@,
                    LOCK_PARAM_SIZE as int,
                    i,
                ),
    {
        let pieces = split_chunks(bytes, LOCK_PARAM_SIZE);
        let mut lock_params: Vec<LockParam> = Vec::new();
        let mut i: usize = 0;
        while i < pieces.len()
            invariant
                i <= pieces@.len(),
                lock_params@.len() == i,
                forall|j: int|
                    0 <= j < pieces@.len() ==> (#[trigger] pieces@[j])@ == chunk(
                        bytes@,
                        LOCK_PARAM_SIZE as int,
                        j,
                    ),
                forall|j: int|
                    0 <= j < pieces@.len() ==> (#[trigger] pieces@[j])@.len() == LOCK_PARAM_SIZE,
                forall|j: int|
                    0 <= j < i ==> (#[trigger] lock_params@[j])@ == chunk(
                        bytes@,
                        LOCK_PARAM_SIZE as int,
                        j,
                    ),
            decreases pieces.len() - i,
        {
            lock_params.push(LockParam::from_bytes(pieces[i].as_slice()));
            i += 1;
        }
        lock_params
    }

    /// The lock parameter of a state: the Keccak-256 digest of its bytes.
    pub fn of_state(state: &[u8]) -> (lock_param: LockParam)
        ensures
            lock_param@ == keccak256_digest(state@),
    {
        LockParam(keccak256(state))
    }

    /// The bytes of the lock parameter.
    pub fn into_vec(self) -> (bytes: Vec<u8>)
        ensures
            bytes@ == self@,
    {
        subrange(self.0.as_slice(), 0, LOCK_PARAM_SIZE)
    }

    /// The bytes of the lock parameter.
    pub fn as_bytes(&self) -> (bytes: &[u8])
        ensures
            bytes@ == self@,
    {
        self.0.as_slice()
    }

    /// Appends the 32 bytes of the lock parameter to `writer`.
    pub fn write(&self, writer: &mut Vec<u8>)
        ensures
            final(writer)@ == old(writer)@ + self@,
    {
        writer.extend_from_slice(self.0.as_slice());
        assert(writer@ =~= old(writer)@ + self@);
    }

    /// Reads a lock parameter from `reader` at `*position` and moves the
    /// position past it. Where fewer than 32 bytes are left nothing is read.
    pub fn read(reader: &[u8], position: &mut usize) -> (lock_param: Option<LockParam>)
        ensures
            lock_param.is_some() <==> *old(position) + LOCK_PARAM_SIZE <= reader@.len(),
            lock_param matches Some(l) ==> l@ == reader@.subrange(
                *old(position) as int,
                *old(position) + LOCK_PARAM_SIZE,
            ) && *final(position) == *old(position) + LOCK_PARAM_SIZE,
            lock_param.is_none() ==> *final(position) == *old(position),
    {
        let at: usize = *position;
        if at > reader.len() || reader.len() - at < LOCK_PARAM_SIZE {
            return None;
        }
        let bytes = subrange(reader, at, at + LOCK_PARAM_SIZE);
        *position = at + LOCK_PARAM_SIZE;
        Some(LockParam(array_from_slice::<LOCK_PARAM_SIZE>(bytes.as_slice())))
    }
}

impl Default for LockParam {
    fn default() -> (lock_param: LockParam)
        ensures
            lock_param@ == Seq::new(32, |i: int| 0u8),
    {
        let lock_param = LockParam([0u8; LOCK_PARAM_SIZE]);
        assert(lock_param@ =~= Seq::new(32, |i: int| 0u8));
        lock_param
    }
}

} // verus!
