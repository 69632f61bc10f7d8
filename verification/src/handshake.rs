//! The handshake: the message by which one member moves the group from one
//! epoch to the next.

use crate::bytes::array_from_slice;
use crate::bytes::lemma_u32_be_round_trip;
use crate::bytes::lemma_u32_from_be_round_trip;
use crate::bytes::subrange;
use crate::bytes::u32_be;
use crate::bytes::u32_from_be;
use crate::bytes::u32_from_be_bytes;
use crate::bytes::u32_to_be_bytes;
use crate::error::Error;
use crate::primitives::aead_open;
use crate::primitives::aead_opened;
use crate::primitives::aead_seal;
use crate::primitives::aead_sealed;
use crate::primitives::x25519;
use crate::primitives::IV_SIZE;
use crate::primitives::x25519_basepoint;
use crate::primitives::x25519_mul;
use crate::secrets::derive_key;
use crate::secrets::kdf;
use crate::secrets::public_key_of;
use crate::secrets::PathSecret;
use crate::secrets::LABEL_EPHEMERAL;
use crate::secrets::LABEL_SEAL;
use vstd::prelude::*;

verus! {

/// Length of a sealed path secret: the secret and the tag.
pub const SEALED_SECRET_SIZE: usize = 44;

/// What a handshake does to the roster.
#[derive(Clone, Copy, Debug, PartialEq, Eq, Structural)]
pub enum Operation {
    /// A member joins at the given roster index.
    Add(u32),
    /// The member at the given roster index leaves.
    Remove(u32),
    /// The member at the given roster index renews its leaf secret.
    Update(u32),
}

impl Operation {
    /// The roster index whose leaf the operation changes.
    pub open spec fn target(self) -> u32 {
        match self {
            Operation::Add(idx) => idx,
            Operation::Remove(idx) => idx,
            Operation::Update(idx) => idx,
        }
    }

    /// The roster index whose leaf the operation changes.
    pub fn roster_idx(&self) -> (idx: u32)
        ensures
            idx == self.target(),
    {
        match self {
            Operation::Add(idx) => *idx,
            Operation::Remove(idx) => *idx,
            Operation::Update(idx) => *idx,
        }
    }

    /// Whether the operation removes a member.
    pub fn is_remove(&self) -> (remove: bool)
        ensures
            remove == (*self is Remove),
    {
        match self {
            Operation::Remove(_) => true,
            _ => false,
        }
    }
}

/// The nonce under which path secrets are sealed. Every sealing key is used
/// once, so the nonce is fixed.
pub open spec fn sealing_nonce() -> Seq<u8> {
    Seq::new(IV_SIZE as nat, |i: int| 0u8)
}

/// The one-time private key with which `secret` is sealed for `recipient`.
pub open spec fn ephemeral_private(secret: Seq<u8>, recipient: u32) -> Seq<u8> {
    kdf(LABEL_EPHEMERAL, recipient, secret)
}

/// The key that seals a path secret for `recipient`, given the secret that
/// the sender and the recipient share.
pub open spec fn sealing_key(shared: Seq<u8>, recipient: u32) -> Seq<u8> {
    kdf(LABEL_SEAL, recipient, shared)
}

/// The one-time public key that goes with `secret` sealed for `recipient`.
pub open spec fn ephemeral_public(secret: Seq<u8>, recipient: u32) -> Seq<u8> {
    x25519_mul(ephemeral_private(secret, recipient), x25519_basepoint())
}

/// `secret` sealed for `recipient`, whose leaf public key is
/// `recipient_key`.
pub open spec fn sealed_secret(secret: Seq<u8>, recipient: u32, recipient_key: Seq<u8>) -> Seq<u8> {
    aead_sealed(
        sealing_key(x25519_mul(ephemeral_private(secret, recipient), recipient_key), recipient),
        sealing_nonce(),
        secret,
    )
}

/// What the holder of `private_key` gets from a segment made for
/// `recipient`.
pub open spec fn opened_secret(
    private_key: Seq<u8>,
    recipient: u32,
    ephemeral_key: Seq<u8>,
    sealed: Seq<u8>,
) -> Option<Seq<u8>> {
    aead_opened(
        sealing_key(x25519_mul(private_key, ephemeral_key), recipient),
        sealing_nonce(),
        sealed,
    )
}

/// A path secret sealed for one member.
#[derive(Clone, Copy, Debug)]
pub struct Segment {
    /// The roster index of the member the segment is for.
    pub recipient: u32,
    /// The one-time public key of the sender.
    pub ephemeral_key: [u8; 32],
    /// The sealed path secret.
    pub sealed: [u8; SEALED_SECRET_SIZE],
}

impl Segment {
    /// Whether the segment holds `secret` sealed for the member whose leaf
    /// public key is `recipient_key`.
    pub open spec fn seals(&self, secret: Seq<u8>, recipient_key: Seq<u8>) -> bool {
        &&& self.ephemeral_key@ == ephemeral_public(secret, self.recipient)
        &&& self.sealed@ == sealed_secret(secret, self.recipient, recipient_key)
    }

    /// What the holder of `private_key` gets from the segment.
    pub open spec fn opened(&self, private_key: Seq<u8>) -> Option<Seq<u8>> {
        opened_secret(private_key, self.recipient, self.ephemeral_key@, self.sealed@)
    }

    /// Whether every private key that belongs to `recipient_key` opens the
    /// segment to `secret`.
    pub open spec fn delivers(&self, secret: Seq<u8>, recipient_key: Seq<u8>) -> bool {
        forall|private_key: Seq<u8>|
            private_key.len() == 32 && #[trigger] x25519_mul(private_key, x25519_basepoint())
                == recipient_key ==> self.opened(private_key) == Some(secret)
    }

    /// Seals `secret` for `recipient`, whose leaf public key is
    /// `recipient_key`.
    pub fn seal(secret: &PathSecret, recipient: u32, recipient_key: &[u8; 32]) -> (segment: Segment)
        ensures
            segment.recipient == recipient,
            segment.seals(secret@, recipient_key@),
            segment.delivers(secret@, recipient_key@),
    {
        let ephemeral = derive_key(LABEL_EPHEMERAL, recipient, secret.as_bytes());
        let ephemeral_key = public_key_of(&ephemeral);
        let shared = x25519(&ephemeral, recipient_key);
        let key = derive_key(LABEL_SEAL, recipient, shared.as_slice());
        let nonce = [0u8; IV_SIZE];
        assert(nonce@ =~= sealing_nonce());
        let sealed = aead_seal(&key, &nonce, secret.as_bytes());
        let segment = Segment {
            recipient,
            ephemeral_key,
            sealed: array_from_slice::<SEALED_SECRET_SIZE>(sealed.as_slice()),
        };
        assert forall|private_key: Seq<u8>|
            private_key.len() == 32 && #[trigger] x25519_mul(private_key, x25519_basepoint())
                == recipient_key@ implies segment.opened(private_key) == Some(secret@) by {
            assert(x25519_mul(private_key, ephemeral_key@) == x25519_mul(
                ephemeral@,
                x25519_mul(private_key, x25519_basepoint()),
            ));
        }
        segment
    }

    /// Opens the segment with the private key of the recipient's leaf.
    pub fn open(&self, private_key: &[u8; 32]) -> (secret: Option<PathSecret>)
        ensures
            (match secret {
                Some(s) => self.opened(private_key@) == Some(s@),
                None => self.opened(private_key@).is_none(),
            }),
    {
        let shared = x25519(private_key, &self.ephemeral_key);
        let key = derive_key(LABEL_SEAL, self.recipient, shared.as_slice());
        let nonce = [0u8; IV_SIZE];
        assert(nonce@ =~= sealing_nonce());
        match aead_open(&key, &nonce, self.sealed.as_slice()) {
            Some(plaintext) => Some(PathSecret(array_from_slice::<32>(plaintext.as_slice()))),
            None => None,
        }
    }
}

/// The position of the first segment for `recipient`, if there is one.
pub open spec fn first_segment(segments: Seq<Segment>, recipient: u32) -> Option<int>
    decreases segments.len(),
{
    if segments.len() == 0 {
        None
    } else if segments[0].recipient == recipient {
        Some(0)
    } else {
        match first_segment(segments.subrange(1, segments.len() as int), recipient) {
            Some(at) => Some(at + 1),
            None => None,
        }
    }
}

/// The first segment for a recipient is for that recipient, and no earlier
/// one is.
pub proof fn lemma_first_segment(segments: Seq<Segment>, recipient: u32)
    ensures
        (match first_segment(segments, recipient) {
            Some(at) => 0 <= at < segments.len() && segments[at].recipient == recipient
                && forall|i: int| 0 <= i < at ==> segments[i].recipient != recipient,
            None => forall|i: int| 0 <= i < segments.len() ==> segments[i].recipient != recipient,
        }),
    decreases segments.len(),
{
    if segments.len() == 0 {
    } else if segments[0].recipient == recipient {
    } else {
        let rest = segments.subrange(1, segments.len() as int);
        lemma_first_segment(rest, recipient);
        match first_segment(rest, recipient) {
            Some(at) => {
                assert forall|i: int| 0 <= i < at + 1 implies segments[i].recipient
                    != recipient by {
                    if i > 0 {
                        assert(rest[i - 1] == segments[i]);
                    }
                }
            },
            None => {
                assert forall|i: int| 0 <= i < segments.len() implies segments[i].recipient
                    != recipient by {
                    if i > 0 {
                        assert(rest[i - 1] == segments[i]);
                    }
                }
            },
        }
    }
}

/// A position that holds the one segment for a recipient is the first.
pub proof fn lemma_first_segment_is(segments: Seq<Segment>, recipient: u32, at: int)
    requires
        0 <= at < segments.len(),
        segments[at].recipient == recipient,
        forall|i: int| 0 <= i < at ==> segments[i].recipient != recipient,
    ensures
        first_segment(segments, recipient) == Some(at),
{
    lemma_first_segment(segments, recipient);
}

/// A handshake: what moves the group from `prior_epoch` to the next epoch.
#[derive(Clone, Debug)]
pub struct Handshake {
    /// The epoch the handshake was made in.
    pub prior_epoch: u32,
    /// The roster index of the member that made it.
    pub sender: u32,
    /// What it does to the roster.
    pub op: Operation,
    /// The new public keys of the nodes from the changed leaf up to the
    /// root.
    pub path_keys: Vec<[u8; 32]>,
    /// The new path secrets, sealed for each member that is to learn one.
    pub segments: Vec<Segment>,
}

impl Handshake {
    /// The first segment for `recipient`.
    pub fn find_segment(&self, recipient: u32) -> (found: Option<Segment>)
        ensures
            (match found {
                Some(segment) => first_segment(self.segments@, recipient) matches Some(at)
                    && segment == self.segments@[at],
                None => first_segment(self.segments@, recipient).is_none(),
            }),
    {
        let mut i: usize = 0;
        while i < self.segments.len()
            invariant
                i <= self.segments@.len(),
                forall|j: int| 0 <= j < i ==> self.segments@[j].recipient != recipient,
            decreases self.segments.len() - i,
        {
            if self.segments[i].recipient == recipient {
                proof {
                    lemma_first_segment_is(self.segments@, recipient, i as int);
                }
                return Some(self.segments[i]);
            }
            i += 1;
        }
        proof {
            lemma_first_segment(self.segments@, recipient);
        }
        None
    }
}

/// Length of an encoded handshake up to its public keys.
pub const HEADER_SIZE: usize = 17;

/// Length of an encoded segment.
pub const SEGMENT_SIZE: usize = 80;

/// The byte that stands for the kind of an operation.
pub open spec fn operation_tag(op: Operation) -> u8 {
    match op {
        Operation::Add(_) => 0,
        Operation::Remove(_) => 1,
        Operation::Update(_) => 2,
    }
}

/// The public keys, one after the other.
pub open spec fn encoded_keys(keys: Seq<[u8; 32]>) -> Seq<u8>
    decreases keys.len(),
{
    if keys.len() == 0 {
        Seq::empty()
    } else {
        encoded_keys(keys.drop_last()) + keys.last()@
    }
}

/// A segment as bytes: the recipient, the one-time key, the sealed secret.
pub open spec fn encoded_segment(segment: Segment) -> Seq<u8> {
    u32_be(segment.recipient) + segment.ephemeral_key@ + segment.sealed@
}

/// The segments as bytes, one after the other.
pub open spec fn encoded_segments(segments: Seq<Segment>) -> Seq<u8>
    decreases segments.len(),
{
    if segments.len() == 0 {
        Seq::empty()
    } else {
        encoded_segments(segments.drop_last()) + encoded_segment(segments.last())
    }
}

/// Encoded keys take 32 bytes each.
pub proof fn lemma_encoded_keys_len(keys: Seq<[u8; 32]>)
    ensures
        encoded_keys(keys).len() == 32 * keys.len(),
    decreases keys.len(),
{
    if keys.len() > 0 {
        lemma_encoded_keys_len(keys.drop_last());
    }
}

/// Encoded segments take 80 bytes each.
pub proof fn lemma_encoded_segments_len(segments: Seq<Segment>)
    ensures
        encoded_segments(segments).len() == 80 * segments.len(),
    decreases segments.len(),
{
    if segments.len() > 0 {
        lemma_encoded_segments_len(segments.drop_last());
    }
}

/// Reads `count` public keys from `bytes` at `start`.
fn read_keys(bytes: &[u8], start: usize, count: usize) -> (keys: Vec<[u8; 32]>)
    requires
        start + 32 * count <= bytes@.len(),
    ensures
        keys@.len() == count,
        encoded_keys(keys@) == bytes@.subrange(start as int, start + 32 * count),
{
    let mut keys: Vec<[u8; 32]> = Vec::new();
    let mut at: usize = start;
    let len: usize = bytes.len();
    assert(encoded_keys(keys@) =~= bytes@.subrange(start as int, start as int));
    while keys.len() < count
        invariant
            len == bytes@.len(),
            keys@.len() <= count,
            at == start + 32 * keys@.len(),
            start + 32 * count <= bytes@.len(),
            encoded_keys(keys@) == bytes@.subrange(start as int, at as int),
        decreases count - keys@.len(),
    {
        let key = subrange(bytes, at, at + 32);
        let ghost before = keys@;
        keys.push(array_from_slice::<32>(key.as_slice()));
        proof {
            assert(keys@.drop_last() =~= before);
            assert(encoded_keys(keys@) =~= bytes@.subrange(start as int, at + 32));
        }
        at += 32;
    }
    keys
}

/// Reads `count` segments from `bytes` at `start`.
fn read_segments(bytes: &[u8], start: usize, count: usize) -> (segments: Vec<Segment>)
    requires
        start + 80 * count <= bytes@.len(),
    ensures
        segments@.len() == count,
        encoded_segments(segments@) == bytes@.subrange(start as int, start + 80 * count),
{
    let mut segments: Vec<Segment> = Vec::new();
    let mut at: usize = start;
    let len: usize = bytes.len();
    assert(encoded_segments(segments@) =~= bytes@.subrange(start as int, start as int));
    while segments.len() < count
        invariant
            len == bytes@.len(),
            segments@.len() <= count,
            at == start + 80 * segments@.len(),
            start + 80 * count <= bytes@.len(),
            encoded_segments(segments@) == bytes@.subrange(start as int, at as int),
        decreases count - segments@.len(),
    {
        let recipient: u32 = u32_from_be_bytes(bytes, at);
        let ephemeral_key = subrange(bytes, at + 4, at + 36);
        let sealed = subrange(bytes, at + 36, at + 80);
        let segment = Segment {
            recipient,
            ephemeral_key: array_from_slice::<32>(ephemeral_key.as_slice()),
            sealed: array_from_slice::<SEALED_SECRET_SIZE>(sealed.as_slice()),
        };
        let ghost before = segments@;
        segments.push(segment);
        proof {
            lemma_u32_from_be_round_trip(bytes@.subrange(at as int, at + 4));
            assert(encoded_segment(segment) =~= bytes@.subrange(at as int, at + 80));
            assert(segments@.drop_last() =~= before);
            assert(encoded_segments(segments@) =~= bytes@.subrange(start as int, at + 80));
        }
        at += 80;
    }
    segments
}

impl Handshake {
    /// Whether the handshake can be encoded: its counts fit in four bytes.
    pub open spec fn fits(&self) -> bool {
        self.path_keys@.len() <= u32::MAX && self.segments@.len() <= u32::MAX
    }

    /// The first 17 bytes of the encoding: the epoch, the sender, the kind
    /// and the target of the operation, and the number of public keys.
    pub open spec fn header(&self) -> Seq<u8> {
        u32_be(self.prior_epoch) + u32_be(self.sender) + seq![operation_tag(self.op)] + u32_be(
            self.op.target(),
        ) + u32_be(self.path_keys@.len() as u32)
    }

    /// The handshake as bytes: the header, the public keys, the number of
    /// segments, the segments.
    pub open spec fn encoding(&self) -> Seq<u8> {
        self.header() + encoded_keys(self.path_keys@) + u32_be(self.segments@.len() as u32)
            + encoded_segments(self.segments@)
    }

    /// Where each part of the encoding lies.
    pub proof fn lemma_layout(&self)
        requires
            self.fits(),
        ensures
            self.encoding().len() == 21 + 32 * self.path_keys@.len() + 80 * self.segments@.len(),
            self.encoding().subrange(0, 4) == u32_be(self.prior_epoch),
            self.encoding().subrange(4, 8) == u32_be(self.sender),
            self.encoding()[8] == operation_tag(self.op),
            self.encoding().subrange(9, 13) == u32_be(self.op.target()),
            self.encoding().subrange(13, 17) == u32_be(self.path_keys@.len() as u32),
            self.encoding().subrange(17, 17 + 32 * (self.path_keys@.len() as int)) == encoded_keys(
                self.path_keys@,
            ),
            self.encoding().subrange(
                17 + 32 * (self.path_keys@.len() as int),
                21 + 32 * (self.path_keys@.len() as int),
            ) == u32_be(self.segments@.len() as u32),
            self.encoding().subrange(
                21 + 32 * (self.path_keys@.len() as int),
                self.encoding().len() as int,
            ) == encoded_segments(self.segments@),
    {
        lemma_encoded_keys_len(self.path_keys@);
        lemma_encoded_segments_len(self.segments@);
        let e = self.encoding();
        let keys_end = 17 + 32 * (self.path_keys@.len() as int);
        assert(e.subrange(0, 4) =~= u32_be(self.prior_epoch));
        assert(e.subrange(4, 8) =~= u32_be(self.sender));
        assert(e.subrange(9, 13) =~= u32_be(self.op.target()));
        assert(e.subrange(13, 17) =~= u32_be(self.path_keys@.len() as u32));
        assert(e.subrange(17, keys_end) =~= encoded_keys(self.path_keys@));
        assert(e.subrange(keys_end, keys_end + 4) =~= u32_be(self.segments@.len() as u32));
        assert(e.subrange(keys_end + 4, e.len() as int) =~= encoded_segments(self.segments@));
    }

    /// Bytes whose parts are the parts of the encoding are the encoding.
    pub proof fn lemma_assembled(&self, bytes: Seq<u8>)
        requires
            self.fits(),
            bytes.len() == 21 + 32 * self.path_keys@.len() + 80 * self.segments@.len(),
            bytes.subrange(0, 4) == u32_be(self.prior_epoch),
            bytes.subrange(4, 8) == u32_be(self.sender),
            bytes[8] == operation_tag(self.op),
            bytes.subrange(9, 13) == u32_be(self.op.target()),
            bytes.subrange(13, 17) == u32_be(self.path_keys@.len() as u32),
            bytes.subrange(17, 17 + 32 * (self.path_keys@.len() as int)) == encoded_keys(
                self.path_keys@,
            ),
            bytes.subrange(
                17 + 32 * (self.path_keys@.len() as int),
                21 + 32 * (self.path_keys@.len() as int),
            ) == u32_be(self.segments@.len() as u32),
            bytes.subrange(21 + 32 * (self.path_keys@.len() as int), bytes.len() as int)
                == encoded_segments(self.segments@),
        ensures
            self.encoding() == bytes,
    {
        let keys_end = 17 + 32 * (self.path_keys@.len() as int);
        let parts = bytes.subrange(0, 4) + bytes.subrange(4, 8) + seq![bytes[8]] + bytes.subrange(
            9,
            13,
        ) + bytes.subrange(13, 17) + bytes.subrange(17, keys_end) + bytes.subrange(
            keys_end,
            keys_end + 4,
        ) + bytes.subrange(keys_end + 4, bytes.len() as int);
        assert(parts =~= bytes);
    }

    /// What the bytes of an encoding tell of the handshake: how many keys
    /// and segments it holds, and how long it is.
    pub proof fn lemma_encoding_counts(&self, bytes: Seq<u8>)
        requires
            self.fits(),
            self.encoding() == bytes,
        ensures
            bytes.len() == 21 + 32 * self.path_keys@.len() + 80 * self.segments@.len(),
            bytes[8] <= 2,
            u32_from_be(bytes.subrange(13, 17)) == self.path_keys@.len(),
            u32_from_be(
                bytes.subrange(
                    17 + 32 * (self.path_keys@.len() as int),
                    21 + 32 * (self.path_keys@.len() as int),
                ),
            ) == self.segments@.len(),
    {
        self.lemma_layout();
        lemma_u32_be_round_trip(self.path_keys@.len() as u32);
        lemma_u32_be_round_trip(self.segments@.len() as u32);
    }

    /// The number of public keys that bytes announce in the place where an
    /// encoding holds it.
    pub open spec fn announced_keys(bytes: Seq<u8>) -> int {
        u32_from_be(bytes.subrange(13, 17))
    }

    /// The number of segments that bytes announce in the place where an
    /// encoding holds it.
    pub open spec fn announced_segments(bytes: Seq<u8>) -> int {
        u32_from_be(
            bytes.subrange(
                17 + 32 * Handshake::announced_keys(bytes),
                21 + 32 * Handshake::announced_keys(bytes),
            ),
        )
    }

    /// Whether bytes are framed as a handshake: the kind of the operation
    /// is one of the three, and the length is what the announced numbers of
    /// keys and segments take.
    pub open spec fn framed(bytes: Seq<u8>) -> bool {
        &&& bytes.len() >= 21
        &&& bytes[8] <= 2
        &&& bytes.len() >= 21 + 32 * Handshake::announced_keys(bytes)
        &&& bytes.len() == 21 + 32 * Handshake::announced_keys(bytes) + 80
            * Handshake::announced_segments(bytes)
    }

    /// Bytes that are not framed as a handshake encode none.
    pub proof fn lemma_unframed_is_no_encoding(bytes: Seq<u8>)
        requires
            !Handshake::framed(bytes),
        ensures
            forall|handshake: Handshake|
                handshake.fits() ==> #[trigger] handshake.encoding() != bytes,
    {
        assert forall|handshake: Handshake| handshake.fits() implies #[trigger]
            handshake.encoding() != bytes by {
            if handshake.encoding() == bytes {
                handshake.lemma_encoding_counts(bytes);
            }
        }
    }

    /// Encodes the handshake.
    pub fn encode(&self) -> (bytes: Vec<u8>)
        requires
            self.fits(),
        ensures
            bytes@ == self.encoding(),
    {
        let mut bytes: Vec<u8> = Vec::new();
        bytes.extend_from_slice(u32_to_be_bytes(self.prior_epoch).as_slice());
        bytes.extend_from_slice(u32_to_be_bytes(self.sender).as_slice());
        let tag: u8 = match self.op {
            Operation::Add(_) => 0,
            Operation::Remove(_) => 1,
            Operation::Update(_) => 2,
        };
        bytes.push(tag);
        bytes.extend_from_slice(u32_to_be_bytes(self.op.roster_idx()).as_slice());
        bytes.extend_from_slice(u32_to_be_bytes(self.path_keys.len() as u32).as_slice());
        assert(bytes@ =~= self.header());
        let mut i: usize = 0;
        assert(self.path_keys@.subrange(0, 0) =~= Seq::<[u8; 32]>::empty());
        while i < self.path_keys.len()
            invariant
                i <= self.path_keys@.len(),
                bytes@ == self.header() + encoded_keys(self.path_keys@.subrange(0, i as int)),
            decreases self.path_keys.len() - i,
        {
            bytes.extend_from_slice(self.path_keys[i].as_slice());
            proof {
                let next = self.path_keys@.subrange(0, i + 1);
                assert(next.drop_last() =~= self.path_keys@.subrange(0, i as int));
                assert(next.last() == self.path_keys@[i as int]);
                assert(bytes@ =~= self.header() + encoded_keys(next));
            }
            i += 1;
        }
        assert(self.path_keys@.subrange(0, self.path_keys@.len() as int) =~= self.path_keys@);
        bytes.extend_from_slice(u32_to_be_bytes(self.segments.len() as u32).as_slice());
        let ghost front = self.header() + encoded_keys(self.path_keys@) + u32_be(
            self.segments@.len() as u32,
        );
        assert(bytes@ =~= front);
        let mut i: usize = 0;
        assert(self.segments@.subrange(0, 0) =~= Seq::<Segment>::empty());
        while i < self.segments.len()
            invariant
                i <= self.segments@.len(),
                bytes@ == front + encoded_segments(self.segments@.subrange(0, i as int)),
            decreases self.segments.len() - i,
        {
            let segment = self.segments[i];
            bytes.extend_from_slice(u32_to_be_bytes(segment.recipient).as_slice());
            bytes.extend_from_slice(segment.ephemeral_key.as_slice());
            bytes.extend_from_slice(segment.sealed.as_slice());
            proof {
                let next = self.segments@.subrange(0, i + 1);
                assert(next.drop_last() =~= self.segments@.subrange(0, i as int));
                assert(next.last() == self.segments@[i as int]);
                assert(bytes@ =~= front + encoded_segments(next));
            }
            i += 1;
        }
        assert(self.segments@.subrange(0, self.segments@.len() as int) =~= self.segments@);
        bytes
    }

    /// Decodes a handshake. The bytes are refused unless they are the
    /// encoding of a handshake, and then that handshake comes out.
    pub fn decode(bytes: &[u8]) -> (result: Result<Handshake, Error>)
        ensures
            (match result {
                Ok(handshake) => handshake.fits() && handshake.encoding() == bytes@,
                Err(e) => e == Error::HandshakeDecodeError && forall|handshake: Handshake|
                    handshake.fits() ==> #[trigger] handshake.encoding() != bytes@,
            }),
            result.is_ok() <==> Handshake::framed(bytes@),
    {
        if bytes.len() < HEADER_SIZE + 4 {
            proof {
                Handshake::lemma_unframed_is_no_encoding(bytes@);
            }
            return Err(Error::HandshakeDecodeError);
        }
        let prior_epoch: u32 = u32_from_be_bytes(bytes, 0);
        let sender: u32 = u32_from_be_bytes(bytes, 4);
        let tag: u8 = bytes[8];
        let target: u32 = u32_from_be_bytes(bytes, 9);
        let key_count: u32 = u32_from_be_bytes(bytes, 13);
        let op = if tag == 0 {
            Operation::Add(target)
        } else if tag == 1 {
            Operation::Remove(target)
        } else if tag == 2 {
            Operation::Update(target)
        } else {
            proof {
                Handshake::lemma_unframed_is_no_encoding(bytes@);
            }
            return Err(Error::HandshakeDecodeError);
        };
        proof {
            lemma_u32_from_be_round_trip(bytes@.subrange(0, 4));
            lemma_u32_from_be_round_trip(bytes@.subrange(4, 8));
            lemma_u32_from_be_round_trip(bytes@.subrange(9, 13));
            lemma_u32_from_be_round_trip(bytes@.subrange(13, 17));
        }
        let rest: usize = bytes.len() - HEADER_SIZE - 4;
        if (rest as u64) < 32 * (key_count as u64) {
            proof {
                Handshake::lemma_unframed_is_no_encoding(bytes@);
            }
            return Err(Error::HandshakeDecodeError);
        }
        let path_keys = read_keys(bytes, HEADER_SIZE, key_count as usize);
        let segments_at: usize = HEADER_SIZE + 32 * (key_count as usize);
        let segment_count: u32 = u32_from_be_bytes(bytes, segments_at);
        proof {
            lemma_u32_from_be_round_trip(bytes@.subrange(segments_at as int, segments_at + 4));
        }
        let rest: usize = bytes.len() - segments_at - 4;
        if (rest as u64) != 80 * (segment_count as u64) {
            proof {
                Handshake::lemma_unframed_is_no_encoding(bytes@);
            }
            return Err(Error::HandshakeDecodeError);
        }
        let first: usize = segments_at + 4;
        let segments = read_segments(bytes, first, segment_count as usize);
        let handshake = Handshake { prior_epoch, sender, op, path_keys, segments };
        proof {
            handshake.lemma_assembled(bytes@);
        }
        Ok(handshake)
    }
}

/// Two lists of as many keys with the same encoding hold the same keys.
pub proof fn lemma_encoded_keys_injective(a: Seq<[u8; 32]>, b: Seq<[u8; 32]>)
    requires
        a.len() == b.len(),
        encoded_keys(a) == encoded_keys(b),
    ensures
        a == b,
    decreases a.len(),
{
    if a.len() > 0 {
        lemma_encoded_keys_len(a.drop_last());
        lemma_encoded_keys_len(b.drop_last());
        let cut = 32 * (a.len() - 1);
        assert(encoded_keys(a).subrange(0, cut) =~= encoded_keys(a.drop_last()));
        assert(encoded_keys(b).subrange(0, cut) =~= encoded_keys(b.drop_last()));
        assert(encoded_keys(a).subrange(cut, cut + 32) =~= a.last()@);
        assert(encoded_keys(b).subrange(cut, cut + 32) =~= b.last()@);
        lemma_encoded_keys_injective(a.drop_last(), b.drop_last());
        assert(a.last() =~= b.last());
        assert(a =~= a.drop_last().push(a.last()));
        assert(b =~= b.drop_last().push(b.last()));
    } else {
        assert(a =~= b);
    }
}

/// Two segments with the same encoding are the same segment.
pub proof fn lemma_encoded_segment_injective(a: Segment, b: Segment)
    requires
        encoded_segment(a) == encoded_segment(b),
    ensures
        a == b,
{
    assert(encoded_segment(a).subrange(0, 4) =~= u32_be(a.recipient));
    assert(encoded_segment(b).subrange(0, 4) =~= u32_be(b.recipient));
    lemma_u32_be_round_trip(a.recipient);
    lemma_u32_be_round_trip(b.recipient);
    assert(encoded_segment(a).subrange(4, 36) =~= a.ephemeral_key@);
    assert(encoded_segment(b).subrange(4, 36) =~= b.ephemeral_key@);
    assert(encoded_segment(a).subrange(36, 80) =~= a.sealed@);
    assert(encoded_segment(b).subrange(36, 80) =~= b.sealed@);
    assert(a.ephemeral_key =~= b.ephemeral_key);
    assert(a.sealed =~= b.sealed);
}

/// Two lists of as many segments with the same encoding hold the same
/// segments.
pub proof fn lemma_encoded_segments_injective(a: Seq<Segment>, b: Seq<Segment>)
    requires
        a.len() == b.len(),
        encoded_segments(a) == encoded_segments(b),
    ensures
        a == b,
    decreases a.len(),
{
    if a.len() > 0 {
        lemma_encoded_segments_len(a.drop_last());
        lemma_encoded_segments_len(b.drop_last());
        let cut = 80 * (a.len() - 1);
        assert(encoded_segments(a).subrange(0, cut) =~= encoded_segments(a.drop_last()));
        assert(encoded_segments(b).subrange(0, cut) =~= encoded_segments(b.drop_last()));
        assert(encoded_segments(a).subrange(cut, cut + 80) =~= encoded_segment(a.last()));
        assert(encoded_segments(b).subrange(cut, cut + 80) =~= encoded_segment(b.last()));
        lemma_encoded_segments_injective(a.drop_last(), b.drop_last());
        lemma_encoded_segment_injective(a.last(), b.last());
        assert(a =~= a.drop_last().push(a.last()));
        assert(b =~= b.drop_last().push(b.last()));
    } else {
        assert(a =~= b);
    }
}

/// The encoding determines the handshake: two handshakes with the same
/// encoding agree in every field. So decoding the encoding of a handshake
/// gives that handshake back.
pub proof fn lemma_encoding_injective(a: &Handshake, b: &Handshake)
    requires
        a.fits(),
        b.fits(),
        a.encoding() == b.encoding(),
    ensures
        a.prior_epoch == b.prior_epoch,
        a.sender == b.sender,
        a.op == b.op,
        a.path_keys@ == b.path_keys@,
        a.segments@ == b.segments@,
{
    a.lemma_layout();
    b.lemma_layout();
    a.lemma_encoding_counts(a.encoding());
    b.lemma_encoding_counts(a.encoding());
    lemma_u32_be_round_trip(a.prior_epoch);
    lemma_u32_be_round_trip(b.prior_epoch);
    lemma_u32_be_round_trip(a.sender);
    lemma_u32_be_round_trip(b.sender);
    lemma_u32_be_round_trip(a.op.target());
    lemma_u32_be_round_trip(b.op.target());
    lemma_encoded_keys_injective(a.path_keys@, b.path_keys@);
    lemma_encoded_segments_injective(a.segments@, b.segments@);
}

} // verus!
