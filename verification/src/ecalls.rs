//! The calls by which the host drives the enclave, on plain values: the
//! buffers of the capability, a target address, an amount, and the opaque
//! bytes of an attestation report.

use crate::application::chain_key_after;
use crate::application::opened_message;
use crate::application::sealed_message;
use crate::application::sealed_update;
use crate::bytes::chunk;
use crate::bytes::lemma_u32_be_round_trip;
use crate::bytes::lemma_u32_from_be_round_trip;
use crate::bytes::u32_be;
use crate::bytes::u32_from_be;
use crate::bytes::u32_from_be_bytes;
use crate::bytes::u32_to_be_bytes;
use crate::bytes::split_chunks;
use crate::bytes::subrange;
use crate::context::sealable;
use crate::context::ReturnUpdatedState;
use crate::kvs::written;
use crate::stf::StateTransition;
use crate::context::locks_updates;
use crate::context::seals_updates;
use crate::context::EnclaveContext;
use crate::context::SealedInstruction;
use crate::context::MAX_UPDATES;
use crate::crypto::address_of;
use crate::crypto::AccessPolicy;
use crate::crypto::AccessRight;
use crate::crypto::Ciphertext;
use crate::crypto::UserAddress;
use crate::crypto::CIPHERTEXT_SIZE;
use crate::error::Error;
use crate::handshake::Handshake;
use crate::secrets::PathSecretRequest;
use crate::kvs::state_in;
use crate::primitives::ed25519_accepts;
use crate::state_type::U64;
use crate::stf::construct_updates;
use crate::stf::transfer_updates;
use crate::stf::Construct;
use crate::stf::Transfer;
use vstd::bytes::spec_u64_to_le_bytes;
use vstd::prelude::*;

verus! {

/// The bytes of `ciphertexts`, one after the other.
pub open spec fn joined(ciphertexts: Seq<Ciphertext>) -> Seq<u8>
    decreases ciphertexts.len(),
{
    if ciphertexts.len() == 0 {
        Seq::empty()
    } else {
        joined(ciphertexts.drop_last()) + ciphertexts.last()@
    }
}

/// Ciphertexts joined take the ciphertext length each.
pub proof fn lemma_joined_len(ciphertexts: Seq<Ciphertext>)
    ensures
        joined(ciphertexts).len() == ciphertexts.len() * CIPHERTEXT_SIZE,
    decreases ciphertexts.len(),
{
    if ciphertexts.len() > 0 {
        lemma_joined_len(ciphertexts.drop_last());
        assert((ciphertexts.len() - 1) * CIPHERTEXT_SIZE + CIPHERTEXT_SIZE == ciphertexts.len()
            * CIPHERTEXT_SIZE) by (nonlinear_arith);
    }
}

/// The piece of joined ciphertexts at a position is the ciphertext at that
/// position.
pub proof fn lemma_joined_chunk(ciphertexts: Seq<Ciphertext>, position: int)
    requires
        0 <= position < ciphertexts.len(),
    ensures
        chunk(joined(ciphertexts), CIPHERTEXT_SIZE as int, position) == ciphertexts[position]@,
    decreases ciphertexts.len(),
{
    let init = ciphertexts.drop_last();
    lemma_joined_len(init);
    lemma_joined_len(ciphertexts);
    let size = CIPHERTEXT_SIZE as int;
    assert(size == 20);
    assert(position * size == 20 * position && (position + 1) * size == 20 * position + 20
        && init.len() * size == 20 * init.len()) by (nonlinear_arith)
        requires
            size == 20,
    ;
    if position == ciphertexts.len() - 1 {
        assert(chunk(joined(ciphertexts), CIPHERTEXT_SIZE as int, position)
            =~= ciphertexts.last()@);
    } else {
        lemma_joined_chunk(init, position);
        assert(chunk(joined(ciphertexts), CIPHERTEXT_SIZE as int, position) =~= chunk(
            joined(init),
            CIPHERTEXT_SIZE as int,
            position,
        ));
    }
}

/// A transaction that the host is to sign and submit: the attestation
/// report and its signature, passed on as they came, and the ciphertexts of
/// an instruction.
#[derive(Debug)]
pub struct UnsignedTx {
    pub report: Vec<u8>,
    pub report_sig: Vec<u8>,
    /// The number of ciphertexts.
    pub ciphertext_num: u32,
    /// The ciphertexts, one after the other: the instruction first, then
    /// the states that it wrote.
    pub ciphertexts: Vec<u8>,
}

impl UnsignedTx {
    /// Whether the ciphertexts are as many as the count says.
    pub open spec fn wf(&self) -> bool {
        self.ciphertexts@.len() == self.ciphertext_num * CIPHERTEXT_SIZE
    }

    /// Whether the ciphertexts of the transaction are `instruction`
    /// followed by those of `states`, in order.
    pub open spec fn holds(&self, instruction: Seq<u8>, states: Seq<Ciphertext>) -> bool {
        &&& self.ciphertext_num == 1 + states.len()
        &&& chunk(self.ciphertexts@, CIPHERTEXT_SIZE as int, 0) == instruction
        &&& forall|i: int|
            0 <= i < states.len() ==> chunk(self.ciphertexts@, CIPHERTEXT_SIZE as int, i + 1) == (
            #[trigger] states[i])@
    }

    /// Whether the transaction holds the instruction `payload` sealed under
    /// the chain key `key`, followed by the states of `updates`, each sealed
    /// at its position under that key.
    pub open spec fn carries(
        &self,
        key: Seq<u8>,
        payload: Seq<u8>,
        updates: Seq<(Seq<u8>, Seq<u8>)>,
    ) -> bool {
        &&& self.wf()
        &&& self.ciphertext_num == 1 + updates.len()
        &&& chunk(self.ciphertexts@, CIPHERTEXT_SIZE as int, 0) == sealed_message(key, payload)
        &&& forall|i: int|
            0 <= i < updates.len() ==> #[trigger] chunk(
                self.ciphertexts@,
                CIPHERTEXT_SIZE as int,
                i + 1,
            ) == sealed_update(key, i as u32, updates[i].1)
    }

    /// Packages a sealed instruction with the attestation report and its
    /// signature.
    pub fn package(report: Vec<u8>, report_sig: Vec<u8>, sealed: &SealedInstruction) -> (tx:
        UnsignedTx)
        requires
            sealed.ciphertexts@.len() <= MAX_UPDATES,
        ensures
            tx.report == report,
            tx.report_sig == report_sig,
            tx.ciphertext_num == 1 + sealed.ciphertexts@.len(),
            tx.ciphertexts@ == sealed.instruction@ + joined(sealed.ciphertexts@),
            tx.wf(),
            tx.holds(sealed.instruction@, sealed.ciphertexts@),
    {
        let mut ciphertexts: Vec<u8> = Vec::new();
        ciphertexts.extend_from_slice(sealed.instruction.as_bytes());
        assert(ciphertexts@ =~= sealed.instruction@ + joined(sealed.ciphertexts@.subrange(0, 0)));
        let mut i: usize = 0;
        while i < sealed.ciphertexts.len()
            invariant
                i <= sealed.ciphertexts@.len(),
                ciphertexts@ == sealed.instruction@ + joined(
                    sealed.ciphertexts@.subrange(0, i as int),
                ),
            decreases sealed.ciphertexts.len() - i,
        {
            ciphertexts.extend_from_slice(sealed.ciphertexts[i].as_bytes());
            proof {
                let next = sealed.ciphertexts@.subrange(0, i + 1);
                assert(next.drop_last() =~= sealed.ciphertexts@.subrange(0, i as int));
                assert(next.last() == sealed.ciphertexts@[i as int]);
                assert(ciphertexts@ =~= sealed.instruction@ + joined(next));
            }
            i += 1;
        }
        proof {
            assert(sealed.ciphertexts@.subrange(0, sealed.ciphertexts@.len() as int)
                =~= sealed.ciphertexts@);
            lemma_joined_len(sealed.ciphertexts@);
            assert((1 + sealed.ciphertexts@.len()) * CIPHERTEXT_SIZE == CIPHERTEXT_SIZE
                + sealed.ciphertexts@.len() * CIPHERTEXT_SIZE) by (nonlinear_arith);
        }
        proof {
            let all = sealed.instruction@ + joined(sealed.ciphertexts@);
            assert(chunk(all, CIPHERTEXT_SIZE as int, 0) =~= sealed.instruction@);
            assert forall|i: int| 0 <= i < sealed.ciphertexts@.len() implies chunk(
                all,
                CIPHERTEXT_SIZE as int,
                i + 1,
            ) == (#[trigger] sealed.ciphertexts@[i])@ by {
                lemma_joined_chunk(sealed.ciphertexts@, i);
                lemma_joined_len(sealed.ciphertexts@);
                let size = CIPHERTEXT_SIZE as int;
                assert(i * size == 20 * i && (i + 1) * size == 20 * i + 20 && (i + 2) * size == 20
                    * i + 40 && sealed.ciphertexts@.len() * size == 20
                    * sealed.ciphertexts@.len()) by (nonlinear_arith)
                    requires
                        size == 20,
                ;
                assert(chunk(all, CIPHERTEXT_SIZE as int, i + 1) =~= chunk(
                    joined(sealed.ciphertexts@),
                    CIPHERTEXT_SIZE as int,
                    i,
                ));
            }
        }
        UnsignedTx {
            report,
            report_sig,
            ciphertext_num: (1 + sealed.ciphertexts.len()) as u32,
            ciphertexts,
        }
    }

    /// Whether the transaction can be encoded: the report and its signature
    /// have lengths that fit in four bytes, and the ciphertexts are as many
    /// as the count says.
    pub open spec fn fits(&self) -> bool {
        self.report@.len() <= u32::MAX && self.report_sig@.len() <= u32::MAX && self.wf()
    }

    /// The transaction as bytes: the report and its signature, each after
    /// its length, then the count of ciphertexts and the ciphertexts.
    pub open spec fn encoding(&self) -> Seq<u8> {
        u32_be(self.report@.len() as u32) + self.report@ + u32_be(self.report_sig@.len() as u32)
            + self.report_sig@ + u32_be(self.ciphertext_num) + self.ciphertexts@
    }

    /// Where each part of the encoding lies.
    pub proof fn lemma_layout(&self)
        requires
            self.fits(),
        ensures
            ({
                let e = self.encoding();
                let a = self.report@.len() as int;
                let b = self.report_sig@.len() as int;
                &&& e.len() == 12 + a + b + self.ciphertexts@.len()
                &&& u32_from_be(e.subrange(0, 4)) == a
                &&& e.subrange(4, 4 + a) == self.report@
                &&& u32_from_be(e.subrange(4 + a, 8 + a)) == b
                &&& e.subrange(8 + a, 8 + a + b) == self.report_sig@
                &&& u32_from_be(e.subrange(8 + a + b, 12 + a + b)) == self.ciphertext_num
                &&& e.subrange(12 + a + b, e.len() as int) == self.ciphertexts@
            }),
    {
        let e = self.encoding();
        let a = self.report@.len() as int;
        let b = self.report_sig@.len() as int;
        lemma_u32_be_round_trip(self.report@.len() as u32);
        lemma_u32_be_round_trip(self.report_sig@.len() as u32);
        lemma_u32_be_round_trip(self.ciphertext_num);
        assert(e.subrange(0, 4) =~= u32_be(self.report@.len() as u32));
        assert(e.subrange(4, 4 + a) =~= self.report@);
        assert(e.subrange(4 + a, 8 + a) =~= u32_be(self.report_sig@.len() as u32));
        assert(e.subrange(8 + a, 8 + a + b) =~= self.report_sig@);
        assert(e.subrange(8 + a + b, 12 + a + b) =~= u32_be(self.ciphertext_num));
        assert(e.subrange(12 + a + b, e.len() as int) =~= self.ciphertexts@);
    }

    /// Bytes whose parts are the parts of the encoding are the encoding.
    pub proof fn lemma_assembled(&self, bytes: Seq<u8>)
        requires
            self.fits(),
            ({
                let a = self.report@.len() as int;
                let b = self.report_sig@.len() as int;
                &&& bytes.len() == 12 + a + b + self.ciphertexts@.len()
                &&& u32_from_be(bytes.subrange(0, 4)) == a
                &&& bytes.subrange(4, 4 + a) == self.report@
                &&& u32_from_be(bytes.subrange(4 + a, 8 + a)) == b
                &&& bytes.subrange(8 + a, 8 + a + b) == self.report_sig@
                &&& u32_from_be(bytes.subrange(8 + a + b, 12 + a + b)) == self.ciphertext_num
                &&& bytes.subrange(12 + a + b, bytes.len() as int) == self.ciphertexts@
            }),
        ensures
            self.encoding() == bytes,
    {
        let a = self.report@.len() as int;
        let b = self.report_sig@.len() as int;
        lemma_u32_from_be_round_trip(bytes.subrange(0, 4));
        lemma_u32_from_be_round_trip(bytes.subrange(4 + a, 8 + a));
        lemma_u32_from_be_round_trip(bytes.subrange(8 + a + b, 12 + a + b));
        let parts = bytes.subrange(0, 4) + bytes.subrange(4, 4 + a) + bytes.subrange(4 + a, 8 + a)
            + bytes.subrange(8 + a, 8 + a + b) + bytes.subrange(8 + a + b, 12 + a + b)
            + bytes.subrange(12 + a + b, bytes.len() as int);
        assert(parts =~= bytes);
    }

    /// Whether bytes are framed as a transaction: the announced lengths of
    /// the report and of its signature lie within the bytes, and what
    /// follows the count of ciphertexts is that many ciphertexts.
    pub open spec fn framed(bytes: Seq<u8>) -> bool {
        let report_len = u32_from_be(bytes.subrange(0, 4));
        let sig_len = u32_from_be(bytes.subrange(4 + report_len, 8 + report_len));
        let num = u32_from_be(
            bytes.subrange(8 + report_len + sig_len, 12 + report_len + sig_len),
        );
        &&& bytes.len() >= 4
        &&& bytes.len() >= 8 + report_len
        &&& bytes.len() >= 12 + report_len + sig_len
        &&& bytes.len() == 12 + report_len + sig_len + 20 * num
    }

    /// Bytes that are not framed as a transaction encode none.
    pub proof fn lemma_unframed_is_no_encoding(bytes: Seq<u8>)
        requires
            !UnsignedTx::framed(bytes),
        ensures
            forall|tx: UnsignedTx| tx.fits() ==> #[trigger] tx.encoding() != bytes,
    {
        assert forall|tx: UnsignedTx| tx.fits() implies #[trigger] tx.encoding() != bytes by {
            if tx.encoding() == bytes {
                tx.lemma_layout();
            }
        }
    }

    /// Encodes the transaction for the way across the enclave boundary.
    pub fn encode(&self) -> (bytes: Vec<u8>)
        requires
            self.fits(),
        ensures
            bytes@ == self.encoding(),
    {
        let mut bytes: Vec<u8> = Vec::new();
        bytes.extend_from_slice(u32_to_be_bytes(self.report.len() as u32).as_slice());
        bytes.extend_from_slice(self.report.as_slice());
        bytes.extend_from_slice(u32_to_be_bytes(self.report_sig.len() as u32).as_slice());
        bytes.extend_from_slice(self.report_sig.as_slice());
        bytes.extend_from_slice(u32_to_be_bytes(self.ciphertext_num).as_slice());
        bytes.extend_from_slice(self.ciphertexts.as_slice());
        assert(bytes@ =~= self.encoding());
        bytes
    }

    /// Decodes a transaction into buffers of its own. The bytes are refused
    /// unless they are the encoding of a transaction, and then that
    /// transaction comes out.
    pub fn decode(bytes: &[u8]) -> (result: Result<UnsignedTx, Error>)
        ensures
            (match result {
                Ok(tx) => tx.fits() && tx.encoding() == bytes@,
                Err(e) => e == Error::MalformedCiphertext && forall|tx: UnsignedTx|
                    tx.fits() ==> #[trigger] tx.encoding() != bytes@,
            }),
            result.is_ok() <==> UnsignedTx::framed(bytes@),
    {
        let len: usize = bytes.len();
        if len < 4 {
            proof {
                UnsignedTx::lemma_unframed_is_no_encoding(bytes@);
            }
            return Err(Error::MalformedCiphertext);
        }
        let report_len: usize = u32_from_be_bytes(bytes, 0) as usize;
        if len - 4 < report_len || len - 4 - report_len < 4 {
            proof {
                UnsignedTx::lemma_unframed_is_no_encoding(bytes@);
            }
            return Err(Error::MalformedCiphertext);
        }
        let sig_at: usize = 4 + report_len;
        let sig_len: usize = u32_from_be_bytes(bytes, sig_at) as usize;
        if len - sig_at - 4 < sig_len || len - sig_at - 4 - sig_len < 4 {
            proof {
                UnsignedTx::lemma_unframed_is_no_encoding(bytes@);
            }
            return Err(Error::MalformedCiphertext);
        }
        let num_at: usize = sig_at + 4 + sig_len;
        let ciphertext_num: u32 = u32_from_be_bytes(bytes, num_at);
        let rest: usize = len - num_at - 4;
        if (rest as u64) != 20 * (ciphertext_num as u64) {
            proof {
                UnsignedTx::lemma_unframed_is_no_encoding(bytes@);
            }
            return Err(Error::MalformedCiphertext);
        }
        let tx = UnsignedTx {
            report: subrange(bytes, 4, sig_at),
            report_sig: subrange(bytes, sig_at + 4, num_at),
            ciphertext_num,
            ciphertexts: subrange(bytes, num_at + 4, len),
        };
        proof {
            tx.lemma_assembled(bytes@);
        }
        Ok(tx)
    }

    /// The two ciphertexts of a transaction that holds two.
    pub fn get_two_ciphertexts(&self) -> (two: Option<(Vec<u8>, Vec<u8>)>)
        ensures
            two.is_some() <==> self.ciphertext_num == 2 && self.wf(),
            two matches Some((first, second)) ==> first@ == self.ciphertexts@.subrange(
                0,
                CIPHERTEXT_SIZE as int,
            ) && second@ == self.ciphertexts@.subrange(
                CIPHERTEXT_SIZE as int,
                2 * CIPHERTEXT_SIZE,
            ),
    {
        if self.ciphertext_num != 2 || self.ciphertexts.len() != 2 * CIPHERTEXT_SIZE {
            return None;
        }
        let first = subrange(self.ciphertexts.as_slice(), 0, CIPHERTEXT_SIZE);
        let second = subrange(self.ciphertexts.as_slice(), CIPHERTEXT_SIZE, 2 * CIPHERTEXT_SIZE);
        Some((first, second))
    }
}

/// Reads the state of the signer as an amount, once the signature `sig`
/// over `msg` has been checked under `pubkey`.
pub fn ecall_get_state(context: &EnclaveContext, sig: &[u8; 64], pubkey: &[u8; 32], msg: &[u8; 32])
    -> (result: Result<u64, Error>)
    ensures
        (match result {
            Ok(value) => ed25519_accepts(pubkey@, msg@, sig@) && U64::decoded(
                state_in(context.states(), address_of(pubkey@)),
            ) == Some(U64(value)),
            Err(Error::InvalidCapability) => !ed25519_accepts(pubkey@, msg@, sig@),
            Err(Error::StateSizeMismatch) => ed25519_accepts(pubkey@, msg@, sig@) && U64::decoded(
                state_in(context.states(), address_of(pubkey@)),
            ).is_none(),
            Err(_) => false,
        }),
{
    let policy = AccessPolicy::Ed25519ChallengeResponse(
        AccessRight { sig: *sig, pubkey: *pubkey, challenge: *msg },
    );
    let state = match context.get_state(&policy) {
        Ok(state) => state,
        Err(e) => return Err(e),
    };
    match U64::try_from_state(&state) {
        Some(value) => Ok(value.as_raw()),
        None => Err(Error::StateSizeMismatch),
    }
}

/// Moves `value` from the signer to `target`, once the signature `sig`
/// over `msg` has been checked under `pubkey`, registers the signer for
/// notifications, and packages the sealed instruction with the attestation
/// report. Returns `None`, with nothing changed, where the transfer is
/// rejected.
pub fn ecall_state_transition(
    context: &mut EnclaveContext,
    sig: &[u8; 64],
    pubkey: &[u8; 32],
    msg: &[u8; 32],
    target: &[u8; 20],
    value: u64,
    report: Vec<u8>,
    report_sig: Vec<u8>,
) -> (result: Result<Option<UnsignedTx>, Error>)
    ensures
        (match result {
            Ok(Some(tx)) => {
                &&& transfer_updates(
                    address_of(pubkey@),
                    target@,
                    spec_u64_to_le_bytes(value),
                    old(context).states(),
                ) matches Some(updates)
                &&& old(context).construction_refusal(
                    &AccessPolicy::Ed25519ChallengeResponse(
                        AccessRight { sig: *sig, pubkey: *pubkey, challenge: *msg },
                    ),
                    address_of(pubkey@),
                    spec_u64_to_le_bytes(value),
                    Some(updates),
                ).is_none()
                &&& final(context).made(
                    old(context),
                    old(context).group().my_roster_idx() as int,
                    updates,
                    address_of(pubkey@),
                )
                &&& tx.report == report
                &&& tx.report_sig == report_sig
                &&& tx.carries(
                    old(context).chain().chain_key(old(context).group().my_roster_idx() as int),
                    spec_u64_to_le_bytes(value),
                    updates,
                )
            },
            Ok(None) => {
                &&& old(context).construction_refusal(
                    &AccessPolicy::Ed25519ChallengeResponse(
                        AccessRight { sig: *sig, pubkey: *pubkey, challenge: *msg },
                    ),
                    address_of(pubkey@),
                    spec_u64_to_le_bytes(value),
                    None,
                ).is_none()
                &&& transfer_updates(
                    address_of(pubkey@),
                    target@,
                    spec_u64_to_le_bytes(value),
                    old(context).states(),
                ).is_none()
                &&& *final(context) == *old(context)
            },
            Err(e) => *final(context) == *old(context) && Some(e)
                == old(context).construction_refusal(
                &AccessPolicy::Ed25519ChallengeResponse(
                    AccessRight { sig: *sig, pubkey: *pubkey, challenge: *msg },
                ),
                address_of(pubkey@),
                spec_u64_to_le_bytes(value),
                transfer_updates(
                    address_of(pubkey@),
                    target@,
                    spec_u64_to_le_bytes(value),
                    old(context).states(),
                ),
            ),
        }),
{
    let policy = AccessPolicy::Ed25519ChallengeResponse(
        AccessRight { sig: *sig, pubkey: *pubkey, challenge: *msg },
    );
    let stf = Transfer {
        sender: UserAddress::from_pubkey(pubkey),
        recipient: UserAddress::from_array(*target),
    };
    let payload = U64::from_raw(value).as_bytes();
    match context.construct_instruction(&stf, &policy, payload.as_slice()) {
        Ok(Some(sealed)) => {
            let tx = UnsignedTx::package(report, report_sig, &sealed);
            proof {
                let key = old(context).chain().chain_key(
                    old(context).group().my_roster_idx() as int,
                );
                let updates = transfer_updates(
                    address_of(pubkey@),
                    target@,
                    spec_u64_to_le_bytes(value),
                    old(context).states(),
                ).unwrap();
                assert forall|i: int| 0 <= i < updates.len() implies #[trigger] chunk(
                    tx.ciphertexts@,
                    CIPHERTEXT_SIZE as int,
                    i + 1,
                ) == sealed_update(key, i as u32, updates[i].1) by {
                    assert(chunk(tx.ciphertexts@, CIPHERTEXT_SIZE as int, i + 1)
                        == sealed.ciphertexts@[i]@);
                }
            }
            Ok(Some(tx))
        },
        Ok(None) => Ok(None),
        Err(e) => Err(e),
    }
}

/// Gives the signer the whole supply `value`, once the signature `sig`
/// over `msg` has been checked under `pubkey`, registers the signer for
/// notifications, and packages the sealed instruction with the attestation
/// report.
pub fn ecall_init_state(
    context: &mut EnclaveContext,
    sig: &[u8; 64],
    pubkey: &[u8; 32],
    msg: &[u8; 32],
    value: u64,
    report: Vec<u8>,
    report_sig: Vec<u8>,
) -> (result: Result<UnsignedTx, Error>)
    ensures
        (match result {
            Ok(tx) => {
                &&& old(context).construction_refusal(
                    &AccessPolicy::Ed25519ChallengeResponse(
                        AccessRight { sig: *sig, pubkey: *pubkey, challenge: *msg },
                    ),
                    address_of(pubkey@),
                    spec_u64_to_le_bytes(value),
                    Some(seq![(address_of(pubkey@), spec_u64_to_le_bytes(value))]),
                ).is_none()
                &&& final(context).made(
                    old(context),
                    old(context).group().my_roster_idx() as int,
                    seq![(address_of(pubkey@), spec_u64_to_le_bytes(value))],
                    address_of(pubkey@),
                )
                &&& tx.report == report
                &&& tx.report_sig == report_sig
                &&& tx.carries(
                    old(context).chain().chain_key(old(context).group().my_roster_idx() as int),
                    spec_u64_to_le_bytes(value),
                    seq![(address_of(pubkey@), spec_u64_to_le_bytes(value))],
                )
            },
            Err(e) => *final(context) == *old(context) && Some(e)
                == old(context).construction_refusal(
                &AccessPolicy::Ed25519ChallengeResponse(
                    AccessRight { sig: *sig, pubkey: *pubkey, challenge: *msg },
                ),
                address_of(pubkey@),
                spec_u64_to_le_bytes(value),
                Some(seq![(address_of(pubkey@), spec_u64_to_le_bytes(value))]),
            ),
        }),
{
    let policy = AccessPolicy::Ed25519ChallengeResponse(
        AccessRight { sig: *sig, pubkey: *pubkey, challenge: *msg },
    );
    let stf = Construct { owner: UserAddress::from_pubkey(pubkey) };
    let payload = U64::from_raw(value).as_bytes();
    proof {
        vstd::bytes::lemma_auto_spec_u64_to_from_le_bytes();
        assert(payload@.subrange(0, 8) =~= payload@);
        assert(construct_updates(address_of(pubkey@), payload@) == Some(
            seq![(address_of(pubkey@), spec_u64_to_le_bytes(value))],
        ));
    }
    match context.construct_instruction(&stf, &policy, payload.as_slice()) {
        Ok(Some(sealed)) => {
            let tx = UnsignedTx::package(report, report_sig, &sealed);
            proof {
                assert forall|i: int| 0 <= i < sealed.ciphertexts@.len() implies chunk(
                    tx.ciphertexts@,
                    CIPHERTEXT_SIZE as int,
                    i + 1,
                ) == sealed.ciphertexts@[i]@ by {
                    assert(sealed.ciphertexts@[i] == sealed.ciphertexts@[i]);
                }
            }
            Ok(tx)
        },
        Ok(None) => {
            // An amount of eight bytes is never rejected.
            assert(false);
            Err(Error::StateSizeMismatch)
        },
        Err(e) => Err(e),
    }
}

/// What a ciphertext comes to as an instruction under the chain key `key`
/// over `states`: `None` where it is refused, and otherwise the states that
/// the function writes, or none if the function rejects the instruction.
pub open spec fn consumed<T: StateTransition>(
    stf: &T,
    states: Map<Seq<u8>, Seq<u8>>,
    key: Seq<u8>,
    ciphertext: Seq<u8>,
) -> Option<Option<Seq<(Seq<u8>, Seq<u8>)>>> {
    if ciphertext.len() != CIPHERTEXT_SIZE {
        None
    } else {
        match opened_message(key, ciphertext) {
            None => None,
            Some(payload) => match stf.transition(payload, states) {
                Some(updates) => if sealable(updates) {
                    Some(Some(updates))
                } else {
                    None
                },
                None => Some(None),
            },
        }
    }
}

/// What a batch of ciphertexts comes to, applied in order as the
/// instructions of one member whose chain key is `key` and whose chain can
/// take `room` more steps: the states after it, and the number of
/// ciphertexts applied. Each ciphertext is opened under the chain key that
/// follows the one before it; the batch stops at the first ciphertext that
/// is refused.
pub open spec fn batch<T: StateTransition>(
    stf: &T,
    states: Map<Seq<u8>, Seq<u8>>,
    key: Seq<u8>,
    room: nat,
    ciphertexts: Seq<Seq<u8>>,
) -> (Map<Seq<u8>, Seq<u8>>, nat)
    decreases ciphertexts.len(),
{
    if ciphertexts.len() == 0 {
        (states, 0)
    } else {
        let (before, applied) = batch(stf, states, key, room, ciphertexts.drop_last());
        if applied < ciphertexts.len() - 1 || applied >= room {
            (before, applied)
        } else {
            match consumed(stf, before, chain_key_after(key, applied), ciphertexts.last()) {
                None => (before, applied),
                Some(None) => (before, applied + 1),
                Some(Some(updates)) => (written(before, updates), applied + 1),
            }
        }
    }
}

/// A batch that has stopped stays where it stopped, whatever follows.
pub proof fn lemma_batch_stops<T: StateTransition>(
    stf: &T,
    states: Map<Seq<u8>, Seq<u8>>,
    key: Seq<u8>,
    room: nat,
    ciphertexts: Seq<Seq<u8>>,
    upto: int,
)
    requires
        0 <= upto <= ciphertexts.len(),
        batch(stf, states, key, room, ciphertexts.subrange(0, upto)).1 < upto,
    ensures
        batch(stf, states, key, room, ciphertexts) == batch(
            stf,
            states,
            key,
            room,
            ciphertexts.subrange(0, upto),
        ),
    decreases ciphertexts.len(),
{
    if upto == ciphertexts.len() {
        assert(ciphertexts.subrange(0, upto) =~= ciphertexts);
    } else {
        let init = ciphertexts.drop_last();
        assert(init.subrange(0, upto) =~= ciphertexts.subrange(0, upto));
        lemma_batch_stops(stf, states, key, room, init, upto);
    }
}

/// What inserting a batch of logs gave.
#[derive(Debug)]
pub struct InsertedLogs {
    /// The number of ciphertexts applied.
    pub applied: usize,
    /// What each applied ciphertext gave, in order.
    pub outputs: Vec<ReturnUpdatedState>,
    /// Why the batch stopped before its end, if it did.
    pub refused: Option<Error>,
}

/// Whether a batch is framed as the enclave boundary asks: the count is
/// not zero, it divides the length, and each piece has the ciphertext
/// length.
pub open spec fn framed(length: nat, ciphertexts_num: u32) -> bool {
    ciphertexts_num > 0 && length % ciphertexts_num as nat == 0 && length / ciphertexts_num as nat
        == CIPHERTEXT_SIZE
}

/// The pieces of a framed batch.
pub open spec fn pieces(ciphertexts: Seq<u8>, ciphertexts_num: u32) -> Seq<Seq<u8>> {
    Seq::new(ciphertexts_num as nat, |i: int| chunk(ciphertexts, CIPHERTEXT_SIZE as int, i))
}

/// The number of steps that the chain of `roster_idx` can still take.
pub open spec fn room(context: &EnclaveContext, roster_idx: int) -> nat {
    if context.chain().usable(roster_idx) {
        (u64::MAX - context.chain().generation(roster_idx)) as nat
    } else {
        0
    }
}

/// Whether `context` is `before` after `applied` instructions of
/// `roster_idx` were applied: the chain of `roster_idx` has moved that many
/// steps, and no other chain, nor the group, has changed.
pub open spec fn advanced(
    context: &EnclaveContext,
    before: &EnclaveContext,
    roster_idx: int,
    applied: nat,
) -> bool {
    &&& context.group() == before.group()
    &&& context.chain().roster_len() == before.chain().roster_len()
    &&& forall|address: Seq<u8>| context.notifies(address) == before.notifies(address)
    &&& forall|other: int|
        other != roster_idx ==> context.chain().slot(other) == before.chain().slot(other)
    &&& if applied == 0 {
        context.chain().slot(roster_idx) == before.chain().slot(roster_idx)
    } else {
        &&& before.chain().slot(roster_idx).is_some()
        &&& context.chain().slot(roster_idx).is_some()
        &&& context.chain().chain_key(roster_idx) == chain_key_after(
            before.chain().chain_key(roster_idx),
            applied,
        )
        &&& context.chain().generation(roster_idx) == before.chain().generation(roster_idx)
            + applied
    }
}

/// Applies a batch of ciphertexts from the log, in order, as instructions
/// of the member at `roster_idx`. A batch that is not framed as the
/// boundary asks is refused whole. Otherwise the ciphertexts are applied
/// one by one, up to the first that is refused, and the reason is the one
/// for which the context, as it then stands, refuses that ciphertext.
pub fn ecall_insert_logs<T: StateTransition>(
    context: &mut EnclaveContext,
    stf: &T,
    roster_idx: usize,
    ciphertexts: &[u8],
    ciphertexts_num: u32,
) -> (logs: InsertedLogs)
    ensures
        !framed(ciphertexts@.len(), ciphertexts_num) ==> logs.applied == 0 && logs.refused == Some(
            Error::MalformedCiphertext,
        ) && *final(context) == *old(context),
        framed(ciphertexts@.len(), ciphertexts_num) ==> {
            let outcome = batch(
                stf,
                old(context).states(),
                old(context).chain().chain_key(roster_idx as int),
                room(old(context), roster_idx as int),
                pieces(ciphertexts@, ciphertexts_num),
            );
            &&& logs.applied == outcome.1
            &&& final(context).states() == outcome.0
            &&& advanced(final(context), old(context), roster_idx as int, outcome.1)
            &&& logs.refused.is_none() <==> logs.applied == ciphertexts_num
            &&& logs.refused matches Some(e) ==> final(context).refusal(
                stf,
                roster_idx as int,
                pieces(ciphertexts@, ciphertexts_num)[logs.applied as int],
            ) == Some(e)
        },
        logs.outputs@.len() == logs.applied,
{
    if ciphertexts_num == 0 || ciphertexts.len() % (ciphertexts_num as usize) != 0
        || ciphertexts.len() / (ciphertexts_num as usize) != CIPHERTEXT_SIZE {
        return InsertedLogs {
            applied: 0,
            outputs: Vec::new(),
            refused: Some(Error::MalformedCiphertext),
        };
    }
    proof {
        let length = ciphertexts@.len() as int;
        let count = ciphertexts_num as int;
        assert(length == count * CIPHERTEXT_SIZE && length % (CIPHERTEXT_SIZE as int) == 0
            && length / (CIPHERTEXT_SIZE as int) == count) by (nonlinear_arith)
            requires
                count > 0,
                length % count == 0,
                length / count == CIPHERTEXT_SIZE,
                CIPHERTEXT_SIZE == 20,
        ;
    }
    let chunks = split_chunks(ciphertexts, CIPHERTEXT_SIZE);
    let ghost all = pieces(ciphertexts@, ciphertexts_num);
    let ghost key = context.chain().chain_key(roster_idx as int);
    let ghost room = room(context, roster_idx as int);
    let ghost states = context.states();
    let mut outputs: Vec<ReturnUpdatedState> = Vec::new();
    let mut i: usize = 0;
    proof {
        assert(all.subrange(0, 0) =~= Seq::<Seq<u8>>::empty());
    }
    while i < chunks.len()
        invariant
            i <= chunks@.len() == ciphertexts_num,
            framed(ciphertexts@.len(), ciphertexts_num),
            all == pieces(ciphertexts@, ciphertexts_num),
            forall|j: int| 0 <= j < chunks@.len() ==> (#[trigger] chunks@[j])@ == all[j],
            key == old(context).chain().chain_key(roster_idx as int),
            room == self::room(old(context), roster_idx as int),
            states == old(context).states(),
            outputs@.len() == i,
            batch(stf, states, key, room, all.subrange(0, i as int)) == (
                context.states(),
                i as nat,
            ),
            advanced(context, old(context), roster_idx as int, i as nat),
        decreases chunks.len() - i,
    {
        let ghost now = *context;
        let ghost prefix = all.subrange(0, i as int);
        let ghost next = all.subrange(0, i + 1);
        proof {
            assert(next.drop_last() =~= prefix);
            assert(next.last() == all[i as int]);
        }
        match context.insert_ciphertext(stf, roster_idx, chunks[i].as_slice()) {
            Ok(output) => {
                proof {
                    assert(now.chain().usable(roster_idx as int));
                    assert(i < room);
                    assert(consumed(
                        stf,
                        now.states(),
                        chain_key_after(key, i as nat),
                        all[i as int],
                    ).is_some());
                    assert(batch(stf, states, key, room, next) == (
                        context.states(),
                        (i + 1) as nat,
                    ));
                }
                outputs.push(output);
            },
            Err(e) => {
                proof {
                    assert(batch(stf, states, key, room, next) == (now.states(), i as nat));
                    lemma_batch_stops(stf, states, key, room, all, i + 1);
                }
                return InsertedLogs { applied: i, outputs, refused: Some(e) };
            },
        }
        i += 1;
    }
    proof {
        assert(all.subrange(0, all.len() as int) =~= all);
    }
    InsertedLogs { applied: i, outputs, refused: None }
}

/// Applies a handshake received from the log as bytes: decodes it, moves
/// the group to the next epoch and replaces the key chain by that of the
/// new epoch, a fresh chain for every member, derived from the new root
/// secret. The state store stays. Bytes that are no handshake, and a
/// handshake that is refused, change nothing.
pub fn ecall_insert_handshake(
    context: &mut EnclaveContext,
    handshake: &[u8],
    req: &PathSecretRequest,
) -> (result: Result<(), Error>)
    requires
        old(context).group().wf(),
    ensures
        (forall|decoded: Handshake| decoded.fits() ==> #[trigger] decoded.encoding() != handshake@)
            ==> result == Err::<(), Error>(Error::HandshakeDecodeError),
        result.is_err() ==> *final(context) == *old(context),
        forall|decoded: Handshake|
            decoded.fits() && #[trigger] decoded.encoding() == handshake@ ==> (match result {
                Ok(()) => {
                    &&& final(context).group().applied(&old(context).group(), &decoded, req)
                    &&& final(context).group().is_member()
                    &&& final(context).group().held_root() matches Some(root)
                    &&& final(context).group().keyed_by(&final(context).chain(), root)
                    &&& final(context).states() == old(context).states()
                    &&& forall|address: Seq<u8>|
                        final(context).notifies(address) == old(context).notifies(address)
                },
                Err(e) => old(context).group().outcome(&decoded, req) == Err::<Seq<u8>, Error>(e),
            }),
{
    let decoded = match Handshake::decode(handshake) {
        Ok(decoded) => decoded,
        Err(e) => return Err(e),
    };
    let ghost group = context.group();
    let result = context.insert_handshake(&decoded, req);
    proof {
        assert forall|other: Handshake|
            other.fits() && #[trigger] other.encoding() == handshake@ implies group.outcome(
            &other,
            req,
        ) == group.outcome(&decoded, req) by {
            crate::handshake::lemma_encoding_injective(&other, &decoded);
            crate::group_state::lemma_outcome_of_equal_handshakes(
                &group,
                &other,
                &decoded,
                req,
            );
        }
        if result.is_ok() {
            let after = context.group();
            let secret = group.outcome(&decoded, req)->Ok_0;
            assert forall|other: Handshake|
                other.fits() && #[trigger] other.encoding() == handshake@ implies after.applied(
                &group,
                &other,
                req,
            ) by {
                crate::handshake::lemma_encoding_injective(&other, &decoded);
                crate::group_state::lemma_follows_of_equal_handshakes(
                    &after,
                    &group,
                    &decoded,
                    &other,
                    secret,
                );
            }
        }
    }
    result
}

/// A handshake made by this enclave, as bytes for the log.
#[derive(Debug)]
pub struct HandshakeTx {
    pub handshake: Vec<u8>,
}

/// A handshake by which this enclave joins the group, with the attestation
/// report and its signature, passed on as they came.
#[derive(Debug)]
pub struct JoinGroupTx {
    pub report: Vec<u8>,
    pub report_sig: Vec<u8>,
    pub handshake: Vec<u8>,
}

/// Whether `bytes` encode a handshake that the member of `context` makes
/// for itself from the fresh leaf secret `secret`.
pub open spec fn encodes_own_handshake(context: &EnclaveContext, secret: Seq<u8>, bytes: Seq<u8>)
    -> bool {
    exists|handshake: Handshake|
        handshake.fits() && #[trigger] handshake.encoding() == bytes && context.group().makes(
            context.group().own_operation(),
            secret,
            &handshake,
        )
}

/// Makes the handshake by which this member joins the group, or renews its
/// leaf secret if it is a member, as bytes for the log. The context does not
/// change: the handshake takes effect when it comes back from the log.
pub fn inner_ecall_handshake(context: &EnclaveContext, req: &PathSecretRequest) -> (result: Result<
    HandshakeTx,
    Error,
>)
    requires
        context.group().wf(),
    ensures
        (match result {
            Ok(tx) => {
                &&& context.group().epoch() < u32::MAX
                &&& context.group().admits(
                    context.group().my_roster_idx(),
                    context.group().own_operation(),
                )
                &&& req.secret_at(
                    context.group().my_roster_idx(),
                    (context.group().epoch() + 1) as u32,
                ) matches Some(secret)
                &&& encodes_own_handshake(context, secret, tx.handshake@)
            },
            Err(Error::HandshakeDecodeError) => context.group().epoch() == u32::MAX,
            Err(Error::UnknownMember) => context.group().epoch() < u32::MAX
                && !context.group().admits(
                context.group().my_roster_idx(),
                context.group().own_operation(),
            ),
            Err(Error::MissingSecret) => context.group().epoch() < u32::MAX
                && context.group().admits(
                context.group().my_roster_idx(),
                context.group().own_operation(),
            ) && req.secret_at(
                context.group().my_roster_idx(),
                (context.group().epoch() + 1) as u32,
            ).is_none(),
            Err(_) => false,
        }),
{
    let handshake = match context.group_state().create_handshake(req) {
        Ok(handshake) => handshake,
        Err(e) => return Err(e),
    };
    proof {
        crate::group_state::lemma_made_handshake_fits(&context.group(), &handshake);
    }
    let bytes = handshake.encode();
    Ok(HandshakeTx { handshake: bytes })
}

/// Makes the handshake by which this member joins the group, and packages
/// it with the attestation report and its signature.
pub fn inner_ecall_join_group(
    context: &EnclaveContext,
    req: &PathSecretRequest,
    report: Vec<u8>,
    report_sig: Vec<u8>,
) -> (result: Result<JoinGroupTx, Error>)
    requires
        context.group().wf(),
    ensures
        (match result {
            Ok(tx) => {
                &&& tx.report == report
                &&& tx.report_sig == report_sig
                &&& context.group().epoch() < u32::MAX
                &&& context.group().admits(
                    context.group().my_roster_idx(),
                    context.group().own_operation(),
                )
                &&& req.secret_at(
                    context.group().my_roster_idx(),
                    (context.group().epoch() + 1) as u32,
                ) matches Some(secret)
                &&& encodes_own_handshake(context, secret, tx.handshake@)
            },
            Err(Error::HandshakeDecodeError) => context.group().epoch() == u32::MAX,
            Err(Error::UnknownMember) => context.group().epoch() < u32::MAX
                && !context.group().admits(
                context.group().my_roster_idx(),
                context.group().own_operation(),
            ),
            Err(Error::MissingSecret) => context.group().epoch() < u32::MAX
                && context.group().admits(
                context.group().my_roster_idx(),
                context.group().own_operation(),
            ) && req.secret_at(
                context.group().my_roster_idx(),
                (context.group().epoch() + 1) as u32,
            ).is_none(),
            Err(_) => false,
        }),
{
    match inner_ecall_handshake(context, req) {
        Ok(tx) => Ok(JoinGroupTx { report, report_sig, handshake: tx.handshake }),
        Err(e) => Err(e),
    }
}

/// Registers the signer for notifications, once the signature `sig` over
/// `challenge` has been checked under `pubkey`. Nothing is registered for a
/// signature that does not verify.
pub fn inner_ecall_register_notification(
    sig: &[u8; 64],
    pubkey: &[u8; 32],
    challenge: &[u8; 32],
    context: &mut EnclaveContext,
) -> (result: Result<(), Error>)
    ensures
        result.is_ok() <==> ed25519_accepts(pubkey@, challenge@, sig@),
        result.is_ok() ==> final(context).notifies(address_of(pubkey@)),
        result.is_ok() ==> forall|other: Seq<u8>|
            other != address_of(pubkey@) ==> final(context).notifies(other)
                == old(context).notifies(other),
        result matches Err(e) ==> e == Error::InvalidCapability && *final(context) == *old(context),
        final(context).group() == old(context).group(),
        final(context).chain() == old(context).chain(),
        final(context).states() == old(context).states(),
{
    let policy = AccessPolicy::Ed25519ChallengeResponse(
        AccessRight { sig: *sig, pubkey: *pubkey, challenge: *challenge },
    );
    match context.register_notification(&policy) {
        Ok(_) => Ok(()),
        Err(e) => Err(e),
    }
}

} // verus!
