use anonify::application::AppKeyChain;
use anonify::context::EnclaveContext;
use anonify::crypto::AccessPolicy;
use anonify::crypto::AccessRight;
use anonify::crypto::Ciphertext;
use anonify::crypto::LockParam;
use anonify::crypto::UserAddress;
use anonify::crypto::CIPHERTEXT_SIZE;
use anonify::ecalls::ecall_get_state;
use anonify::ecalls::ecall_init_state;
use anonify::ecalls::ecall_insert_logs;
use anonify::ecalls::ecall_state_transition;
use anonify::ecalls::inner_ecall_register_notification;
use anonify::ecalls::UnsignedTx;
use anonify::error::Error;
use anonify::group_state::GroupState;
use anonify::secrets::PathSecret;
use anonify::secrets::PathSecretKVS;
use anonify::secrets::PathSecretRequest;
use anonify::state_type::U64;
use anonify::stf::Construct;
use anonify::stf::Transfer;
use anonify::test_utils::do_handshake;
use ed25519_dalek::Signer;

const CHALLENGE: [u8; 32] = [3u8; 32];

fn keypair(seed: u8) -> ed25519_dalek::Keypair {
    let secret = ed25519_dalek::SecretKey::from_bytes(&[seed; 32]).unwrap();
    let public = ed25519_dalek::PublicKey::from(&secret);
    ed25519_dalek::Keypair { secret, public }
}

fn access_right(seed: u8) -> AccessRight {
    let keypair = keypair(seed);
    let sig = keypair.sign(&CHALLENGE).to_bytes();
    AccessRight::checked(sig, keypair.public.to_bytes(), CHALLENGE).unwrap()
}

fn policy(seed: u8) -> AccessPolicy {
    AccessPolicy::Ed25519ChallengeResponse(access_right(seed))
}

fn address(seed: u8) -> UserAddress {
    access_right(seed).user_address()
}

fn store() -> PathSecretRequest {
    let mut kvs = PathSecretKVS::new();
    for r in 0..2u32 {
        for e in 0..4u32 {
            kvs.insert(r, e, PathSecret::from_array([(16 * r + e + 1) as u8; 32]));
        }
    }
    PathSecretRequest::Local(kvs)
}

/// Two members of one group at epoch 1, each with its own context.
fn two_members() -> (EnclaveContext, EnclaveContext) {
    let req = store();
    let mut member0 = GroupState::new(&req).unwrap();
    let mut member1 = member0.public_view(1);
    let (chain1, chain0) = do_handshake(&mut member1, &mut member0, &req).unwrap();
    (EnclaveContext::new(member0, chain0), EnclaveContext::new(member1, chain1))
}

fn balance(context: &EnclaveContext, who: &UserAddress) -> u64 {
    U64::try_from_state(&context.store().get(who)).unwrap().as_raw()
}

fn generation(context: &EnclaveContext, idx: usize) -> u64 {
    context.key_chain().ratchet_state(idx).unwrap().generation
}

#[test]
fn transfer_moves_the_amount_and_ratchets_once() {
    let (mut sender, mut receiver) = two_members();
    let a = address(1);
    let b = address(2);

    // A gets 100 at both members.
    let mint = Construct { owner: a };
    let supply = U64(100).as_bytes();
    let made = sender.construct_instruction(&mint, &policy(1), &supply).unwrap().unwrap();
    receiver.insert_ciphertext(&mint, 0, made.instruction.as_bytes()).unwrap();
    assert_eq!(balance(&receiver, &a), 100);
    assert_eq!(balance(&receiver, &b), 0);
    assert_eq!(generation(&receiver, 0), 1);

    // An instruction of member 0 that moves 10 from A to B.
    let transfer = Transfer { sender: a, recipient: b };
    let amount = U64(10).as_bytes();
    let made = sender.construct_instruction(&transfer, &policy(1), &amount).unwrap().unwrap();
    let key_before = receiver.key_chain().ratchet_state(0).unwrap().key;
    let output = receiver.insert_ciphertext(&transfer, 0, made.instruction.as_bytes()).unwrap();
    assert!(output.accepted);
    assert_eq!(balance(&receiver, &a), 90);
    assert_eq!(balance(&receiver, &b), 10);
    assert_eq!(generation(&receiver, 0), 2);
    assert_eq!(generation(&receiver, 1), 0);
    assert_ne!(receiver.key_chain().ratchet_state(0).unwrap().key, key_before);

    // The maker is where the receiver is.
    assert_eq!(balance(&sender, &a), 90);
    assert_eq!(balance(&sender, &b), 10);
    assert_eq!(generation(&sender, 0), 2);
    assert_eq!(
        sender.key_chain().ratchet_state(0).unwrap().key,
        receiver.key_chain().ratchet_state(0).unwrap().key
    );

    // Both sealed the same updated states, with the same lock parameters.
    assert_eq!(output.ciphertexts.len(), 2);
    assert_eq!(output.ciphertexts[0].as_bytes(), made.ciphertexts[0].as_bytes());
    assert_eq!(output.ciphertexts[1].as_bytes(), made.ciphertexts[1].as_bytes());
    assert_eq!(made.lock_params.len(), 2);
    assert_eq!(
        made.lock_params[0].as_bytes(),
        LockParam::of_state(&U64(90).as_bytes()).as_bytes()
    );
    assert_ne!(made.lock_params[0].as_bytes(), made.lock_params[1].as_bytes());
}

#[test]
fn ciphertext_of_wrong_length_changes_nothing() {
    let (mut sender, mut receiver) = two_members();
    let a = address(1);
    let mint = Construct { owner: a };
    let made = sender
        .construct_instruction(&mint, &policy(1), &U64(100).as_bytes())
        .unwrap()
        .unwrap();
    let bytes = made.instruction.as_bytes();
    let key_before = receiver.key_chain().ratchet_state(0).unwrap().key;
    for wrong in [&bytes[..CIPHERTEXT_SIZE - 1], &[][..], &[bytes, &[0u8][..]].concat()[..]] {
        assert_eq!(
            receiver.insert_ciphertext(&mint, 0, wrong).err(),
            Some(Error::MalformedCiphertext)
        );
        assert_eq!(balance(&receiver, &a), 0);
        assert_eq!(generation(&receiver, 0), 0);
        assert_eq!(receiver.key_chain().ratchet_state(0).unwrap().key, key_before);
    }
    // The ciphertext itself is still good.
    receiver.insert_ciphertext(&mint, 0, bytes).unwrap();
    assert_eq!(balance(&receiver, &a), 100);
}

#[test]
fn damaged_or_replayed_ciphertext_changes_nothing() {
    let (mut sender, mut receiver) = two_members();
    let a = address(1);
    let mint = Construct { owner: a };
    let made = sender
        .construct_instruction(&mint, &policy(1), &U64(100).as_bytes())
        .unwrap()
        .unwrap();
    let mut damaged = made.instruction.as_bytes().to_vec();
    damaged[0] ^= 1;
    assert_eq!(
        receiver.insert_ciphertext(&mint, 0, &damaged).err(),
        Some(Error::MalformedCiphertext)
    );
    assert_eq!(generation(&receiver, 0), 0);
    // Under the chain of another member it does not open either.
    assert_eq!(
        receiver.insert_ciphertext(&mint, 1, made.instruction.as_bytes()).err(),
        Some(Error::MalformedCiphertext)
    );
    assert_eq!(
        receiver.insert_ciphertext(&mint, 2, made.instruction.as_bytes()).err(),
        Some(Error::UnknownMember)
    );
    receiver.insert_ciphertext(&mint, 0, made.instruction.as_bytes()).unwrap();
    // The same ciphertext a second time: its key is gone.
    assert_eq!(
        receiver.insert_ciphertext(&mint, 0, made.instruction.as_bytes()).err(),
        Some(Error::MalformedCiphertext)
    );
    assert_eq!(balance(&receiver, &a), 100);
    assert_eq!(generation(&receiver, 0), 1);
    // The maker does not take its own instruction back.
    assert_eq!(
        sender.insert_ciphertext(&mint, 0, made.instruction.as_bytes()).err(),
        Some(Error::MalformedCiphertext)
    );
    assert_eq!(balance(&sender, &a), 100);
}

#[test]
fn rejected_instruction_still_ratchets_at_the_receiver() {
    let (mut sender, mut receiver) = two_members();
    let a = address(1);
    let b = address(2);
    let mint = Construct { owner: a };
    let made = sender
        .construct_instruction(&mint, &policy(1), &U64(100).as_bytes())
        .unwrap()
        .unwrap();
    // The receiver is told that the instruction is a transfer of 100 from B, who has nothing.
    let transfer = Transfer { sender: b, recipient: a };
    let output = receiver.insert_ciphertext(&transfer, 0, made.instruction.as_bytes()).unwrap();
    assert!(!output.accepted);
    assert!(output.ciphertexts.is_empty());
    assert_eq!(balance(&receiver, &a), 0);
    assert_eq!(balance(&receiver, &b), 0);
    assert_eq!(generation(&receiver, 0), 1);
}

#[test]
fn rejected_instruction_is_not_made() {
    let (mut sender, _) = two_members();
    let transfer = Transfer { sender: address(1), recipient: address(2) };
    let result = sender.construct_instruction(&transfer, &policy(1), &U64(10).as_bytes());
    assert!(result.unwrap().is_none());
    assert_eq!(generation(&sender, 0), 0);
    assert_eq!(balance(&sender, &address(1)), 0);
}

#[test]
fn capability_is_checked_before_anything_else() {
    let (mut sender, _) = two_members();
    let a = address(1);
    let mint = Construct { owner: a };
    let mut forged = access_right(1);
    forged.challenge[0] ^= 1;
    let forged = AccessPolicy::Ed25519ChallengeResponse(forged);
    // Even a payload of the wrong size is not looked at.
    assert_eq!(
        sender.construct_instruction(&mint, &forged, &[0u8; 3]).err(),
        Some(Error::InvalidCapability)
    );
    // A good capability of someone else does not let them act for A.
    assert_eq!(
        sender.construct_instruction(&mint, &policy(2), &U64(1).as_bytes()).err(),
        Some(Error::InvalidCapability)
    );
    assert_eq!(
        sender.construct_instruction(&mint, &policy(1), &[0u8; 3]).err(),
        Some(Error::StateSizeMismatch)
    );
    assert_eq!(generation(&sender, 0), 0);
    assert_eq!(balance(&sender, &a), 0);
    assert_eq!(sender.get_state(&forged).err(), Some(Error::InvalidCapability));
    assert_eq!(sender.register_notification(&forged).err(), Some(Error::InvalidCapability));
    assert!(!sender.is_notified(&a));
    assert_eq!(sender.register_notification(&policy(1)).unwrap(), a);
    assert!(sender.is_notified(&a));
    assert!(!sender.is_notified(&address(2)));
}

#[test]
fn get_state_is_empty_until_written() {
    let (mut sender, _) = two_members();
    assert!(sender.get_state(&policy(1)).unwrap().as_bytes().is_empty());
    let mint = Construct { owner: address(1) };
    sender.construct_instruction(&mint, &policy(1), &U64(7).as_bytes()).unwrap();
    assert_eq!(sender.get_state(&policy(1)).unwrap().into_bytes(), U64(7).as_bytes());
    sender.reset();
    assert!(sender.get_state(&policy(1)).unwrap().as_bytes().is_empty());
    assert_eq!(generation(&sender, 0), 1);
}

#[test]
fn transfer_to_oneself_keeps_the_balance() {
    let (mut sender, _) = two_members();
    let a = address(1);
    sender
        .construct_instruction(&Construct { owner: a }, &policy(1), &U64(5).as_bytes())
        .unwrap();
    let transfer = Transfer { sender: a, recipient: a };
    let made = sender.construct_instruction(&transfer, &policy(1), &U64(5).as_bytes());
    assert_eq!(made.unwrap().unwrap().ciphertexts.len(), 1);
    assert_eq!(balance(&sender, &a), 5);
    let made = sender.construct_instruction(&transfer, &policy(1), &U64(6).as_bytes());
    assert!(made.unwrap().is_none());
}

#[test]
fn transfer_that_overflows_is_rejected() {
    let (mut sender, _) = two_members();
    let a = address(1);
    let b = address(2);
    sender
        .construct_instruction(&Construct { owner: a }, &policy(1), &U64(1).as_bytes())
        .unwrap();
    sender
        .construct_instruction(&Construct { owner: b }, &policy(2), &U64(u64::MAX).as_bytes())
        .unwrap();
    let transfer = Transfer { sender: a, recipient: b };
    let made = sender.construct_instruction(&transfer, &policy(1), &U64(1).as_bytes());
    assert!(made.unwrap().is_none());
    assert_eq!(balance(&sender, &a), 1);
    assert_eq!(balance(&sender, &b), u64::MAX);
}

#[test]
fn message_round_trip_and_ratchet() {
    let (sender, receiver) = two_members();
    let mut chain0: AppKeyChain = sender.group_state().key_chain().unwrap();
    let mut chain1: AppKeyChain = receiver.group_state().key_chain().unwrap();
    let state = [1u8, 2, 3, 4, 5, 6, 7, 8];
    let first = chain0.encrypt_msg(0, &state).unwrap();
    let second = chain0.encrypt_msg(0, &state).unwrap();
    assert_eq!(first.len(), CIPHERTEXT_SIZE);
    assert_ne!(first.as_bytes(), second.as_bytes());
    assert_ne!(&first.as_bytes()[..8], &state[..]);
    assert_eq!(chain0.ratchet_state(0).unwrap().generation, 2);
    // In order they open; out of order they do not, and the chain waits.
    assert_eq!(chain1.decrypt_msg(0, second.as_bytes()).err(), Some(Error::MalformedCiphertext));
    assert_eq!(chain1.ratchet_state(0).unwrap().generation, 0);
    assert_eq!(chain1.decrypt_msg(0, first.as_bytes()).unwrap(), state.to_vec());
    assert_eq!(chain1.decrypt_msg(0, second.as_bytes()).unwrap(), state.to_vec());
    assert_eq!(chain1.decrypt_msg(0, second.as_bytes()).err(), Some(Error::MalformedCiphertext));
    assert_eq!(chain1.ratchet_state(0).unwrap().key, chain0.ratchet_state(0).unwrap().key);
    assert_eq!(chain1.ratchet(5).err(), Some(Error::UnknownMember));
    assert_eq!(chain1.encrypt_msg(1, &state[..7]).err(), Some(Error::StateSizeMismatch));
    assert_eq!(chain1.encrypt_msg(9, &state).err(), Some(Error::UnknownMember));
    assert_eq!(chain1.decrypt_msg(9, first.as_bytes()).err(), Some(Error::UnknownMember));
}

#[test]
fn sealed_update_round_trip() {
    let (sender, _) = two_members();
    let chain = sender.key_chain();
    let state = U64(90).as_bytes();
    let sealed: Ciphertext = chain.seal_update(0, 1, &state).unwrap();
    assert_eq!(chain.open_update(0, 1, sealed.as_bytes()).unwrap(), state);
    assert_eq!(chain.open_update(0, 0, sealed.as_bytes()).err(), Some(Error::MalformedCiphertext));
    assert_eq!(chain.open_update(1, 1, sealed.as_bytes()).err(), Some(Error::MalformedCiphertext));
    assert_eq!(chain.seal_update(0, 1, &state[..4]).err(), Some(Error::StateSizeMismatch));
    assert_eq!(chain.open_msg(0, sealed.as_bytes()).err(), Some(Error::MalformedCiphertext));
}

#[test]
fn enclave_calls_package_the_ciphertexts() {
    let (mut sender, mut receiver) = two_members();
    let owner = keypair(1);
    let sig = owner.sign(&CHALLENGE).to_bytes();
    let pubkey = owner.public.to_bytes();
    let target = address(2);
    assert_eq!(ecall_get_state(&sender, &sig, &pubkey, &CHALLENGE), Ok(0));

    let tx = ecall_init_state(&mut sender, &sig, &pubkey, &CHALLENGE, 100, vec![1, 2], vec![3])
        .unwrap();
    assert_eq!(tx.report, vec![1, 2]);
    assert_eq!(tx.report_sig, vec![3]);
    assert_eq!(tx.ciphertext_num, 2);
    let (instruction, state) = tx.get_two_ciphertexts().unwrap();
    assert_eq!(instruction.len(), CIPHERTEXT_SIZE);
    assert_eq!(state.len(), CIPHERTEXT_SIZE);
    assert_eq!(ecall_get_state(&sender, &sig, &pubkey, &CHALLENGE), Ok(100));
    let mint = Construct { owner: address(1) };
    let output = receiver.insert_ciphertext(&mint, 0, &instruction).unwrap();
    assert_eq!(output.ciphertexts[0].as_bytes(), &state[..]);

    let tx = ecall_state_transition(
        &mut sender,
        &sig,
        &pubkey,
        &CHALLENGE,
        &target.0,
        10,
        Vec::new(),
        Vec::new(),
    )
    .unwrap()
    .unwrap();
    assert_eq!(tx.ciphertext_num, 3);
    assert_eq!(tx.ciphertexts.len(), 3 * CIPHERTEXT_SIZE);
    assert!(tx.get_two_ciphertexts().is_none());
    assert_eq!(ecall_get_state(&sender, &sig, &pubkey, &CHALLENGE), Ok(90));
    assert_eq!(balance(&sender, &target), 10);

    // More than is there: rejected, nothing made.
    let rejected = ecall_state_transition(
        &mut sender,
        &sig,
        &pubkey,
        &CHALLENGE,
        &target.0,
        110,
        Vec::new(),
        Vec::new(),
    );
    assert!(rejected.unwrap().is_none());
    assert_eq!(ecall_get_state(&sender, &sig, &pubkey, &CHALLENGE), Ok(90));

    let mut bad = sig;
    bad[10] ^= 4;
    assert_eq!(
        ecall_get_state(&sender, &bad, &pubkey, &CHALLENGE),
        Err(Error::InvalidCapability)
    );
    assert_eq!(
        ecall_init_state(&mut sender, &bad, &pubkey, &CHALLENGE, 1, Vec::new(), Vec::new()).err(),
        Some(Error::InvalidCapability)
    );
}

#[test]
fn policy_names_the_address_of_its_key() {
    let good = policy(1);
    assert!(good.verify().is_ok());
    assert_eq!(good.into_account_id(), address(1));
    assert_eq!(good.verified_account_id().unwrap(), address(1));
    let mut forged = access_right(1);
    forged.sig[3] ^= 1;
    let forged = AccessPolicy::Ed25519ChallengeResponse(forged);
    assert_eq!(forged.verify().err(), Some(Error::InvalidCapability));
    assert_eq!(forged.into_account_id(), address(1));
    assert_eq!(forged.verified_account_id().err(), Some(Error::InvalidCapability));
}

#[test]
fn fresh_access_right_verifies() {
    let first = AccessRight::new_from_rng().unwrap();
    let second = AccessRight::new_from_rng().unwrap();
    assert!(first.verify_sig().is_ok());
    assert!(second.verify_sig().is_ok());
    assert_ne!(first.pubkey, second.pubkey);
    assert_ne!(first.challenge, second.challenge);
}

fn batch_of(sender: &mut EnclaveContext, amounts: &[u64]) -> Vec<u8> {
    let mint = Construct { owner: address(1) };
    let mut batch = Vec::new();
    for amount in amounts {
        let payload = U64(*amount).as_bytes();
        let made = sender.construct_instruction(&mint, &policy(1), &payload).unwrap().unwrap();
        batch.extend_from_slice(made.instruction.as_bytes());
    }
    batch
}

#[test]
fn logs_are_applied_in_order() {
    let (mut sender, mut receiver) = two_members();
    let mint = Construct { owner: address(1) };
    let batch = batch_of(&mut sender, &[5, 6, 7]);
    let logs = ecall_insert_logs(&mut receiver, &mint, 0, &batch, 3);
    assert_eq!(logs.applied, 3);
    assert_eq!(logs.outputs.len(), 3);
    assert_eq!(logs.refused, None);
    assert_eq!(balance(&receiver, &address(1)), 7);
    assert_eq!(generation(&receiver, 0), 3);
    assert_eq!(
        receiver.key_chain().ratchet_state(0).unwrap().key,
        sender.key_chain().ratchet_state(0).unwrap().key
    );
}

#[test]
fn logs_stop_at_the_first_refusal() {
    let (mut sender, mut receiver) = two_members();
    let mint = Construct { owner: address(1) };
    let mut batch = batch_of(&mut sender, &[5, 6, 7]);
    batch[CIPHERTEXT_SIZE + 2] ^= 1;
    let logs = ecall_insert_logs(&mut receiver, &mint, 0, &batch, 3);
    assert_eq!(logs.applied, 1);
    assert_eq!(logs.outputs.len(), 1);
    assert_eq!(logs.refused, Some(Error::MalformedCiphertext));
    assert_eq!(balance(&receiver, &address(1)), 5);
    assert_eq!(generation(&receiver, 0), 1);
}

#[test]
fn logs_that_are_not_framed_are_refused_whole() {
    let (mut sender, mut receiver) = two_members();
    let mint = Construct { owner: address(1) };
    let batch = batch_of(&mut sender, &[5, 6]);
    let whole = &batch[..];
    let short = &batch[..39];
    for (bytes, num) in [(whole, 0u32), (whole, 1), (whole, 3), (short, 2), (short, 3)] {
        let logs = ecall_insert_logs(&mut receiver, &mint, 0, bytes, num);
        assert_eq!(logs.applied, 0);
        assert_eq!(logs.refused, Some(Error::MalformedCiphertext));
        assert!(logs.outputs.is_empty());
        assert_eq!(generation(&receiver, 0), 0);
        assert_eq!(balance(&receiver, &address(1)), 0);
    }
    let logs = ecall_insert_logs(&mut receiver, &mint, 7, &batch, 2);
    assert_eq!(logs.applied, 0);
    assert_eq!(logs.refused, Some(Error::UnknownMember));
    let logs = ecall_insert_logs(&mut receiver, &mint, 0, &batch, 2);
    assert_eq!(logs.applied, 2);
    assert_eq!(balance(&receiver, &address(1)), 6);
}

#[test]
fn unsigned_tx_across_the_boundary() {
    let tx = UnsignedTx {
        report: vec![1, 2, 3],
        report_sig: vec![4, 5],
        ciphertext_num: 2,
        ciphertexts: (0..40).collect(),
    };
    let bytes = tx.encode();
    assert_eq!(bytes.len(), 4 + 3 + 4 + 2 + 4 + 40);
    assert_eq!(&bytes[..7], &[0, 0, 0, 3, 1, 2, 3]);
    assert_eq!(&bytes[7..13], &[0, 0, 0, 2, 4, 5]);
    assert_eq!(&bytes[13..17], &[0, 0, 0, 2]);
    let back = UnsignedTx::decode(&bytes).unwrap();
    assert_eq!(back.report, tx.report);
    assert_eq!(back.report_sig, tx.report_sig);
    assert_eq!(back.ciphertext_num, 2);
    assert_eq!(back.ciphertexts, tx.ciphertexts);
    let (first, second) = back.get_two_ciphertexts().unwrap();
    assert_eq!(first, (0..20).collect::<Vec<u8>>());
    assert_eq!(second, (20..40).collect::<Vec<u8>>());
    for cut in 0..bytes.len() {
        assert_eq!(UnsignedTx::decode(&bytes[..cut]).err(), Some(Error::MalformedCiphertext));
    }
    let mut longer = bytes.clone();
    longer.push(0);
    assert_eq!(UnsignedTx::decode(&longer).err(), Some(Error::MalformedCiphertext));
    let mut wrong_count = bytes.clone();
    wrong_count[16] = 3;
    assert_eq!(UnsignedTx::decode(&wrong_count).err(), Some(Error::MalformedCiphertext));
}

#[test]
fn notification_is_registered_for_a_valid_signature_only() {
    let (mut context, _) = two_members();
    let owner = keypair(4);
    let sig = owner.sign(&CHALLENGE).to_bytes();
    let pubkey = owner.public.to_bytes();
    let mut bad = sig;
    bad[63] ^= 1;
    assert_eq!(
        inner_ecall_register_notification(&bad, &pubkey, &CHALLENGE, &mut context).err(),
        Some(Error::InvalidCapability)
    );
    assert!(!context.is_notified(&address(4)));
    inner_ecall_register_notification(&sig, &pubkey, &CHALLENGE, &mut context).unwrap();
    assert!(context.is_notified(&address(4)));
    assert!(!context.is_notified(&address(5)));
}

#[test]
fn five_transfers_before_any_is_received() {
    let (mut sender, mut receiver) = two_members();
    let a = address(1);
    let b = address(2);
    let mint = Construct { owner: a };
    let transfer = Transfer { sender: a, recipient: b };
    let mut log = Vec::new();
    let made = sender.construct_instruction(&mint, &policy(1), &U64(100).as_bytes()).unwrap();
    log.push(made.unwrap().instruction);
    assert_eq!(balance(&sender, &a), 100);
    for _ in 0..5 {
        let made = sender.construct_instruction(&transfer, &policy(1), &U64(10).as_bytes());
        log.push(made.unwrap().unwrap().instruction);
    }
    assert_eq!(balance(&sender, &a), 50);
    assert_eq!(balance(&sender, &b), 50);
    assert_eq!(generation(&sender, 0), 6);

    receiver.insert_ciphertext(&mint, 0, log[0].as_bytes()).unwrap();
    for ciphertext in &log[1..] {
        assert!(receiver.insert_ciphertext(&transfer, 0, ciphertext.as_bytes()).unwrap().accepted);
    }
    assert_eq!(balance(&receiver, &a), 50);
    assert_eq!(balance(&receiver, &b), 50);
    assert_eq!(generation(&receiver, 0), 6);
}

#[test]
fn transfer_of_more_than_the_balance_is_skipped() {
    let (mut sender, _) = two_members();
    let a = address(1);
    let b = address(2);
    let transfer = Transfer { sender: a, recipient: b };
    sender
        .construct_instruction(&Construct { owner: a }, &policy(1), &U64(100).as_bytes())
        .unwrap();
    let made = sender.construct_instruction(&transfer, &policy(1), &U64(110).as_bytes());
    assert!(made.unwrap().is_none());
    assert_eq!(balance(&sender, &a), 100);
    let made = sender.construct_instruction(&transfer, &policy(1), &U64(10).as_bytes());
    assert!(made.unwrap().is_some());
    assert_eq!(balance(&sender, &a), 90);
    assert_eq!(balance(&sender, &b), 10);
}

#[test]
fn recovered_member_replays_the_log_of_the_epoch() {
    let (mut sender, receiver) = two_members();
    let a = address(1);
    let b = address(2);
    let mint = Construct { owner: a };
    let transfer = Transfer { sender: a, recipient: b };
    let first = sender.construct_instruction(&mint, &policy(1), &U64(100).as_bytes());
    let first = first.unwrap().unwrap().instruction;
    let second = sender.construct_instruction(&transfer, &policy(1), &U64(10).as_bytes());
    let second = second.unwrap().unwrap().instruction;
    let third = sender.construct_instruction(&transfer, &policy(1), &U64(10).as_bytes());
    let third = third.unwrap().unwrap().instruction;

    // The member comes back with its group state alone.
    let group = receiver.group_state().with_roster_idx(1);
    let mut recovered = EnclaveContext::from_group(group).unwrap();
    assert_eq!(balance(&recovered, &a), 0);
    recovered.insert_ciphertext(&mint, 0, first.as_bytes()).unwrap();
    recovered.insert_ciphertext(&transfer, 0, second.as_bytes()).unwrap();
    recovered.insert_ciphertext(&transfer, 0, third.as_bytes()).unwrap();
    assert_eq!(balance(&recovered, &a), 80);
    assert_eq!(balance(&recovered, &b), 20);
    assert_eq!(
        recovered.key_chain().ratchet_state(0).unwrap().key,
        sender.key_chain().ratchet_state(0).unwrap().key
    );
}

#[test]
fn transfer_after_join_and_key_rotation() {
    let req = store();
    let member0 = GroupState::new(&req).unwrap();
    let joiner = member0.public_view(1);
    let mut first = EnclaveContext::from_group(member0).unwrap();
    let a = address(1);
    let b = address(2);
    let mint = Construct { owner: a };
    let transfer = Transfer { sender: a, recipient: b };

    // Alone, the first member gives A 100.
    first.construct_instruction(&mint, &policy(1), &U64(100).as_bytes()).unwrap();

    // The second member joins; the first rotates its key.
    let join = joiner.create_handshake(&req).unwrap();
    let chain = first.group_state().key_chain().unwrap();
    let mut second = EnclaveContext::new(joiner, chain);
    first.insert_handshake(&join, &req).unwrap();
    second.insert_handshake(&join, &req).unwrap();
    let rotation = first.group_state().create_handshake(&req).unwrap();
    first.insert_handshake(&rotation, &req).unwrap();
    second.insert_handshake(&rotation, &req).unwrap();
    assert_eq!(first.group_state().epoch(), 2);
    assert_eq!(generation(&first, 0), 0);

    // The state is kept across the epochs, and the second member follows a transfer.
    assert_eq!(balance(&first, &a), 100);
    let made = first.construct_instruction(&transfer, &policy(1), &U64(10).as_bytes());
    let made = made.unwrap().unwrap();
    assert_eq!(balance(&first, &a), 90);
    // The second member never saw the supply: it rejects the transfer, and still ratchets.
    let output = second.insert_ciphertext(&transfer, 0, made.instruction.as_bytes()).unwrap();
    assert!(!output.accepted);
    assert_eq!(generation(&second, 0), 1);
    assert_eq!(
        second.key_chain().ratchet_state(0).unwrap().key,
        first.key_chain().ratchet_state(0).unwrap().key
    );
}

#[test]
fn made_instruction_registers_the_caller() {
    let (mut sender, mut receiver) = two_members();
    let a = address(1);
    let b = address(2);
    let mint = Construct { owner: a };
    let transfer = Transfer { sender: a, recipient: b };
    assert!(!sender.is_notified(&a));

    // A transfer that is rejected, and a call that is refused, register nobody.
    let rejected = sender.construct_instruction(&transfer, &policy(1), &U64(1).as_bytes());
    assert!(rejected.unwrap().is_none());
    assert!(sender.construct_instruction(&mint, &policy(1), &[0u8; 3]).is_err());
    assert!(!sender.is_notified(&a));

    let made = sender.construct_instruction(&mint, &policy(1), &U64(9).as_bytes());
    let made = made.unwrap().unwrap();
    assert!(sender.is_notified(&a));
    assert!(!sender.is_notified(&b));

    // Applying a received ciphertext registers nobody.
    receiver.insert_ciphertext(&mint, 0, made.instruction.as_bytes()).unwrap();
    assert!(!receiver.is_notified(&a));
}

#[test]
fn enclave_call_registers_the_signer() {
    let (mut sender, _) = two_members();
    let owner = keypair(1);
    let sig = owner.sign(&CHALLENGE).to_bytes();
    let pubkey = owner.public.to_bytes();
    let rejected = ecall_state_transition(
        &mut sender,
        &sig,
        &pubkey,
        &CHALLENGE,
        &address(2).0,
        5,
        Vec::new(),
        Vec::new(),
    );
    assert!(rejected.unwrap().is_none());
    assert!(!sender.is_notified(&address(1)));
    ecall_init_state(&mut sender, &sig, &pubkey, &CHALLENGE, 100, Vec::new(), Vec::new()).unwrap();
    assert!(sender.is_notified(&address(1)));
    assert!(!sender.is_notified(&address(2)));
}
