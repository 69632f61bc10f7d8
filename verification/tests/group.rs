use anonify::error::Error;
use anonify::group_state::GroupState;
use anonify::context::EnclaveContext;
use anonify::ecalls::ecall_insert_handshake;
use anonify::ecalls::inner_ecall_handshake;
use anonify::ecalls::inner_ecall_join_group;
use anonify::handshake::Handshake;
use anonify::handshake::Operation;
use anonify::secrets::PathSecret;
use anonify::secrets::PathSecretKVS;
use anonify::secrets::PathSecretRequest;
use anonify::test_utils::change_group_state_idx;
use anonify::test_utils::do_handshake;
use anonify::test_utils::init_path_secret_kvs;

fn filled_store(members: u32, epochs: u32) -> PathSecretRequest {
    let mut kvs = PathSecretKVS::new();
    init_path_secret_kvs(&mut kvs, members, epochs);
    PathSecretRequest::Local(kvs)
}

fn root(group: &GroupState) -> Vec<u8> {
    group.root_secret(group.epoch()).unwrap().as_bytes().to_vec()
}

#[test]
fn store_is_filled_below_the_bounds_only() {
    let mut kvs = PathSecretKVS::new();
    init_path_secret_kvs(&mut kvs, 3, 2);
    for r in 0..3 {
        for e in 0..2 {
            assert!(kvs.get(r, e).is_some());
        }
    }
    assert!(kvs.get(3, 0).is_none());
    assert!(kvs.get(0, 2).is_none());
}

#[test]
fn store_keeps_one_secret_per_member_and_epoch() {
    let mut kvs = PathSecretKVS::new();
    kvs.insert(1, 2, PathSecret::from_array([7u8; 32]));
    kvs.insert(2, 1, PathSecret::from_array([8u8; 32]));
    kvs.insert(1, 2, PathSecret::from_array([9u8; 32]));
    assert_eq!(kvs.get(1, 2).unwrap().as_bytes(), &[9u8; 32]);
    assert_eq!(kvs.get(2, 1).unwrap().as_bytes(), &[8u8; 32]);
    assert!(kvs.get(2, 2).is_none());
    kvs.remove(1, 2);
    kvs.remove(5, 5);
    assert!(kvs.get(1, 2).is_none());
    assert_eq!(kvs.get(2, 1).unwrap().as_bytes(), &[8u8; 32]);
}

#[test]
fn new_group_has_one_member_at_epoch_zero() {
    let req = filled_store(1, 1);
    let group = GroupState::new(&req).unwrap();
    assert_eq!(group.my_roster_idx(), 0);
    assert_eq!(group.roster_len(), 1);
    assert_eq!(group.epoch(), 0);
    assert!(group.is_live(0));
    assert!(!group.is_live(1));
    let leaf = req.path_secret(0, 0).unwrap();
    assert_eq!(root(&group), leaf.as_bytes().to_vec());
}

#[test]
fn new_group_needs_the_leaf_secret() {
    let req = PathSecretRequest::Local(PathSecretKVS::new());
    assert_eq!(GroupState::new(&req).err(), Some(Error::MissingSecret));
}

#[test]
fn add_then_update_keeps_both_members_on_one_root() {
    let req = filled_store(2, 3);
    let mut member0 = GroupState::new(&req).unwrap();
    let mut member1 = change_group_state_idx(&member0, 1);
    let root0 = root(&member0);

    // Member 1 joins: epoch 0 -> 1.
    do_handshake(&mut member1, &mut member0, &req).unwrap();
    assert_eq!(member0.epoch(), 1);
    assert_eq!(member1.epoch(), 1);
    assert_eq!(member0.roster_len(), 2);
    assert_eq!(member1.roster_len(), 2);
    let root1 = root(&member0);
    assert_eq!(root1, root(&member1));
    assert_ne!(root1, root0);

    // Someone who holds everything of epoch 1 but no leaf secret.
    let mut outsider = member1.public_view(1);

    // Member 0 renews its leaf: epoch 1 -> 2.
    let handshake = member0.create_handshake(&req).unwrap();
    assert_eq!(handshake.op, Operation::Update(0));
    member0.process_handshake(&handshake, &req).unwrap();
    member1.process_handshake(&handshake, &req).unwrap();
    assert_eq!(member0.epoch(), 2);
    assert_eq!(member1.epoch(), 2);
    let root2 = root(&member0);
    assert_eq!(root2, root(&member1));
    assert_ne!(root2, root1);

    let empty = PathSecretRequest::Local(PathSecretKVS::new());
    assert_eq!(outsider.process_handshake(&handshake, &empty).err(), Some(Error::MissingSecret));
    assert_eq!(outsider.epoch(), 1);
    assert_eq!(outsider.root_secret(2).err(), Some(Error::MissingSecret));
}

#[test]
fn root_is_the_leaf_secret_climbed_to_the_top() {
    let req = filled_store(2, 2);
    let mut member0 = GroupState::new(&req).unwrap();
    let mut member1 = change_group_state_idx(&member0, 1);
    do_handshake(&mut member1, &mut member0, &req).unwrap();
    let leaf = req.path_secret(1, 1).unwrap();
    assert_eq!(root(&member0), leaf.parent().as_bytes().to_vec());
    let path = member1.derive_path(&req, 1, 1).unwrap();
    assert_eq!(path.len(), 2);
    assert_eq!(path[0].secret.as_bytes(), leaf.as_bytes());
    assert_eq!(path[1].secret.as_bytes(), leaf.parent().as_bytes());
    assert_eq!(path[1].public_key, leaf.parent().public_key());
}

#[test]
fn five_members_share_the_root_of_every_epoch() {
    let req = filled_store(5, 8);
    let mut members = vec![GroupState::new(&req).unwrap()];
    for idx in 1..5u32 {
        let mut joiner = members[0].public_view(idx);
        let handshake = joiner.create_handshake(&req).unwrap();
        assert_eq!(handshake.op, Operation::Add(idx));
        assert_eq!(handshake.segments.len(), idx as usize);
        joiner.process_handshake(&handshake, &req).unwrap();
        for member in members.iter_mut() {
            member.process_handshake(&handshake, &req).unwrap();
        }
        members.push(joiner);
        let first = root(&members[0]);
        for member in members.iter() {
            assert_eq!(member.epoch(), idx);
            assert_eq!(member.roster_len(), idx + 1);
            assert_eq!(root(member), first);
        }
    }
    // Member 3 renews its leaf.
    let handshake = members[3].create_handshake(&req).unwrap();
    assert_eq!(handshake.path_keys.len(), 4);
    for member in members.iter_mut() {
        member.process_handshake(&handshake, &req).unwrap();
    }
    let first = root(&members[0]);
    for member in members.iter() {
        assert_eq!(root(member), first);
    }
}

#[test]
fn removed_member_cannot_follow() {
    let req = filled_store(3, 5);
    let mut member0 = GroupState::new(&req).unwrap();
    let mut member1 = member0.public_view(1);
    do_handshake(&mut member1, &mut member0, &req).unwrap();
    let mut member2 = member0.public_view(2);
    let join = member2.create_handshake(&req).unwrap();
    member0.process_handshake(&join, &req).unwrap();
    member1.process_handshake(&join, &req).unwrap();
    member2.process_handshake(&join, &req).unwrap();
    assert_eq!(root(&member0), root(&member2));

    // Member 0 removes member 1: epoch 2 -> 3.
    let removal = member0.create_handshake_for(&req, Operation::Remove(1)).unwrap();
    assert!(removal.segments.iter().all(|segment| segment.recipient != 1));
    assert_eq!(removal.segments.len(), 1);
    member0.process_handshake(&removal, &req).unwrap();
    member2.process_handshake(&removal, &req).unwrap();
    assert_eq!(root(&member0), root(&member2));
    assert!(!member0.is_live(1));
    assert_eq!(member0.roster_len(), 3);

    let before = root(&member1);
    assert_eq!(member1.process_handshake(&removal, &req).err(), Some(Error::UnknownMember));
    assert_eq!(member1.epoch(), 2);
    assert_eq!(root(&member1), before);
    assert_eq!(member1.root_secret(3).err(), Some(Error::MissingSecret));

    // The blank leaf can be taken again.
    let mut again = member0.public_view(1);
    let rejoin = again.create_handshake(&req).unwrap();
    assert_eq!(rejoin.op, Operation::Add(1));
    again.process_handshake(&rejoin, &req).unwrap();
    member0.process_handshake(&rejoin, &req).unwrap();
    member2.process_handshake(&rejoin, &req).unwrap();
    assert_eq!(root(&again), root(&member0));
    assert_eq!(root(&again), root(&member2));
}

#[test]
fn handshake_of_another_epoch_is_refused() {
    let req = filled_store(2, 4);
    let mut member0 = GroupState::new(&req).unwrap();
    let mut member1 = member0.public_view(1);
    let join = member1.create_handshake(&req).unwrap();
    member0.process_handshake(&join, &req).unwrap();
    // The same handshake once more: its epoch has passed.
    assert_eq!(member0.process_handshake(&join, &req).err(), Some(Error::HandshakeDecodeError));
    assert_eq!(member0.epoch(), 1);
}

#[test]
fn handshake_with_a_wrong_key_is_refused() {
    let req = filled_store(2, 4);
    let mut member0 = GroupState::new(&req).unwrap();
    let mut member1 = member0.public_view(1);
    let mut join = member1.create_handshake(&req).unwrap();
    let top = join.path_keys.len() - 1;
    join.path_keys[top][0] ^= 1;
    let before = root(&member0);
    assert_eq!(member0.process_handshake(&join, &req).err(), Some(Error::HandshakeDecodeError));
    assert_eq!(member0.epoch(), 0);
    assert_eq!(root(&member0), before);
}

#[test]
fn handshake_with_a_damaged_segment_is_refused() {
    let req = filled_store(2, 4);
    let mut member0 = GroupState::new(&req).unwrap();
    let mut member1 = member0.public_view(1);
    let mut join = member1.create_handshake(&req).unwrap();
    join.segments[0].sealed[5] ^= 0x80;
    assert_eq!(member0.process_handshake(&join, &req).err(), Some(Error::HandshakeDecodeError));
    let mut join = member1.create_handshake(&req).unwrap();
    join.segments.clear();
    assert_eq!(member0.process_handshake(&join, &req).err(), Some(Error::MissingSecret));
    assert_eq!(member0.epoch(), 0);
}

#[test]
fn handshake_needs_a_fresh_secret() {
    let req = filled_store(1, 1);
    let member0 = GroupState::new(&req).unwrap();
    assert_eq!(member0.create_handshake(&req).err(), Some(Error::MissingSecret));
}

#[test]
fn operations_that_the_roster_does_not_admit() {
    let req = filled_store(3, 4);
    let member0 = GroupState::new(&req).unwrap();
    // Nobody to remove, and no leaf to update beyond the roster.
    assert_eq!(
        member0.create_handshake_for(&req, Operation::Remove(1)).err(),
        Some(Error::UnknownMember)
    );
    assert_eq!(
        member0.create_handshake_for(&req, Operation::Update(1)).err(),
        Some(Error::UnknownMember)
    );
    // A member does not add another, nor itself twice, nor remove itself.
    assert_eq!(
        member0.create_handshake_for(&req, Operation::Add(1)).err(),
        Some(Error::UnknownMember)
    );
    assert_eq!(
        member0.create_handshake_for(&req, Operation::Add(0)).err(),
        Some(Error::UnknownMember)
    );
    assert_eq!(
        member0.create_handshake_for(&req, Operation::Remove(0)).err(),
        Some(Error::UnknownMember)
    );
    // A joiner leaves no gap in the roster.
    let far = member0.public_view(2);
    assert_eq!(far.create_handshake(&req).err(), Some(Error::UnknownMember));
    assert_eq!(member0.derive_path(&req, 1, 0).err(), Some(Error::UnknownMember));
    assert_eq!(member0.derive_path(&req, 0, 9).err(), Some(Error::MissingSecret));
}

#[test]
fn key_chain_follows_the_roster() {
    let req = filled_store(3, 4);
    let mut member0 = GroupState::new(&req).unwrap();
    let mut member1 = member0.public_view(1);
    let (chain1, chain0) = do_handshake(&mut member1, &mut member0, &req).unwrap();
    for idx in 0..2 {
        let mine = chain0.ratchet_state(idx).unwrap();
        let theirs = chain1.ratchet_state(idx).unwrap();
        assert_eq!(mine.key, theirs.key);
        assert_eq!(mine.generation, 0);
    }
    assert_ne!(chain0.ratchet_state(0).unwrap().key, chain0.ratchet_state(1).unwrap().key);
    assert!(chain0.ratchet_state(2).is_none());
    let again = member0.key_chain().unwrap();
    assert_eq!(again.ratchet_state(1).unwrap().key, chain0.ratchet_state(1).unwrap().key);
}

#[test]
fn handshake_on_the_wire() {
    let req = filled_store(3, 4);
    let mut member0 = GroupState::new(&req).unwrap();
    let mut member1 = member0.public_view(1);
    do_handshake(&mut member1, &mut member0, &req).unwrap();
    let joiner = member0.public_view(2);
    let handshake = joiner.create_handshake(&req).unwrap();
    let bytes = handshake.encode();
    assert_eq!(bytes.len(), 17 + 32 * 3 + 4 + 80 * 2);
    assert_eq!(&bytes[..17], &[0, 0, 0, 1, 0, 0, 0, 2, 0, 0, 0, 0, 2, 0, 0, 0, 3]);
    let back = Handshake::decode(&bytes).unwrap();
    assert_eq!(back.prior_epoch, 1);
    assert_eq!(back.sender, 2);
    assert_eq!(back.op, Operation::Add(2));
    assert_eq!(back.path_keys, handshake.path_keys);
    assert_eq!(back.segments.len(), 2);
    for (a, b) in back.segments.iter().zip(handshake.segments.iter()) {
        assert_eq!(a.recipient, b.recipient);
        assert_eq!(a.ephemeral_key, b.ephemeral_key);
        assert_eq!(a.sealed, b.sealed);
    }
    assert_eq!(back.encode(), bytes);
    for cut in 0..bytes.len() {
        assert_eq!(Handshake::decode(&bytes[..cut]).err(), Some(Error::HandshakeDecodeError));
    }
    let mut wrong_kind = bytes.clone();
    wrong_kind[8] = 3;
    assert_eq!(Handshake::decode(&wrong_kind).err(), Some(Error::HandshakeDecodeError));
    let mut longer = bytes.clone();
    longer.push(0);
    assert_eq!(Handshake::decode(&longer).err(), Some(Error::HandshakeDecodeError));

    // Remove and Update are told apart.
    let removal = member0.create_handshake_for(&req, Operation::Remove(1)).unwrap();
    assert_eq!(Handshake::decode(&removal.encode()).unwrap().op, Operation::Remove(1));
    let update = member0.create_handshake(&req).unwrap();
    assert_eq!(Handshake::decode(&update.encode()).unwrap().op, Operation::Update(0));
}

#[test]
fn handshake_bytes_move_the_context() {
    let req = filled_store(2, 4);
    let member0 = GroupState::new(&req).unwrap();
    let joiner = member0.public_view(1);
    let chain = member0.key_chain().unwrap();
    let mut context = EnclaveContext::new(member0, chain);
    let bytes = joiner.create_handshake(&req).unwrap().encode();

    assert_eq!(
        ecall_insert_handshake(&mut context, &bytes[..30], &req).err(),
        Some(Error::HandshakeDecodeError)
    );
    assert_eq!(context.group_state().epoch(), 0);
    assert!(context.key_chain().ratchet_state(1).is_none());

    ecall_insert_handshake(&mut context, &bytes, &req).unwrap();
    assert_eq!(context.group_state().epoch(), 1);
    assert_eq!(context.group_state().roster_len(), 2);
    assert_eq!(context.key_chain().ratchet_state(1).unwrap().generation, 0);

    // Delivered again, it belongs to a past epoch.
    assert_eq!(
        ecall_insert_handshake(&mut context, &bytes, &req).err(),
        Some(Error::HandshakeDecodeError)
    );
    assert_eq!(context.group_state().epoch(), 1);
}

#[test]
fn enclaves_join_and_rotate_through_the_log() {
    let req = filled_store(2, 4);
    let member0 = GroupState::new(&req).unwrap();
    assert!(member0.is_well_formed());
    let joiner = member0.public_view(1);
    assert!(joiner.is_well_formed());
    let mut first = EnclaveContext::from_group(member0).unwrap();
    let chain = first.group_state().key_chain().unwrap();
    let mut second = EnclaveContext::new(joiner, chain);

    // The second enclave joins.
    let join = inner_ecall_join_group(&second, &req, vec![7, 7], vec![8]).unwrap();
    assert_eq!(join.report, vec![7, 7]);
    assert_eq!(join.report_sig, vec![8]);
    assert_eq!(Handshake::decode(&join.handshake).unwrap().op, Operation::Add(1));
    assert_eq!(second.group_state().epoch(), 0);
    ecall_insert_handshake(&mut first, &join.handshake, &req).unwrap();
    ecall_insert_handshake(&mut second, &join.handshake, &req).unwrap();
    assert_eq!(root(first.group_state()), root(second.group_state()));

    // The first enclave rotates its key.
    let rotation = inner_ecall_handshake(&first, &req).unwrap();
    assert_eq!(Handshake::decode(&rotation.handshake).unwrap().op, Operation::Update(0));
    ecall_insert_handshake(&mut second, &rotation.handshake, &req).unwrap();
    ecall_insert_handshake(&mut first, &rotation.handshake, &req).unwrap();
    assert_eq!(first.group_state().epoch(), 2);
    assert_eq!(root(first.group_state()), root(second.group_state()));
    assert_eq!(
        first.key_chain().ratchet_state(1).unwrap().key,
        second.key_chain().ratchet_state(1).unwrap().key
    );
    assert!(first.group_state().is_well_formed());

    // No secret is left for a further epoch.
    let spent = filled_store(2, 3);
    assert_eq!(inner_ecall_handshake(&first, &spent).err(), Some(Error::MissingSecret));
}

#[test]
fn context_needs_the_root_secret() {
    let req = filled_store(1, 1);
    let member0 = GroupState::new(&req).unwrap();
    let outsider = member0.public_view(1);
    assert_eq!(EnclaveContext::from_group(outsider).err(), Some(Error::MissingSecret));
    assert!(member0.public_view(0).key_chain().is_err());
}
