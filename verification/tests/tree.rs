use anonify::bytes::array_from_slice;
use anonify::bytes::slice_eq;
use anonify::bytes::split_chunks;
use anonify::bytes::subrange;
use anonify::bytes::u32_from_be_bytes;
use anonify::bytes::u32_to_be_bytes;
use anonify::crypto::Keccak256;
use anonify::handshake::Segment;
use anonify::secrets::derive_key;
use anonify::secrets::public_key_of;
use anonify::secrets::PathSecret;
use anonify::secrets::LABEL_NODE;
use anonify::secrets::LABEL_PATH;
use anonify::tree_math::ancestor_of;
use anonify::tree_math::common_level_of;
use anonify::tree_math::depth_for;
use anonify::tree_math::power_of_two;

#[test]
fn depth_of_the_smallest_tree() {
    let expected = [0usize, 0, 1, 2, 2, 3, 3, 3, 3, 4];
    for (n, depth) in expected.iter().enumerate() {
        assert_eq!(depth_for(n as u32), *depth);
    }
    assert_eq!(depth_for(65535), 16);
    assert_eq!(depth_for(65536), 16);
    assert_eq!(depth_for(32769), 16);
    assert_eq!(depth_for(32768), 15);
}

#[test]
fn powers_of_two() {
    assert_eq!(power_of_two(0), 1);
    assert_eq!(power_of_two(1), 2);
    assert_eq!(power_of_two(10), 1024);
    assert_eq!(power_of_two(16), 65536);
}

#[test]
fn ancestors_halve_the_offset() {
    assert_eq!(ancestor_of(13, 0), 13);
    assert_eq!(ancestor_of(13, 1), 6);
    assert_eq!(ancestor_of(13, 2), 3);
    assert_eq!(ancestor_of(13, 3), 1);
    assert_eq!(ancestor_of(13, 4), 0);
    assert_eq!(ancestor_of(13, 40), 0);
}

#[test]
fn leaves_meet_at_their_common_ancestor() {
    assert_eq!(common_level_of(5, 5), 0);
    assert_eq!(common_level_of(4, 5), 1);
    assert_eq!(common_level_of(5, 4), 1);
    assert_eq!(common_level_of(0, 1), 1);
    assert_eq!(common_level_of(1, 2), 2);
    assert_eq!(common_level_of(0, 7), 3);
    assert_eq!(common_level_of(3, 4), 3);
    assert_eq!(common_level_of(0, u32::MAX), 32);
}

#[test]
fn byte_helpers() {
    assert!(slice_eq(&[1, 2, 3], &[1, 2, 3]));
    assert!(!slice_eq(&[1, 2, 3], &[1, 2, 4]));
    assert!(!slice_eq(&[1, 2, 3], &[1, 2]));
    assert!(slice_eq(&[], &[]));
    assert_eq!(array_from_slice::<3>(&[7, 8, 9]), [7, 8, 9]);
    assert_eq!(subrange(&[1, 2, 3, 4], 1, 3), vec![2, 3]);
    assert_eq!(subrange(&[1, 2, 3, 4], 2, 2), Vec::<u8>::new());
    assert_eq!(split_chunks(&[1, 2, 3, 4, 5, 6], 2), vec![vec![1, 2], vec![3, 4], vec![5, 6]]);
    assert!(split_chunks(&[], 5).is_empty());
    assert_eq!(u32_to_be_bytes(0x01020304), [1, 2, 3, 4]);
    assert_eq!(u32_to_be_bytes(u32::MAX), [255, 255, 255, 255]);
    assert_eq!(u32_from_be_bytes(&[9, 1, 2, 3, 4], 1), 0x01020304);
    assert_eq!(u32_from_be_bytes(&[255, 255, 255, 255], 0), u32::MAX);
}

#[test]
fn key_derivation_is_the_digest_of_label_index_and_secret() {
    let secret = [5u8; 32];
    let mut input = vec![9u8, 0, 0, 1, 2];
    input.extend_from_slice(&secret);
    assert_eq!(derive_key(9, 258, &secret), input.keccak256());
    assert_ne!(derive_key(9, 258, &secret), derive_key(9, 259, &secret));
    assert_ne!(derive_key(9, 258, &secret), derive_key(8, 258, &secret));
}

#[test]
fn path_secret_derivations() {
    let secret = PathSecret::from_array([5u8; 32]);
    assert_eq!(secret.parent().as_bytes(), &derive_key(LABEL_PATH, 0, &[5u8; 32]));
    let private_key = secret.private_key();
    assert_eq!(private_key, derive_key(LABEL_NODE, 0, &[5u8; 32]));
    assert_eq!(
        secret.public_key(),
        x25519_dalek::x25519(private_key, x25519_dalek::X25519_BASEPOINT_BYTES)
    );
    assert_ne!(secret.public_key(), private_key);
}

#[test]
fn public_key_of_a_known_private_key() {
    // The first test vector of RFC 7748, section 6.1.
    let private_key: [u8; 32] = [
        0x77, 0x07, 0x6d, 0x0a, 0x73, 0x18, 0xa5, 0x7d, 0x3c, 0x16, 0xc1, 0x72, 0x51, 0xb2, 0x66,
        0x45, 0xdf, 0x4c, 0x2f, 0x87, 0xeb, 0xc0, 0x99, 0x2a, 0xb1, 0x77, 0xfb, 0xa5, 0x1d, 0xb9,
        0x2c, 0x2a,
    ];
    let public_key: [u8; 32] = [
        0x85, 0x20, 0xf0, 0x09, 0x89, 0x30, 0xa7, 0x54, 0x74, 0x8b, 0x7d, 0xdc, 0xb4, 0x3e, 0xf7,
        0x5a, 0x0d, 0xbf, 0x3a, 0x0d, 0x26, 0x38, 0x1a, 0xf4, 0xeb, 0xa4, 0xa9, 0x8e, 0xaa, 0x9b,
        0x4e, 0x6a,
    ];
    assert_eq!(public_key_of(&private_key), public_key);
    assert_eq!(
        x25519_dalek::x25519(private_key, x25519_dalek::X25519_BASEPOINT_BYTES),
        public_key
    );
    // A secret sealed for that public key opens under that private key only.
    let secret = PathSecret::from_array([1u8; 32]);
    let segment = Segment::seal(&secret, 3, &public_key);
    assert_eq!(segment.recipient, 3);
    assert_eq!(segment.sealed.len(), 44);
    assert_ne!(&segment.sealed[..32], secret.as_bytes());
    assert_eq!(segment.open(&private_key).unwrap().as_bytes(), secret.as_bytes());
    let mut other = private_key;
    other[5] ^= 1;
    assert!(segment.open(&other).is_none());
    let mut renumbered = segment;
    renumbered.recipient = 4;
    assert!(renumbered.open(&private_key).is_none());
    // Sealing is a function of its arguments.
    let again = Segment::seal(&secret, 3, &public_key);
    assert_eq!(again.ephemeral_key, segment.ephemeral_key);
    assert_eq!(again.sealed, segment.sealed);
}

#[test]
fn fresh_secrets_differ() {
    let first = PathSecret::new_from_random();
    let second = PathSecret::new_from_random();
    assert_ne!(first.as_bytes(), second.as_bytes());
}
