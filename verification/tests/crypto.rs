use anonify::crypto::AccessRight;
use anonify::crypto::Ciphertext;
use anonify::crypto::Hash256;
use anonify::crypto::Keccak256;
use anonify::crypto::LockParam;
use anonify::crypto::Sha256;
use anonify::crypto::UserAddress;
use anonify::crypto::ACCESS_RIGHT_SIZE;
use anonify::crypto::CIPHERTEXT_SIZE;
use anonify::error::Error;

const SIG: [u8; 64] = [
    236, 103, 17, 252, 166, 199, 9, 46, 200, 107, 188, 0, 37, 111, 83, 105, 175, 81, 231, 14, 81,
    100, 221, 89, 102, 172, 30, 96, 15, 128, 117, 146, 181, 221, 149, 206, 163, 208, 113, 198, 241,
    16, 150, 248, 99, 170, 85, 122, 165, 197, 14, 120, 110, 37, 69, 32, 36, 218, 100, 64, 224, 226,
    99, 2,
];

const PUBKEY: [u8; 32] = [
    164, 189, 195, 42, 48, 163, 27, 74, 84, 147, 25, 254, 16, 14, 206, 134, 153, 148, 33, 189, 55,
    149, 7, 15, 11, 101, 106, 28, 48, 130, 133, 143,
];

const CHALLENGE: [u8; 32] = [
    244, 158, 183, 202, 237, 236, 27, 67, 39, 95, 178, 136, 235, 162, 188, 106, 52, 56, 6, 245, 3,
    101, 33, 155, 58, 175, 168, 63, 73, 125, 205, 225,
];

fn hex(bytes: &[u8]) -> String {
    let mut out = String::new();
    for byte in bytes {
        out.push_str(&format!("{:02x}", byte));
    }
    out
}

#[test]
fn sha256_of_abc() {
    assert_eq!(
        hex(Sha256::hash(b"abc").as_bytes()),
        "ba7816bf8f01cfea414140de5dae2223b00361a396177a9cb410ff61f20015ad"
    );
    assert_eq!(Sha256::hash(b"abc").as_array(), Sha256::hash(b"abc").0);
    assert_eq!(Sha256::default().as_array(), [0u8; 32]);
}

#[test]
fn keccak256_of_nothing_and_of_abc() {
    assert_eq!(
        hex(&[0u8; 0][..].keccak256()),
        "c5d2460186f7233c927e7db2dcc703c0e500b653ca82273b7bfad8045d85a470"
    );
    assert_eq!(
        hex(&b"abc".to_vec().keccak256()),
        "4e03657aea45a94fc7d47ba826c8d667c0d1e6e33a64a036ec44f58fa12d6c45"
    );
}

#[test]
fn valid_access_right_gives_the_address_of_the_key() {
    let access_right = AccessRight::checked(SIG, PUBKEY, CHALLENGE).unwrap();
    assert!(access_right.verify_sig().is_ok());
    let address = UserAddress::from_access_right(&access_right).unwrap();
    let digest = Sha256::hash(&PUBKEY).as_array();
    assert_eq!(address.as_bytes(), &digest[12..32]);
    assert_eq!(address, UserAddress::from_pubkey(&PUBKEY));
    assert_eq!(address, access_right.user_address());
    assert_eq!(address, access_right.verified_user_address().unwrap());
    assert_eq!(address, UserAddress::from_sig(&CHALLENGE, &SIG, &PUBKEY).unwrap());
    assert_eq!(Sha256::from_pubkey(&PUBKEY).as_array(), digest);
    assert_eq!(access_right.pubkey(), &PUBKEY);
}

#[test]
fn any_flipped_bit_of_signature_or_challenge_fails() {
    for byte in 0..64 {
        for bit in 0..8 {
            let mut sig = SIG;
            sig[byte] ^= 1 << bit;
            assert_eq!(
                UserAddress::from_sig(&CHALLENGE, &sig, &PUBKEY).err(),
                Some(Error::InvalidCapability)
            );
        }
    }
    for byte in 0..32 {
        for bit in 0..8 {
            let mut challenge = CHALLENGE;
            challenge[byte] ^= 1 << bit;
            let access_right = AccessRight { sig: SIG, pubkey: PUBKEY, challenge };
            assert_eq!(access_right.verify_sig().err(), Some(Error::InvalidCapability));
            assert_eq!(
                UserAddress::from_access_right(&access_right).err(),
                Some(Error::InvalidCapability)
            );
            assert_eq!(
                AccessRight::checked(SIG, PUBKEY, challenge).err(),
                Some(Error::InvalidCapability)
            );
        }
    }
}

#[test]
fn signature_under_another_key_fails() {
    let mut pubkey = PUBKEY;
    pubkey[0] ^= 1;
    assert_eq!(
        UserAddress::from_sig(&CHALLENGE, &SIG, &pubkey).err(),
        Some(Error::InvalidCapability)
    );
}

#[test]
fn access_right_on_the_wire() {
    let access_right = AccessRight::new(SIG, PUBKEY, CHALLENGE);
    let raw = access_right.clone().into_raw();
    assert_eq!(raw.len(), ACCESS_RIGHT_SIZE);
    assert_eq!(&raw[..64], &SIG[..]);
    assert_eq!(&raw[64..96], &PUBKEY[..]);
    assert_eq!(&raw[96..], &CHALLENGE[..]);
    let back = AccessRight::from_raw(&raw).unwrap();
    assert_eq!(back.sig, SIG);
    assert_eq!(back.pubkey, PUBKEY);
    assert_eq!(back.challenge, CHALLENGE);
    assert!(AccessRight::from_raw(&raw[..127]).is_none());
    assert!(AccessRight::from_raw(&[]).is_none());
}

#[test]
fn address_in_base64() {
    let address = UserAddress::base64_decode("KDY06J2T4bIldIq5Pjxo0Mq3ocY=");
    assert_eq!(
        address.as_bytes(),
        &[
            40, 54, 52, 232, 157, 147, 225, 178, 37, 116, 138, 185, 62, 60, 104, 208, 202, 183,
            161, 198
        ]
    );
    assert_eq!(address.base64_encode(), "KDY06J2T4bIldIq5Pjxo0Mq3ocY=");
    assert_eq!(UserAddress::try_base64_decode("KDY06J2T4bIldIq5Pjxo0Mq3ocY="), Some(address));
    assert_eq!(UserAddress::try_base64_decode("KDY06J2T4bIldIq5Pjxo0Mq3"), None);
    assert_eq!(UserAddress::try_base64_decode("not base64!"), None);
    assert_eq!(UserAddress::from_array([0u8; 20]).base64_encode(), "AAAAAAAAAAAAAAAAAAAAAAAAAAA=");
    assert_eq!(UserAddress::default(), UserAddress::from_array([0u8; 20]));
}

#[test]
fn address_written_and_read() {
    let first = UserAddress::from_array([1u8; 20]);
    let second = UserAddress::from_array([2u8; 20]);
    let mut buffer = vec![9u8];
    first.write(&mut buffer);
    second.write(&mut buffer);
    assert_eq!(buffer.len(), 41);
    let mut position = 1;
    assert_eq!(UserAddress::read(&buffer, &mut position), Some(first));
    assert_eq!(position, 21);
    assert_eq!(UserAddress::read(&buffer, &mut position), Some(second));
    assert_eq!(position, 41);
    assert_eq!(UserAddress::read(&buffer, &mut position), None);
    assert_eq!(position, 41);
    let mut position = 22;
    assert_eq!(UserAddress::read(&buffer, &mut position), None);
    assert_eq!(position, 22);
    assert!(first.same(&first));
    assert!(!first.same(&second));
}

#[test]
fn ciphertext_has_the_fixed_length() {
    assert_eq!(CIPHERTEXT_SIZE, 20);
    let bytes: Vec<u8> = (0..20).collect();
    let ciphertext = Ciphertext::from_bytes(&bytes);
    assert_eq!(ciphertext.as_bytes(), &bytes[..]);
    assert_eq!(ciphertext.len(), 20);
    assert_eq!(ciphertext.into_vec(), bytes);
    assert!(Ciphertext::try_from_bytes(&bytes).is_ok());
    assert_eq!(Ciphertext::try_from_bytes(&bytes[..19]).err(), Some(Error::MalformedCiphertext));
    assert_eq!(Ciphertext::try_from_bytes(&[0u8; 21]).err(), Some(Error::MalformedCiphertext));
    assert_eq!(Ciphertext::try_from_bytes(&[]).err(), Some(Error::MalformedCiphertext));
}

#[test]
fn ciphertexts_cut_from_a_batch() {
    let bytes: Vec<u8> = (0..60).collect();
    let ciphertexts = Ciphertext::from_bytes_iter(&bytes);
    assert_eq!(ciphertexts.len(), 3);
    for (i, ciphertext) in ciphertexts.iter().enumerate() {
        assert_eq!(ciphertext.as_bytes(), &bytes[20 * i..20 * (i + 1)]);
    }
    assert!(Ciphertext::from_bytes_iter(&[]).is_empty());
}

#[test]
fn lock_params_cut_written_and_read() {
    let bytes: Vec<u8> = (0..64).collect();
    let lock_params = LockParam::from_bytes_iter(&bytes);
    assert_eq!(lock_params.len(), 2);
    assert_eq!(lock_params[0].as_bytes(), &bytes[..32]);
    assert_eq!(lock_params[1].as_bytes(), &bytes[32..]);
    assert_eq!(LockParam::from_bytes(&bytes[32..]).into_vec(), bytes[32..].to_vec());
    let mut buffer = Vec::new();
    lock_params[1].write(&mut buffer);
    assert_eq!(buffer, bytes[32..].to_vec());
    let mut position = 0;
    assert_eq!(LockParam::read(&buffer, &mut position).unwrap().as_bytes(), &bytes[32..]);
    assert_eq!(position, 32);
    assert!(LockParam::read(&buffer, &mut position).is_none());
    assert_eq!(LockParam::default().as_bytes(), &[0u8; 32]);
}

#[test]
fn lock_param_is_the_keccak_digest_of_the_state() {
    assert_eq!(
        hex(LockParam::of_state(&[]).as_bytes()),
        "c5d2460186f7233c927e7db2dcc703c0e500b653ca82273b7bfad8045d85a470"
    );
    assert_ne!(LockParam::of_state(&[1]).as_bytes(), LockParam::of_state(&[2]).as_bytes());
}

#[test]
fn error_messages() {
    assert_eq!(Error::InvalidCapability.message(), "invalid capability");
    assert_eq!(Error::MalformedCiphertext.message(), "malformed ciphertext");
    assert_eq!(Error::MissingSecret.message(), "missing path secret");
    assert_eq!(Error::UnknownMember.message(), "unknown member");
    assert_eq!(Error::HandshakeDecodeError.message(), "handshake decode error");
    assert_eq!(Error::StateSizeMismatch.message(), "state size mismatch");
}
