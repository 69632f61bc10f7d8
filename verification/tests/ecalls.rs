use anonify::context::EnclaveContext;
use anonify::ecalls::ecall_get_state;
use anonify::ecalls::ecall_init_state;
use anonify::ecalls::ecall_state_transition;
use anonify::group_state::GroupState;
use anonify::secrets::PathSecretKVS;
use anonify::secrets::PathSecretRequest;
use anonify::test_utils::init_path_secret_kvs;
use ed25519_dalek::Keypair;
use ed25519_dalek::Signer;
use ed25519_dalek::Verifier;
use rand::rngs::OsRng;
use rand::Rng;

fn init_enclave() -> EnclaveContext {
    let mut kvs = PathSecretKVS::new();
    init_path_secret_kvs(&mut kvs, 1, 1);
    let group = GroupState::new(&PathSecretRequest::Local(kvs)).unwrap();
    EnclaveContext::from_group(group).unwrap()
}

#[test]
fn test_init_state() {
    let mut enclave = init_enclave();
    let mut csprng = OsRng;
    let keypair: Keypair = Keypair::generate(&mut csprng);

    let msg = rand::thread_rng().gen::<[u8; 32]>();
    let sig = keypair.sign(&msg);
    assert!(keypair.verify(&msg, &sig).is_ok());

    let total_supply = 100;

    assert!(ecall_init_state(
        &mut enclave,
        &sig.to_bytes(),
        &keypair.public.to_bytes(),
        &msg,
        total_supply,
        Vec::new(),
        Vec::new(),
    )
    .is_ok());
}

#[test]
fn test_state_transition() {
    let mut enclave = init_enclave();
    let mut csprng = OsRng;
    let keypair: Keypair = Keypair::generate(&mut csprng);

    let msg = rand::thread_rng().gen::<[u8; 32]>();
    let sig = keypair.sign(&msg);
    assert!(keypair.verify(&msg, &sig).is_ok());

    let amount = 0;
    let target: [u8; 20] = csprng.gen();

    assert!(ecall_state_transition(
        &mut enclave,
        &sig.to_bytes(),
        &keypair.public.to_bytes(),
        &msg,
        &target[..].try_into().unwrap(),
        amount,
        Vec::new(),
        Vec::new(),
    )
    .is_ok());
}

#[test]
fn test_ecall_get_state() {
    let enclave = init_enclave();
    let mut csprng = OsRng;
    let keypair: Keypair = Keypair::generate(&mut csprng);

    let msg = rand::thread_rng().gen::<[u8; 32]>();
    let sig = keypair.sign(&msg);
    assert!(keypair.verify(&msg, &sig).is_ok());

    let state = ecall_get_state(&enclave, &sig.to_bytes(), &keypair.public.to_bytes(), &msg);
    assert_eq!(state, Ok(0));
}
