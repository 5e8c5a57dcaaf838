use ledger_node::chain::Blockchain;
use ledger_node::kyber::KyberEncryption;
use ledger_node::market::create_task_artifacts;
use ledger_node::sphincs::Sphincs;
use ledger_node::LedgerError;

#[test]
fn task_completion_scenario() {
    let mut blockchain = Blockchain::new();
    let (pub_key, secret_key) = Sphincs::generate_keypair().unwrap();
    let payload = vec![9, 9, 9];
    let sig = Sphincs::sign(b"t1:desc", &secret_key).unwrap();

    // The stored description does not match the signed message: completion
    // must fail verification and leave the task pending.
    blockchain.add_task(
        "t1".to_string(),
        "tampered".to_string(),
        payload.clone(),
        10,
        pub_key.clone(),
        sig.clone(),
    );
    assert_eq!(
        blockchain.complete_task("t1").unwrap_err(),
        LedgerError::SignatureInvalid
    );
    assert!(!blockchain.get_task("t1").unwrap().is_complete);

    // With the signed description the signature verifies and the task is
    // marked complete.
    blockchain.add_task(
        "t1".to_string(),
        "desc".to_string(),
        payload,
        10,
        pub_key,
        sig,
    );
    let done = blockchain.complete_task("t1").unwrap();
    assert!(done.is_complete);
    assert_eq!(done.id, "t1");
    assert!(blockchain.get_task("t1").unwrap().is_complete);
}

#[test]
fn completing_unknown_task_fails() {
    let mut blockchain = Blockchain::new();
    assert_eq!(
        blockchain.complete_task("missing").unwrap_err(),
        LedgerError::TaskNotFound
    );
}

#[test]
fn failed_completion_keeps_task_pending() {
    let mut blockchain = Blockchain::new();
    blockchain.add_task(
        "t".to_string(),
        "d".to_string(),
        vec![],
        1,
        vec![0; 32],
        vec![0; 17088],
    );
    assert_eq!(
        blockchain.complete_task("t").unwrap_err(),
        LedgerError::SignatureInvalid
    );
    let pending = blockchain.get_pending_tasks();
    assert_eq!(pending.len(), 1);
    assert_eq!(pending[0].id, "t");
    assert!(!pending[0].is_complete);
}

#[test]
fn pending_tasks_hide_completed_ones() {
    let mut blockchain = Blockchain::new();
    let (pub_key, secret_key) = Sphincs::generate_keypair().unwrap();
    let sig_a = Sphincs::sign(b"a:da", &secret_key).unwrap();
    let sig_b = Sphincs::sign(b"b:db", &secret_key).unwrap();
    blockchain.add_task("a".to_string(), "da".to_string(), vec![], 1, pub_key.clone(), sig_a);
    blockchain.add_task("b".to_string(), "db".to_string(), vec![], 2, pub_key, sig_b);
    assert_eq!(blockchain.get_pending_tasks().len(), 2);

    blockchain.complete_task("a").unwrap();
    let pending = blockchain.get_pending_tasks();
    assert_eq!(pending.len(), 1);
    assert_eq!(pending[0].id, "b");
}

#[test]
fn adding_same_id_replaces_task() {
    let mut blockchain = Blockchain::new();
    blockchain.add_task("t".to_string(), "one".to_string(), vec![1], 1, vec![], vec![]);
    blockchain.add_task("t".to_string(), "two".to_string(), vec![2], 2, vec![], vec![]);
    let task = blockchain.get_task("t").unwrap();
    assert_eq!(task.description, "two");
    assert_eq!(task.reward, 2);
    assert_eq!(blockchain.get_pending_tasks().len(), 1);
}

#[test]
fn kem_round_trip() {
    let (public_key, secret_key) = KyberEncryption::generate_keypair();
    let (shared_secret, ciphertext) = KyberEncryption::encrypt(&public_key).unwrap();
    let recovered = KyberEncryption::decrypt(&ciphertext, &secret_key).unwrap();
    assert_eq!(recovered, shared_secret);
}

#[test]
fn kem_rejects_malformed_bytes() {
    let (public_key, secret_key) = KyberEncryption::generate_keypair();
    let (_, ciphertext) = KyberEncryption::encrypt(&public_key).unwrap();

    assert_eq!(
        KyberEncryption::decrypt(&[1, 2, 3], &secret_key).unwrap_err(),
        LedgerError::DecapsulationError
    );
    assert_eq!(
        KyberEncryption::decrypt(&ciphertext, &[4, 5, 6]).unwrap_err(),
        LedgerError::MalformedKeyMaterial
    );
    assert_eq!(
        KyberEncryption::encrypt(&[7, 8]).unwrap_err(),
        LedgerError::MalformedKeyMaterial
    );

    assert!(KyberEncryption::ciphertext_from_bytes(&ciphertext).is_some());
    assert!(KyberEncryption::ciphertext_from_bytes(&[0; 10]).is_none());
    assert!(KyberEncryption::secret_key_from_bytes(&secret_key).is_some());
    assert!(KyberEncryption::secret_key_from_bytes(&[0; 10]).is_none());
}

#[test]
fn signature_rejects_tampered_message() {
    let (pub_key, secret_key) = Sphincs::generate_keypair().unwrap();
    let sig = Sphincs::sign(b"hello", &secret_key).unwrap();
    assert!(Sphincs::verify(b"hello", &sig, &pub_key));
    assert!(!Sphincs::verify(b"hellx", &sig, &pub_key));
    assert!(!Sphincs::verify(b"hello", &[0; 17088], &pub_key));
    assert!(!Sphincs::verify(b"hello", &sig[..100], &pub_key));
    assert!(Sphincs::sign(b"m", &[0; 3]).is_err());
}

#[test]
fn issued_artifacts_complete_their_task() {
    let mut blockchain = Blockchain::new();
    let artifacts = create_task_artifacts("job7", "fold proteins");
    blockchain.add_task(
        "job7".to_string(),
        "fold proteins".to_string(),
        artifacts.kem_ciphertext.clone(),
        25,
        artifacts.sphincs_public_key.clone(),
        artifacts.signature.clone(),
    );
    let done = blockchain.complete_task("job7").unwrap();
    assert!(done.is_complete);

    let recovered =
        KyberEncryption::decrypt(&artifacts.kem_ciphertext, &artifacts.kem_secret_key).unwrap();
    assert_eq!(recovered, artifacts.shared_secret);
}
