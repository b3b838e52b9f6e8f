use envseal::recipients::{plan_recipients, RecipientError, RecipientKind};
use envseal::crypto;
use age::secrecy::ExposeSecret;
use envseal::recipients::{clean_recipient, extract_valid_keys, identity_file_recipient, is_recipient_key};
use envseal::vault::Vault;

#[test]
fn master_scope_is_the_sha256_of_the_public_key() {
    let (mut vault, _keys) = Vault::init("pw", true, "/work/app/.envseal".to_string(), vec![]).unwrap();
    vault.public_key = vec![0u8; 32];
    assert_eq!(
        vault.master_scope(),
        "master_66687aadf862bd776c8fc18b8e9f8e20089714856ee233b3902a591d0d5f2925"
    );
}

#[test]
fn sealing_hides_the_plaintext_and_adds_a_tag() {
    let key = [7u8; 32];
    let plaintext = b"a secret value";
    let (nonce, ciphertext) = crypto::encrypt(&key, plaintext).unwrap();
    assert_eq!(ciphertext.len(), plaintext.len() + 16);
    assert_ne!(&ciphertext[..plaintext.len()], &plaintext[..]);
    assert_eq!(crypto::decrypt(&key, &nonce, &ciphertext).unwrap(), plaintext.to_vec());
    assert!(crypto::decrypt(&[8u8; 32], &nonce, &ciphertext).is_err());
}

#[test]
fn recipient_keys_are_recognised_by_their_parsers() {
    let age_key = "age1ql3z7hjy54pw3hyww5ayyfg7zqgvc7w3j2elw8zmrj2kg5sfn9aqmcac8p";
    assert!(is_recipient_key(age_key));
    assert!(!is_recipient_key("not a key"));
    let raw = format!("# team\n{age_key}\n\ngarbage line\n");
    assert_eq!(extract_valid_keys(&raw), vec![age_key.to_string()]);
    assert_eq!(clean_recipient(&format!("{age_key} # priya")), age_key);
}

#[test]
fn identity_file_gives_the_public_key_of_its_first_identity() {
    let identity = age::x25519::Identity::generate();
    let secret = identity.to_string();
    let contents = format!("# envseal identity\nnot an identity\n  {}  \n", secret.expose_secret());
    assert_eq!(identity_file_recipient(&contents), Some(identity.to_public().to_string()));
    assert_eq!(identity_file_recipient("# nothing here\n"), None);
}

#[test]
fn encrypt_with_nonce_matches_the_published_aes_gcm_vectors() {
    let key = [0u8; 32];
    let nonce = [0u8; 12];
    let empty = envseal::crypto::encrypt_with_nonce(&key, &nonce, &[]).unwrap();
    assert_eq!(envseal::hex::encode_hex(&empty), "530f8afbc74536b9a963b4f1c4cb738b");
    let block = envseal::crypto::encrypt_with_nonce(&key, &nonce, &[0u8; 16]).unwrap();
    assert_eq!(
        envseal::hex::encode_hex(&block),
        "cea7403d4d606b6e074ec5d3baf39d18d0d1c8a799996bf0265b98b5d48ab919"
    );
}

#[test]
fn master_key_rotates_to_the_key_given() {
    let (mut v, keys) = envseal::vault::Vault::init("pw", true, "/work/app/.envseal".to_string(), vec![]).unwrap();
    v.set_entry(&keys, None, None, "API", "secret", None).unwrap();
    let new_dek = [7u8; 32];
    v.rotate_master_key_to(&keys, &new_dek).unwrap();
    v.seal_integrity(&keys.signing_key);
    let k2 = v.unlock("pw").unwrap();
    assert_eq!(k2.master_dek, new_dek);
    assert_eq!(v.get_entry(&k2.master_dek, None, None, "API", None).unwrap(), "secret");
}

#[test]
fn recipients_are_planned_by_kind_and_refused_at_the_first_bad_line() {
    let age_key = "age1ql3z7hjy54pw3hyww5ayyfg7zqgvc7w3j2elw8zmrj2kg5sfn9aqmcac8p";
    let plan = plan_recipients(&[format!("{age_key} # priya")]).unwrap();
    assert_eq!(plan.len(), 1);
    assert!(matches!(plan[0].0, RecipientKind::X25519));
    assert_eq!(plan[0].1, age_key);
    let bad = plan_recipients(&[age_key.to_string(), "nope".to_string(), "also bad".to_string()]);
    assert!(matches!(bad, Err(RecipientError::Invalid(ref r)) if r == "nope"));
    assert!(matches!(plan_recipients(&[]), Err(RecipientError::NoRecipients)));
}
