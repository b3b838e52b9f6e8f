use envseal::crypto;
use envseal::env_file::is_valid_env_key;
use envseal::error::VaultError;
use envseal::locate::vault_file_name;
use envseal::session::{CachedKeys, SessionManager};
use envseal::strmap::StrMap;
use envseal::vault::{Entry, Vault, VaultKeys, BASE_TAG};

fn local_vault(password: &str) -> (Vault, VaultKeys) {
    Vault::init(password, true, "/work/app/.envseal".to_string(), vec![]).unwrap()
}

fn global_vault(password: &str, workdir: Vec<String>) -> (Vault, VaultKeys) {
    Vault::init(
        password,
        false,
        "/home/u/.config/envseal/seal-encrypted.toml".to_string(),
        workdir,
    )
    .unwrap()
}

fn msg(e: VaultError) -> String {
    e.message()
}

fn tamper(vault: &mut Vault) {
    let mut g = vault.entries.remove("project").unwrap();
    g.base.insert(
        "INJECTED_KEY".to_string(),
        Entry {
            nonce: vec![0u8; 12],
            ciphertext: vec![0u8; 16],
        },
    );
    vault.entries.insert("project".to_string(), g);
}

fn check_tamper_detected(password: &str) {
    let (mut vault, keys) = local_vault(password);
    assert!(vault.unlock(password).is_ok());
    vault
        .set_entry(&keys, None, None, "API_KEY", "secret-123", None)
        .unwrap();
    tamper(&mut vault);
    let unlock_result = vault.unlock(password);
    assert!(unlock_result.is_err());
    let err_msg = msg(unlock_result.err().unwrap());
    assert!(
        err_msg.contains("signature verification failed") || err_msg.contains("SEAL TAMPERED"),
        "Expected tamper error, got: {err_msg}"
    );
}

#[test]
fn integration_test_test_signature_tamper_detection() {
    check_tamper_detected("master_pass");
}

#[test]
fn vault_integration_test_test_signature_tamper_detection() {
    check_tamper_detected("master_pass");
}

fn base_and_protected_tag_workflow(reserved_message: &str) {
    let (mut vault, keys) = local_vault("master_pass");

    vault
        .set_entry(&keys, None, None, "API_KEY", "secret-123", None)
        .unwrap();
    let retrieved = vault
        .get_entry(&keys.master_dek, None, None, "API_KEY", None)
        .unwrap();
    assert_eq!(retrieved.as_str(), "secret-123");

    vault
        .create_protected_tag(&keys.signing_key, None, "prod", "tag_pass")
        .unwrap();
    assert!(vault.is_tag_protected(None, Some("prod")).unwrap());

    let create_base_err = vault.create_protected_tag(&keys.signing_key, None, "base", "pass");
    assert!(create_base_err.is_err());
    assert!(msg(create_base_err.err().unwrap()).contains(reserved_message));

    let dup_err = vault.create_protected_tag(&keys.signing_key, None, "prod", "tag_pass");
    assert!(dup_err.is_err());
    assert!(msg(dup_err.err().unwrap()).contains("already exists"));

    let tag_key = vault.unlock_tag(None, "prod", "tag_pass").unwrap();
    vault
        .set_entry(&keys, None, Some("prod"), "DB_PASS", "prod-db-123", Some(&tag_key))
        .unwrap();
    let retrieved_tag = vault
        .get_entry(&keys.master_dek, None, Some("prod"), "DB_PASS", Some(&tag_key))
        .unwrap();
    assert_eq!(retrieved_tag.as_str(), "prod-db-123");
}

#[test]
fn integration_test_test_base_and_protected_tag_workflow() {
    base_and_protected_tag_workflow("reserved keyword");
}

#[test]
fn vault_integration_test_test_base_and_protected_tag_workflow() {
    base_and_protected_tag_workflow("base");
}

#[test]
fn test_tag_overrides_base_variable_precedence() {
    let (mut vault, keys) = local_vault("master_pass");
    vault.set_entry(&keys, None, None, "PORT", "3000", None).unwrap();
    vault
        .create_protected_tag(&keys.signing_key, None, "prod", "prod_pass")
        .unwrap();
    let tag_key = vault.unlock_tag(None, "prod", "prod_pass").unwrap();
    vault
        .set_entry(&keys, None, Some("prod"), "PORT", "8080", Some(&tag_key))
        .unwrap();
    let base_val = vault
        .get_entry(&keys.master_dek, None, None, "PORT", None)
        .unwrap();
    assert_eq!(base_val.as_str(), "3000");
    let prod_val = vault
        .get_entry(&keys.master_dek, None, Some("prod"), "PORT", Some(&tag_key))
        .unwrap();
    assert_eq!(prod_val.as_str(), "8080");
}

fn entry_removal_edge_cases(expected: &str) {
    let (mut vault, keys) = local_vault("master_pass");
    vault.set_entry(&keys, None, None, "KEY1", "val1", None).unwrap();
    let remove_base_err = vault.remove_entry(&keys.signing_key, None, Some("base"), None, None);
    assert!(remove_base_err.is_err());
    assert!(msg(remove_base_err.err().unwrap()).contains(expected));
    vault
        .remove_entry(&keys.signing_key, None, None, Some("KEY1"), None)
        .unwrap();
    let get_err = vault.get_entry(&keys.master_dek, None, None, "KEY1", None);
    assert!(get_err.is_err());
}

#[test]
fn integration_test_test_entry_removal_edge_cases() {
    entry_removal_edge_cases("Cannot remove the reserved");
}

#[test]
fn vault_integration_test_test_entry_removal_edge_cases() {
    entry_removal_edge_cases("Cannot remove");
}

fn local_vault_group_isolation(link_message: &str) {
    let (mut vault, keys) = local_vault("master_pass");
    let resolve_err = vault.resolve_group_name(Some("CUSTOM_GROUP"));
    assert!(resolve_err.is_err());
    assert!(msg(resolve_err.err().unwrap()).contains("do not support multiple groups"));
    let link_err = vault.link_group(&keys.signing_key, "NEW_GROUP");
    assert!(link_err.is_err());
    assert!(msg(link_err.err().unwrap()).contains(link_message));
}

#[test]
fn integration_test_test_local_vault_group_isolation() {
    local_vault_group_isolation("Linking is only used for the global vault");
}

#[test]
fn vault_integration_test_test_local_vault_group_isolation() {
    local_vault_group_isolation("cannot configure linking");
}

fn failed_authentication_attempts(check_master_message: bool) {
    let (mut vault, keys) = local_vault("correct_master");
    let bad_master_err = vault.unlock("wrong_master");
    assert!(bad_master_err.is_err());
    if check_master_message {
        assert!(msg(bad_master_err.err().unwrap()).contains("Wrong master password"));
    }
    vault
        .create_protected_tag(&keys.signing_key, None, "staging", "correct_tag_pass")
        .unwrap();
    let bad_tag_err = vault.unlock_tag(None, "staging", "wrong_tag_pass");
    assert!(bad_tag_err.is_err());
    assert!(msg(bad_tag_err.err().unwrap()).contains("Wrong tag password"));
}

#[test]
fn integration_test_test_failed_authentication_attempts() {
    failed_authentication_attempts(true);
}

#[test]
fn vault_integration_test_test_failed_authentication_attempts() {
    failed_authentication_attempts(false);
}

#[test]
fn test_master_password_change_preserves_entries() {
    let (mut vault, keys) = local_vault("initial_pass");
    vault
        .set_entry(&keys, None, None, "STATIC_KEY", "important_secret", None)
        .unwrap();
    vault.change_master_password(&keys, "new_secure_pass").unwrap();
    assert!(vault.unlock("initial_pass").is_err());
    let new_keys = vault.unlock("new_secure_pass").unwrap();
    let val = vault
        .get_entry(&new_keys.master_dek, None, None, "STATIC_KEY", None)
        .unwrap();
    assert_eq!(val.as_str(), "important_secret");
}

fn custom_profile_naming() {
    let name = vault_file_name(Some("prod"));
    assert_eq!(name, ".prod.envseal");
    let path = format!("/work/app/{name}");
    let (vault, _) = Vault::init("master_pass", true, path, vec![]).unwrap();
    assert!(vault.is_local());
}

#[test]
fn integration_test_test_custom_profile_naming() {
    custom_profile_naming();
}

#[test]
fn vault_integration_test_test_custom_profile_naming() {
    custom_profile_naming();
}

fn list_all_keys_scenario() {
    let (mut vault, keys) = local_vault("master_pass");
    vault.set_entry(&keys, None, None, "BASE_KEY_1", "v1", None).unwrap();
    vault.set_entry(&keys, None, None, "BASE_KEY_2", "v2", None).unwrap();
    vault
        .create_protected_tag(&keys.signing_key, None, "dev", "tag_pass")
        .unwrap();
    let tag_key = vault.unlock_tag(None, "dev", "tag_pass").unwrap();
    vault
        .set_entry(&keys, None, Some("dev"), "DEV_KEY_1", "v3", Some(&tag_key))
        .unwrap();
    let base_keys = vault.list_all_keys(None, None).unwrap();
    assert_eq!(base_keys.len(), 2);
    assert!(base_keys.contains(&"BASE_KEY_1".to_string()));
    let dev_keys = vault.list_all_keys(None, Some("dev")).unwrap();
    assert_eq!(dev_keys.len(), 3);
    assert!(dev_keys.contains(&"DEV_KEY_1".to_string()));
    assert!(dev_keys.contains(&"BASE_KEY_1".to_string()));
}

#[test]
fn integration_test_test_list_all_keys() {
    list_all_keys_scenario();
}

#[test]
fn vault_integration_test_test_list_all_keys() {
    list_all_keys_scenario();
}

fn protected_tag_deletion_rules(expected: &str) {
    let (mut vault, keys) = local_vault("master_pass");
    vault
        .create_protected_tag(&keys.signing_key, None, "secure_tag", "tag_pass")
        .unwrap();
    let unauth = vault.remove_entry(&keys.signing_key, None, Some("secure_tag"), None, None);
    assert!(unauth.is_err());
    assert!(msg(unauth.err().unwrap()).contains(expected));
    let tag_key = vault.unlock_tag(None, "secure_tag", "tag_pass").unwrap();
    vault
        .remove_entry(&keys.signing_key, None, Some("secure_tag"), None, Some(&tag_key))
        .unwrap();
    assert!(!vault.is_tag_protected(None, Some("secure_tag")).unwrap());
}

#[test]
fn integration_test_test_protected_tag_deletion_rules() {
    protected_tag_deletion_rules("Password required to modify it");
}

#[test]
fn vault_integration_test_test_protected_tag_deletion_rules() {
    protected_tag_deletion_rules("Password required");
}

fn rotate_base_scope_dek() {
    let (mut vault, keys) = local_vault("master_pass");
    vault
        .set_entry(&keys, None, None, "API_KEY", "secret-123", None)
        .unwrap();
    vault.rotate_scope_dek(&keys, None, None, None, None).unwrap();
    let rotated_keys = vault.unlock("master_pass").unwrap();
    let retrieved = vault
        .get_entry(&rotated_keys.master_dek, None, None, "API_KEY", None)
        .unwrap();
    assert_eq!(retrieved.as_str(), "secret-123");
}

#[test]
fn integration_test_test_rotate_base_scope_dek() {
    rotate_base_scope_dek();
}

#[test]
fn vault_integration_test_test_rotate_base_scope_dek() {
    rotate_base_scope_dek();
}

#[test]
fn test_rotate_protected_tag_dek_requires_password() {
    let (mut vault, keys) = local_vault("master_pass");
    vault
        .create_protected_tag(&keys.signing_key, None, "prod", "tag_pass")
        .unwrap();
    let rotate_no_pass = vault.rotate_scope_dek(&keys, None, Some("prod"), None, None);
    assert!(rotate_no_pass.is_err());
    assert!(msg(rotate_no_pass.err().unwrap()).contains("Tag password required"));
}

fn rotate_protected_tag_dek_with_entries(check_missing_password: bool) {
    let (mut vault, keys) = local_vault("master_pass");
    let tag_key = vault
        .create_protected_tag(&keys.signing_key, None, "prod", "tag_pass")
        .unwrap();
    vault
        .set_entry(&keys, None, Some("prod"), "DB_PASS", "prod-db-123", Some(&tag_key))
        .unwrap();
    let rotate_no_dek = vault.rotate_scope_dek(&keys, None, Some("prod"), None, Some("tag_pass"));
    assert!(rotate_no_dek.is_err());
    assert!(msg(rotate_no_dek.err().unwrap()).contains("Password required for protected tag"));
    if check_missing_password {
        let rotate_no_pass =
            vault.rotate_scope_dek(&keys, None, Some("prod"), Some(&tag_key), None);
        assert!(msg(rotate_no_pass.err().unwrap()).contains("Tag password required"));
    }
    vault
        .rotate_scope_dek(&keys, None, Some("prod"), Some(&tag_key), Some("tag_pass"))
        .unwrap();
    let new_tag_key = vault.unlock_tag(None, "prod", "tag_pass").unwrap();
    let retrieved = vault
        .get_entry(&keys.master_dek, None, Some("prod"), "DB_PASS", Some(&new_tag_key))
        .unwrap();
    assert_eq!(retrieved.as_str(), "prod-db-123");
}

#[test]
fn integration_test_test_rotate_protected_tag_dek_with_entries() {
    rotate_protected_tag_dek_with_entries(false);
}

#[test]
fn vault_integration_test_test_rotate_protected_tag_dek_with_entries() {
    rotate_protected_tag_dek_with_entries(true);
}

#[test]
fn test_protected_tag_blocks_unauthorized_group_deletion() {
    let (mut vault, keys) = local_vault("master_pass");
    vault
        .create_protected_tag(&keys.signing_key, None, "prod", "tag_pass")
        .unwrap();
    let tag_key = vault.unlock_tag(None, "prod", "tag_pass").unwrap();
    let delete_group_err = vault.remove_entry(&keys.signing_key, None, None, None, None);
    assert!(delete_group_err.is_err());
    assert!(msg(delete_group_err.err().unwrap()).contains("contains protected tags"));
    let delete_group_ok = vault.remove_entry(&keys.signing_key, None, None, None, Some(&tag_key));
    assert!(delete_group_ok.is_ok());
    assert!(!vault.entries.contains_key("project"));
}

#[test]
fn test_partial_tag_inheritance_resolution() {
    let (mut vault, keys) = local_vault("master_pass");
    vault
        .set_entry(&keys, None, None, "COMMON_URL", "https://api.domain.com", None)
        .unwrap();
    vault.set_entry(&keys, None, None, "TIMEOUT_SEC", "30", None).unwrap();
    vault
        .set_entry(&keys, None, Some("staging"), "TIMEOUT_SEC", "120", None)
        .unwrap();
    let inherited = vault
        .get_entry(&keys.master_dek, None, Some("staging"), "COMMON_URL", None)
        .unwrap();
    assert_eq!(inherited.as_str(), "https://api.domain.com");
    let overridden = vault
        .get_entry(&keys.master_dek, None, Some("staging"), "TIMEOUT_SEC", None)
        .unwrap();
    assert_eq!(overridden.as_str(), "120");
    let non_existent = vault.get_entry(&keys.master_dek, None, Some("staging"), "NOT_FOUND", None);
    assert!(non_existent.is_err());
}

#[test]
fn test_crypto_primitives_roundtrip_and_domain_separation() {
    let key = crypto::generate_dek();
    let plaintext = b"secret-cryptographic-payload";
    let (nonce, ciphertext) = crypto::encrypt(&key, plaintext).unwrap();
    let decrypted = crypto::decrypt(&key, &nonce, &ciphertext).unwrap();
    assert_eq!(decrypted, plaintext);
    let mut corrupted_ct = ciphertext.clone();
    corrupted_ct[0] ^= 0x01;
    assert!(crypto::decrypt(&key, &nonce, &corrupted_ct).is_err());
    let scope_dek_a = crypto::derive_scope_dek(&key, "proj", "base");
    let scope_dek_b = crypto::derive_scope_dek(&key, "proj", "prod");
    assert_ne!(scope_dek_a, scope_dek_b);
    let var_key_1 = crypto::derive_entry_key(&scope_dek_a, "VAR_1");
    let var_key_2 = crypto::derive_entry_key(&scope_dek_a, "VAR_2");
    assert_ne!(var_key_1, var_key_2);
}

#[test]
fn test_vault_parse_scope_delimiters() {
    let (vault, _) = local_vault("master_pass");
    let valid_scope = vault.tag_scope(None, "staging").unwrap();
    let parsed = vault.parse_scope(&valid_scope);
    assert_eq!(parsed, Some(("project".to_string(), "staging".to_string())));
    assert_eq!(vault.parse_scope("invalid_prefix_format"), None);
    assert_eq!(
        vault.parse_scope(&format!("{}_group_999:bad", vault.master_scope())),
        None
    );
}

#[test]
fn test_global_vault_link_and_upward_resolution() {
    let (mut vault, keys) = global_vault(
        "master_pass",
        vec!["/tmp/t".to_string(), "/tmp".to_string(), "/".to_string()],
    );
    vault.link_group(&keys.signing_key, "microservice").unwrap();
    vault.workdir = vec![
        "/tmp/t/sub/nested".to_string(),
        "/tmp/t/sub".to_string(),
        "/tmp/t".to_string(),
        "/tmp".to_string(),
        "/".to_string(),
    ];
    let resolved = vault.resolve_group_name(None).unwrap();
    assert_eq!(resolved, "microservice");
}

#[test]
fn test_valid_env_key_syntax_validation() {
    assert!(is_valid_env_key("API_KEY"));
    assert!(is_valid_env_key("_SECRET"));
    assert!(is_valid_env_key("PORT_8080"));
    assert!(is_valid_env_key("v"));
    assert!(!is_valid_env_key("8080_PORT"));
    assert!(!is_valid_env_key("API-KEY"));
    assert!(!is_valid_env_key("ENV.KEY"));
    assert!(!is_valid_env_key("API KEY"));
    assert!(!is_valid_env_key(""));
}

// Further scenarios.

#[test]
fn read_back_after_set_in_unprotected_tag() {
    let (mut vault, keys) = local_vault("pw_one");
    vault
        .set_entry(&keys, None, Some("dev"), "LOG_LEVEL", "debug", None)
        .unwrap();
    assert!(!vault.is_tag_protected(None, Some("dev")).unwrap());
    assert_eq!(
        vault
            .get_entry(&keys.master_dek, None, Some("dev"), "LOG_LEVEL", None)
            .unwrap(),
        "debug"
    );
    assert!(vault.verify_integrity().is_ok());
}

#[test]
fn refused_set_leaves_vault_unchanged() {
    let (mut vault, keys) = local_vault("pw_two");
    vault
        .create_protected_tag(&keys.signing_key, None, "prod", "tp")
        .unwrap();
    let before = vault.signature.clone();
    let err = vault
        .set_entry(&keys, None, Some("prod"), "K", "v", None)
        .err()
        .unwrap();
    assert!(matches!(err, VaultError::TagProtected(_)));
    assert_eq!(vault.signature, before);
    let other = vault
        .set_entry(&keys, Some("elsewhere"), None, "K", "v", None)
        .err()
        .unwrap();
    assert!(matches!(other, VaultError::LocalGroupOnly));
}

#[test]
fn removal_errors_name_what_is_missing() {
    let (mut vault, keys) = local_vault("pw_three");
    let e = vault
        .remove_entry(&keys.signing_key, None, None, Some("NOPE"), None)
        .err()
        .unwrap();
    assert_eq!(msg(e), "No entry 'NOPE' in group 'project'");
    let e = vault
        .remove_entry(&keys.signing_key, None, Some("ghost"), None, None)
        .err()
        .unwrap();
    assert_eq!(msg(e), "No tag named 'ghost' in group 'project'");
    vault.set_entry(&keys, None, Some("qa"), "A", "1", None).unwrap();
    let e = vault
        .remove_entry(&keys.signing_key, None, Some("qa"), Some("B"), None)
        .err()
        .unwrap();
    assert_eq!(msg(e), "No entry 'B' in tag 'qa' in group 'project'");
    vault
        .remove_entry(&keys.signing_key, None, Some("qa"), None, None)
        .unwrap();
    assert!(vault.list_all_keys(None, Some("qa")).unwrap().is_empty());
}

#[test]
fn group_resolution_follows_links_upwards() {
    let (mut vault, keys) = global_vault(
        "pw_four",
        vec!["/srv/api".to_string(), "/srv".to_string(), "/".to_string()],
    );
    assert!(matches!(
        vault.resolve_group_name(None).err().unwrap(),
        VaultError::NoLinkedGroup
    ));
    vault.link_group(&keys.signing_key, "api").unwrap();
    assert_eq!(vault.resolve_group_name(None).unwrap(), "api");
    assert_eq!(vault.resolve_group_name(Some("other")).unwrap(), "other");
    vault.workdir = vec![];
    assert!(matches!(
        vault.resolve_group_name(None).err().unwrap(),
        VaultError::NoWorkingDirectory
    ));
}

#[test]
fn master_rotation_keeps_unprotected_tags_readable() {
    let (mut vault, keys) = local_vault("pw_five");
    vault.set_entry(&keys, None, Some("dev"), "X", "tag-value", None).unwrap();
    vault.set_entry(&keys, None, None, "Y", "base-value", None).unwrap();
    vault.rotate_scope_dek(&keys, None, None, None, None).unwrap();
    let fresh: VaultKeys = vault.unlock("pw_five").unwrap();
    assert_ne!(fresh.master_dek, keys.master_dek);
    assert_eq!(
        vault.get_entry(&fresh.master_dek, None, Some("dev"), "X", None).unwrap(),
        "tag-value"
    );
    assert_eq!(
        vault.get_entry(&fresh.master_dek, None, None, "Y", None).unwrap(),
        "base-value"
    );
    assert!(vault.get_entry(&keys.master_dek, None, None, "Y", None).is_err());
}

#[test]
fn rotating_an_unprotected_tag_is_refused() {
    let (mut vault, keys) = local_vault("pw_six");
    vault.set_entry(&keys, None, Some("dev"), "X", "1", None).unwrap();
    let e = vault
        .rotate_scope_dek(&keys, None, Some("dev"), None, Some("p"))
        .err()
        .unwrap();
    assert_eq!(msg(e), "Cannot independently rotate an unprotected tag");
    let e = vault
        .rotate_scope_dek(&keys, None, Some("nope"), None, Some("p"))
        .err()
        .unwrap();
    assert_eq!(msg(e), "Tag not found");
}

#[test]
fn scope_strings_name_the_group_and_tag() {
    let (vault, _) = local_vault("pw_seven");
    let master = vault.master_scope();
    assert!(master.starts_with("master_"));
    assert_eq!(master.len(), "master_".len() + 64);
    let scope = vault.tag_scope(None, "dev").unwrap();
    assert_eq!(scope, format!("{master}_group_project_tag_dev"));
    assert_eq!(BASE_TAG, "base");
}

#[test]
fn store_keeps_keys_in_order() {
    let mut m: StrMap<u32> = StrMap::new();
    m.insert("b".to_string(), 2);
    m.insert("a".to_string(), 1);
    m.insert("c".to_string(), 3);
    m.insert("b".to_string(), 20);
    assert_eq!(m.keys(), vec!["a".to_string(), "b".to_string(), "c".to_string()]);
    assert_eq!(m.get("b"), Some(&20));
    assert_eq!(m.remove("a"), Some(1));
    assert_eq!(m.len(), 2);
    assert!(!m.contains_key("a"));
}

#[test]
fn test_master_and_tag_scope_generation() {
    let (vault, _) = local_vault("master_pass");
    let scope = vault.master_scope();
    assert!(scope.starts_with("master_"));
    let tag_scope = vault.tag_scope(None, "dev").unwrap();
    assert!(tag_scope.contains("group_project_tag_dev"));
}

#[test]
fn test_change_password_leaves_no_active_session() {
    let now: u64 = 1_700_000_000;
    let mut sessions = SessionManager::new();
    let (mut vault, keys) = local_vault("initial");
    let old_scope = vault.master_scope();
    sessions.cache_keys(
        &old_scope,
        CachedKeys::Master { kek: keys.master_kek, seed: keys.signing_key.seed },
        now,
        false,
    );
    vault.change_master_password(&keys, "updated_pass").unwrap();
    sessions.clear_session(&old_scope);
    sessions.clear_session(&vault.master_scope());
    let (found, _) = sessions.get_active_keys(&vault.master_scope(), now, None);
    assert!(found.is_none());
}

#[test]
fn scope_of_a_tag_reads_back_its_group_and_tag() {
    let (vault, _) = local_vault("master_pass");
    let scope = vault.tag_scope(None, "my_tag").unwrap();
    assert_eq!(scope, format!("{}_group_project_tag_my_tag", vault.master_scope()));
    assert_eq!(vault.parse_scope(&scope), Some(("project".to_string(), "my_tag".to_string())));
}

#[test]
fn linked_directories_are_signed_in_path_order() {
    let (mut vault, keys) = global_vault("master_pass", vec!["/p/app-v2".to_string()]);
    vault.link_group(&keys.signing_key, "v2").unwrap();
    vault.workdir = vec!["/p/app/sub".to_string()];
    vault.link_group(&keys.signing_key, "sub").unwrap();
    let text = vault.signable_text();
    let sub = text.find("\"/p/app/sub\"").unwrap();
    let v2 = text.find("\"/p/app-v2\"").unwrap();
    assert!(sub < v2);
    assert!(vault.verify_integrity().is_ok());
}
