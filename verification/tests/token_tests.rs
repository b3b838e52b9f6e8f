use envseal::crypto;
use envseal::error::VaultError;
use envseal::session::{CachedKeys, SessionManager};
use envseal::strmap::StrMap;
use envseal::token::{TokenKeyMaterial, TokenManager, TokenPayload};
use envseal::vault::{Vault, VaultKeys, BASE_TAG};
use std::time::{SystemTime, UNIX_EPOCH};

fn now() -> u64 {
    SystemTime::now().duration_since(UNIX_EPOCH).unwrap().as_secs()
}

fn local_vault(password: &str) -> (Vault, VaultKeys) {
    Vault::init(password, true, "/work/app/.envseal".to_string(), vec![]).unwrap()
}

/// Reads a payload's JSON into a payload.
fn payload_from_json(bytes: &[u8]) -> TokenPayload {
    let v: serde_json::Value = serde_json::from_slice(bytes).unwrap();
    let mut keys: StrMap<Vec<u8>> = StrMap::new();
    for (name, arr) in v["key_material"]["GranularKeys"].as_object().unwrap() {
        let bytes: Vec<u8> = arr
            .as_array()
            .unwrap()
            .iter()
            .map(|n| n.as_u64().unwrap() as u8)
            .collect();
        keys.insert(name.clone(), bytes);
    }
    TokenPayload {
        scope: v["scope"].as_str().unwrap().to_string(),
        key_material: TokenKeyMaterial::GranularKeys(keys),
        sub: v["sub"].as_str().unwrap().to_string(),
        iat: v["iat"].as_u64().unwrap(),
        exp: v["exp"].as_u64(),
        description: v["description"].as_str().map(|s| s.to_string()),
    }
}

fn open(token: &str, vault: &Vault, at: u64) -> Result<TokenPayload, VaultError> {
    let json = TokenManager::verify_and_extract(token, &vault.public_key)?;
    let payload = payload_from_json(&json);
    payload.check_expiry(at)?;
    Ok(payload)
}

fn grant(master_dek: &[u8; 32], name: &str) -> StrMap<Vec<u8>> {
    let base_scope_dek = crypto::derive_scope_dek(master_dek, "project", BASE_TAG);
    let entry_key = crypto::derive_entry_key(&base_scope_dek, name);
    let mut token_keys = StrMap::new();
    token_keys.insert(name.to_string(), entry_key.to_vec());
    token_keys
}

#[test]
fn test_zero_trust_token_generation_and_granular_access() {
    let (mut vault, keys) = local_vault("master_pass");
    vault.set_entry(&keys, None, None, "GRANTED_KEY", "access-granted", None).unwrap();
    vault.set_entry(&keys, None, None, "DENIED_KEY", "access-denied", None).unwrap();
    let token_keys = grant(&keys.master_dek, "GRANTED_KEY");
    let scope_str = vault.tag_scope(None, BASE_TAG).unwrap();
    let token_string = TokenManager::create(
        &keys.signing_key,
        &scope_str,
        token_keys,
        "ci-agent",
        Some(3600),
        Some("Integration test execution"),
        now(),
    )
    .unwrap();
    let payload = open(&token_string, &vault, now()).unwrap();
    let decrypted = vault.decrypt_from_token(None, None, &payload).unwrap();
    assert_eq!(decrypted.len(), 1);
    assert_eq!(decrypted.get("GRANTED_KEY").unwrap().as_str(), "access-granted");
    assert!(!decrypted.contains_key("DENIED_KEY"));
}

#[test]
fn test_token_tampering_and_expiration_rejections() {
    let (vault, keys) = local_vault("master_pass");
    let scope_str = vault.tag_scope(None, BASE_TAG).unwrap();
    let issued = now();
    let expired_token = TokenManager::create(
        &keys.signing_key,
        &scope_str,
        grant(&keys.master_dek, "API"),
        "ci",
        Some(0),
        None,
        issued,
    )
    .unwrap();
    let Err(err) = open(&expired_token, &vault, issued + 1) else {
        panic!("Expected token verification to fail, but it succeeded");
    };
    assert!(err.message().contains("Token expired"));

    let valid_token = TokenManager::create(
        &keys.signing_key,
        &scope_str,
        grant(&keys.master_dek, "API"),
        "ci",
        Some(600),
        None,
        issued,
    )
    .unwrap();
    let mut tampered_token = valid_token.clone();
    tampered_token.push_str("tamper");
    assert!(TokenManager::verify_and_extract(&tampered_token, &vault.public_key).is_err());
}

#[test]
fn test_dek_rotation_invalidates_active_tokens() {
    let (mut vault, keys) = local_vault("master_pass");
    vault.set_entry(&keys, None, None, "ROTATE_KEY", "sensitive-val", None).unwrap();
    let scope_str = vault.tag_scope(None, BASE_TAG).unwrap();
    let token = TokenManager::create(
        &keys.signing_key,
        &scope_str,
        grant(&keys.master_dek, "ROTATE_KEY"),
        "agent",
        Some(3600),
        None,
        now(),
    )
    .unwrap();
    let payload = open(&token, &vault, now()).unwrap();
    assert!(vault.decrypt_from_token(None, None, &payload).is_ok());
    vault.rotate_scope_dek(&keys, None, None, None, None).unwrap();
    let attempt = vault.decrypt_from_token(None, None, &payload);
    assert!(attempt.is_err());
    assert!(attempt.err().unwrap().message().contains("revoked"));
}

#[test]
fn test_resolve_secrets_via_token_file() {
    let (mut vault, keys) = local_vault("master_pass");
    vault.set_entry(&keys, None, None, "CONFIG_ENV", "production", None).unwrap();
    let scope_str = vault.tag_scope(None, BASE_TAG).unwrap();
    let token_string = TokenManager::create(
        &keys.signing_key,
        &scope_str,
        grant(&keys.master_dek, "CONFIG_ENV"),
        "ci-pipeline",
        Some(600),
        None,
        now(),
    )
    .unwrap();
    let payload = open(&token_string, &vault, now()).unwrap();
    let resolved = vault.resolve_with_token(None, None, &payload).unwrap();
    assert_eq!(resolved.get("CONFIG_ENV").unwrap().as_str(), "production");
}

#[test]
fn test_token_scope_mismatch_rejection() {
    let (mut vault, keys) = local_vault("master_pass");
    vault.set_entry(&keys, None, None, "SECRET", "val", None).unwrap();
    let scope_str = vault.tag_scope(None, BASE_TAG).unwrap();
    let token_string = TokenManager::create(
        &keys.signing_key,
        &scope_str,
        grant(&keys.master_dek, "SECRET"),
        "ci-agent",
        Some(3600),
        None,
        now(),
    )
    .unwrap();
    let payload = open(&token_string, &vault, now()).unwrap();
    let resolve_err = vault.resolve_with_token(None, Some("staging"), &payload);
    assert!(resolve_err.is_err());
    assert!(resolve_err.err().unwrap().message().contains("Token scope mismatch"));
}

fn tagged_vault() -> (Vault, envseal::vault::VaultKeys, [u8; 32]) {
    let (mut vault, keys) = local_vault("master_pass");
    vault.set_entry(&keys, None, None, "SHARED_HOST", "base.internal", None).unwrap();
    vault.set_entry(&keys, None, None, "PORT", "3000", None).unwrap();
    vault.create_protected_tag(&keys.signing_key, None, "prod", "tag_pass").unwrap();
    let tag_key = vault.unlock_tag(None, "prod", "tag_pass").unwrap();
    vault.set_entry(&keys, None, Some("prod"), "PORT", "8080", Some(&tag_key)).unwrap();
    (vault, keys, tag_key)
}

#[test]
fn test_regression_resolve_secrets_infers_tag_and_overrides_without_cli_flag() {
    let (mut vault, keys, tag_key) = tagged_vault();
    vault
        .set_entry(&keys, None, Some("prod"), "PROD_SECRET", "super-secure-token", Some(&tag_key))
        .unwrap();
    let token_string = vault
        .create_token(
            &keys.signing_key,
            &keys.master_dek,
            None,
            Some("prod"),
            Some(&tag_key),
            "ci-worker",
            Some(1800),
            Some("Automated regression test token"),
            None,
            now(),
        )
        .unwrap();
    let payload = open(&token_string, &vault, now()).unwrap();
    let resolved = vault
        .resolve_with_token(None, None, &payload)
        .expect("resolve_secrets must infer tag from token payload when CLI tag is None");
    assert_eq!(resolved.get("SHARED_HOST").map(|s| s.as_str()), Some("base.internal"));
    assert_eq!(resolved.get("PORT").map(|s| s.as_str()), Some("8080"));
    assert_eq!(resolved.get("PROD_SECRET").map(|s| s.as_str()), Some("super-secure-token"));
    assert_eq!(resolved.len(), 3);
}

#[test]
fn test_token_always_includes_base_and_overrides_with_tag() {
    let (mut vault, keys) = local_vault("master_pass");
    vault.set_entry(&keys, None, None, "COMMON_URL", "https://api.test", None).unwrap();
    vault.set_entry(&keys, None, None, "PORT", "3000", None).unwrap();
    vault.create_protected_tag(&keys.signing_key, None, "prod", "tag_pass").unwrap();
    let tag_key = vault.unlock_tag(None, "prod", "tag_pass").unwrap();
    vault.set_entry(&keys, None, Some("prod"), "PORT", "8080", Some(&tag_key)).unwrap();
    vault.set_entry(&keys, None, Some("prod"), "PROD_ONLY", "active", Some(&tag_key)).unwrap();
    let token_string = vault
        .create_token(
            &keys.signing_key,
            &keys.master_dek,
            None,
            Some("prod"),
            Some(&tag_key),
            "ci-deployer",
            Some(3600),
            Some("Deploy pipeline token"),
            None,
            now(),
        )
        .unwrap();
    let payload = open(&token_string, &vault, now()).unwrap();
    let resolved = vault.resolve_with_token(None, None, &payload).unwrap();
    assert_eq!(resolved.get("COMMON_URL").unwrap().as_str(), "https://api.test");
    assert_eq!(resolved.get("PORT").unwrap().as_str(), "8080");
    assert_eq!(resolved.get("PROD_ONLY").unwrap().as_str(), "active");
}

#[test]
fn test_session_manager_lifecycle_and_clearing() {
    let test_scope = "test_memory_session_scope";
    let dummy_kek = [0x42u8; 32];
    let dummy_seed = [0x24u8; 32];
    let mut sessions = SessionManager::new();
    let t = now();
    sessions.cache_keys(test_scope, CachedKeys::Master { kek: dummy_kek, seed: dummy_seed }, t, false);
    let (active, _) = sessions.get_active_keys(test_scope, t, None);
    let active = active.expect("Session key should be present in cache");
    match active {
        CachedKeys::Master { kek, seed } => {
            assert_eq!(kek, dummy_kek);
            assert_eq!(seed, dummy_seed);
        }
        _ => panic!("Expected CachedKeys::Master"),
    }
    sessions.clear_session(test_scope);
    let (cleared, _) = sessions.get_active_keys(test_scope, t, None);
    assert!(cleared.is_none());
}

// Further scenarios.

#[test]
fn token_keys_respect_filter_and_tag_overrides() {
    let (vault, keys, tag_key) = tagged_vault();
    let all = vault
        .generate_token_keys(&keys.master_dek, None, Some("prod"), Some(&tag_key), None)
        .unwrap();
    assert_eq!(all.keys(), vec!["PORT".to_string(), "SHARED_HOST".to_string()]);
    let port_tag_key = crypto::derive_entry_key(&tag_key, "PORT");
    assert_eq!(all.get("PORT").unwrap(), &port_tag_key.to_vec());
    let filter = vec!["SHARED_HOST".to_string()];
    let some = vault
        .generate_token_keys(&keys.master_dek, None, Some("prod"), Some(&tag_key), Some(&filter))
        .unwrap();
    assert_eq!(some.keys(), vec!["SHARED_HOST".to_string()]);
    let missing = vault.generate_token_keys(&keys.master_dek, None, Some("prod"), None, None);
    assert!(matches!(missing.err().unwrap(), VaultError::TagKeyRequired(_)));
}

#[test]
fn token_from_another_vault_is_refused() {
    let (vault, _) = local_vault("master_pass");
    let (other, keys) = local_vault("other_pass");
    let token = TokenManager::create(&keys.signing_key, "scope", StrMap::new(), "x", None, None, 10).unwrap();
    assert!(token.starts_with("envseal_"));
    let e = TokenManager::verify_and_extract(&token, &vault.public_key).err().unwrap();
    assert_eq!(e.message(), "ACCESS DENIED: Token does not belong to this vault!");
    let e = TokenManager::verify_and_extract("envseal_nodots", &vault.public_key).err().unwrap();
    assert_eq!(e.message(), "Invalid token format!!");
    let json = TokenManager::verify_and_extract(&token, &other.public_key).unwrap();
    assert_eq!(
        String::from_utf8(json).unwrap(),
        "{\"scope\":\"scope\",\"key_material\":{\"GranularKeys\":{}},\"sub\":\"x\",\"iat\":10,\"exp\":null,\"description\":null}"
    );
}

#[test]
fn payload_json_matches_serde_layout() {
    let mut keys = StrMap::new();
    keys.insert("B".to_string(), vec![1u8, 255]);
    keys.insert("A".to_string(), vec![]);
    let p = TokenPayload {
        scope: "s\"q".to_string(),
        key_material: TokenKeyMaterial::GranularKeys(keys),
        sub: "me".to_string(),
        iat: 5,
        exp: Some(65),
        description: Some("d\n".to_string()),
    };
    assert_eq!(
        p.to_json(),
        "{\"scope\":\"s\\\"q\",\"key_material\":{\"GranularKeys\":{\"A\":[],\"B\":[1,255]}},\"sub\":\"me\",\"iat\":5,\"exp\":65,\"description\":\"d\\n\"}"
    );
    assert!(p.check_expiry(65).is_ok());
    assert!(p.check_expiry(66).is_err());
}

#[test]
fn session_expiry_after_ten_minutes() {
    let mut sessions = SessionManager::new();
    let e = sessions.cache_keys("s", CachedKeys::Tag { dek: [7u8; 32] }, 1000, false);
    assert_eq!(e, 1600);
    assert!(sessions.get_active_keys("s", 1600, None).0.is_some());
    assert!(sessions.get_active_keys("s", 1601, None).0.is_none());
    assert!(sessions.get_active_keys("s", 1000, None).0.is_none());
    let (k, delete) = sessions.get_active_keys("s", 2000, Some((CachedKeys::Tag { dek: [1u8; 32] }, 1999)));
    assert!(k.is_none() && delete);
    let (k, delete) = sessions.get_active_keys("s", 2000, Some((CachedKeys::Tag { dek: [1u8; 32] }, 2000)));
    assert!(k.is_some() && !delete);
}

#[test]
fn token_read_refuses_a_key_of_the_wrong_length() {
    let (mut vault, keys) = local_vault("master_pass");
    vault.set_entry(&keys, None, None, "API", "v", None).unwrap();
    let mut short: StrMap<Vec<u8>> = StrMap::new();
    short.insert("API".to_string(), vec![1, 2, 3]);
    let payload = TokenPayload {
        scope: vault.tag_scope(None, BASE_TAG).unwrap(),
        key_material: TokenKeyMaterial::GranularKeys(short),
        sub: "ci".to_string(),
        iat: now(),
        exp: None,
        description: None,
    };
    let r = vault.decrypt_from_token(None, None, &payload);
    assert!(matches!(r, Err(VaultError::TokenKeyLength)));
}
