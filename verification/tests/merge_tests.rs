use envseal::merge::MergeStrategy;
use envseal::merging::{merge_vaults, same_entries, MergeError};
use envseal::vault::{Vault, VaultKeys};

fn fixture_with(password: &str, pairs: &[(&str, &str)]) -> (Vault, VaultKeys) {
    let (mut v, keys) = Vault::init(password, true, "/work/app/.envseal".to_string(), vec![]).unwrap();
    for (k, val) in pairs {
        v.set_entry(&keys, None, None, k, val, None).unwrap();
    }
    (v, keys)
}

fn fixture(pairs: &[(&str, &str)]) -> (Vault, VaultKeys) {
    fixture_with("pass", pairs)
}

fn read(v: &Vault, keys: &VaultKeys, name: &str) -> Option<String> {
    v.get_entry(&keys.master_dek, None, None, name, None).ok()
}

#[test]
fn test_cli_three_way_merge_disjoint_fast_forward() {
    let (base, keys) = fixture_with("shared_pass", &[("COMMON", "initial")]);
    let mut ours = base.clone();
    ours.set_entry(&keys, None, None, "FEATURE_A", "enabled", None).unwrap();
    let mut theirs = base.clone();
    theirs.set_entry(&keys, None, None, "FEATURE_B", "installed", None).unwrap();
    let merged = merge_vaults(&base, &keys.master_dek, ours, &keys, theirs, &keys.master_dek, MergeStrategy::Fail)
        .ok()
        .unwrap();
    assert_eq!(read(&merged, &keys, "COMMON").as_deref(), Some("initial"));
    assert_eq!(read(&merged, &keys, "FEATURE_A").as_deref(), Some("enabled"));
    assert_eq!(read(&merged, &keys, "FEATURE_B").as_deref(), Some("installed"));
    assert!(merged.verify_integrity().is_ok());
}

#[test]
fn test_cli_three_way_merge_conflict_strategy_resolution() {
    let (base, keys) = fixture(&[("TIMEOUT", "30")]);
    let mut ours = base.clone();
    ours.set_entry(&keys, None, None, "TIMEOUT", "60", None).unwrap();
    let mut theirs = base.clone();
    theirs.set_entry(&keys, None, None, "TIMEOUT", "120", None).unwrap();

    let failed = merge_vaults(
        &base,
        &keys.master_dek,
        ours.clone(),
        &keys,
        theirs.clone(),
        &keys.master_dek,
        MergeStrategy::Fail,
    );
    match failed {
        Err(MergeError::Conflicts(c)) => {
            assert_eq!(c.len(), 1);
            assert_eq!(
                c[0],
                "Key 'TIMEOUT' in group 'project' [tag: 'base'] (conflicting modifications)"
            );
        }
        _ => panic!("expected a conflict"),
    }

    let resolved = merge_vaults(
        &base,
        &keys.master_dek,
        ours.clone(),
        &keys,
        theirs.clone(),
        &keys.master_dek,
        MergeStrategy::Theirs,
    )
    .ok()
    .unwrap();
    assert_eq!(read(&resolved, &keys, "TIMEOUT").as_deref(), Some("120"));

    let kept = merge_vaults(&base, &keys.master_dek, ours, &keys, theirs, &keys.master_dek, MergeStrategy::Ours)
        .ok()
        .unwrap();
    assert_eq!(read(&kept, &keys, "TIMEOUT").as_deref(), Some("60"));
}

#[test]
fn three_way_merge_deletion_on_one_side_wins_over_no_change() {
    let (base, keys) = fixture(&[("KEEP", "1"), ("DROP", "2")]);
    let ours = base.clone();
    let mut theirs = base.clone();
    theirs.remove_entry(&keys.signing_key, None, None, Some("DROP"), None).unwrap();
    let merged = merge_vaults(&base, &keys.master_dek, ours, &keys, theirs, &keys.master_dek, MergeStrategy::Fail)
        .ok()
        .unwrap();
    assert_eq!(read(&merged, &keys, "KEEP").as_deref(), Some("1"));
    assert_eq!(read(&merged, &keys, "DROP"), None);
}

#[test]
fn three_way_merge_drops_groups_left_empty() {
    let (base, keys) = fixture(&[("ONLY", "x")]);
    let ours = base.clone();
    let mut theirs = base.clone();
    theirs.remove_entry(&keys.signing_key, None, None, Some("ONLY"), None).unwrap();
    let merged = merge_vaults(&base, &keys.master_dek, ours, &keys, theirs, &keys.master_dek, MergeStrategy::Fail)
        .ok()
        .unwrap();
    assert!(!merged.entries.contains_key("project"));
}

#[test]
fn same_entries_compares_group_contents() {
    let (base, keys) = fixture(&[("A", "1")]);
    let copy = base.clone();
    assert!(same_entries(&base, &copy));
    let mut changed = base.clone();
    changed.set_entry(&keys, None, None, "B", "2", None).unwrap();
    assert!(!same_entries(&base, &changed));
}

#[test]
fn test_cli_remove_variable_flow() {
    let (mut v, keys) = fixture_with("master_pass", &[("LIVE_API", "api_secret_val_999")]);
    assert_eq!(read(&v, &keys, "LIVE_API").as_deref(), Some("api_secret_val_999"));
    v.remove_entry(&keys.signing_key, None, None, Some("LIVE_API"), None).unwrap();
    assert!(v.get_entry(&keys.master_dek, None, None, "LIVE_API", None).is_err());
}
