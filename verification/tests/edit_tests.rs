use envseal::edit::{apply_edit, edit_listing, edit_template, edited_map};
use envseal::env_file::{parse_edit_lines, parse_env_lines};
use envseal::error::VaultError;
use envseal::vault::Vault;

#[test]
fn edit_template_lists_values_as_a_shell_reads_them() {
    let pairs = vec![
        ("A".to_string(), "plain".to_string()),
        ("B".to_string(), "has space".to_string()),
    ];
    let text = edit_template("project", "base", &pairs);
    assert_eq!(
        text,
        "# envseal edit: group='project', tag='base'\nA=plain\nB='has space'\n"
    );
}

#[test]
fn edited_map_keeps_the_last_value_of_a_name() {
    let (pairs, _) = parse_env_lines("A=1\nB=2\nA=3\n");
    let m = edited_map(&pairs);
    assert_eq!(m.len(), 2);
    assert_eq!(m.get("A").map(|s| s.as_str()), Some("3"));
    assert_eq!(m.get("B").map(|s| s.as_str()), Some("2"));
}

#[test]
fn apply_edit_removes_dropped_names_and_stores_the_rest() {
    let (mut v, keys) = Vault::init("pw", true, "/work/app/.envseal".to_string(), vec![]).unwrap();
    v.set_entry(&keys, None, None, "KEEP", "old", None).unwrap();
    v.set_entry(&keys, None, None, "DROP", "gone", None).unwrap();
    let (names, listed) = edit_listing(&v, &keys.master_dek, "project", None);
    assert_eq!(names, vec!["DROP".to_string(), "KEEP".to_string()]);
    assert_eq!(listed.len(), 2);
    let (pairs, _) = parse_env_lines("KEEP=new\nADDED=yes\n");
    let edited = edited_map(&pairs);
    apply_edit(&mut v, &keys, "project", None, &names, &edited).unwrap();
    let get = |n: &str| v.get_entry(&keys.master_dek, None, None, n, None).ok();
    assert_eq!(get("KEEP").as_deref(), Some("new"));
    assert_eq!(get("ADDED").as_deref(), Some("yes"));
    assert_eq!(get("DROP"), None);
    assert!(v.verify_integrity().is_ok());
}

#[test]
fn apply_edit_creates_a_missing_group() {
    let (mut v, keys) = Vault::init(
        "pw",
        false,
        "/home/u/.config/envseal/seal-encrypted.toml".to_string(),
        vec!["/home/u/app".to_string()],
    )
    .unwrap();
    let (names, listed) = edit_listing(&v, &keys.master_dek, "newgrp", None);
    assert!(names.is_empty() && listed.is_empty());
    let (pairs, _) = parse_env_lines("TOKEN=abc\n");
    let edited = edited_map(&pairs);
    apply_edit(&mut v, &keys, "newgrp", None, &names, &edited).unwrap();
    let got = v.get_entry(&keys.master_dek, Some("newgrp"), None, "TOKEN", None).ok();
    assert_eq!(got.as_deref(), Some("abc"));
    assert!(v.verify_integrity().is_ok());
}

#[test]
fn edit_text_reads_back_the_values_it_was_written_from() {
    let pairs = vec![
        ("PLAIN".to_string(), "value".to_string()),
        ("SPACED".to_string(), "two words".to_string()),
        ("QUOTED".to_string(), "it's \"here\"".to_string()),
        ("EDGE".to_string(), "'".to_string()),
        ("EMPTY".to_string(), String::new()),
    ];
    let text = edit_template("project", "base", &pairs);
    let (back, rejected) = parse_edit_lines(&text);
    assert!(rejected.is_empty());
    assert_eq!(back, pairs);
}

#[test]
fn edit_lines_keep_hand_written_quotes_stripped() {
    let (back, _) = parse_edit_lines("A=\"typed\"\nB='x'\\''y'\n");
    assert_eq!(back[0], ("A".to_string(), "typed".to_string()));
    assert_eq!(back[1], ("B".to_string(), "x'y".to_string()));
}

#[test]
fn apply_edit_reports_the_first_refusal() {
    let (mut v, keys) = Vault::init("pw", true, "/work/app/.envseal".to_string(), vec![]).unwrap();
    v.set_entry(&keys, None, None, "KEEP", "old", None).unwrap();
    let names = vec!["MISSING".to_string(), "KEEP".to_string()];
    let (pairs, _) = parse_env_lines("KEEP=new\n");
    let edited = edited_map(&pairs);
    let r = apply_edit(&mut v, &keys, "project", None, &names, &edited);
    assert!(matches!(r, Err(VaultError::NoEntryInGroup(_, _))));
    let get = |n: &str| v.get_entry(&keys.master_dek, None, None, n, None).ok();
    assert_eq!(get("KEEP").as_deref(), Some("old"));
}
