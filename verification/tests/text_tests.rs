use envseal::path_order::{path_key_of, path_less};
use envseal::env_file::{format_env_value, parse_env_lines};
use envseal::gitconf::{attributes_addition, gitignore_addition, hook_update, HookWrite, PRE_COMMIT_HOOK};
use envseal::locate::{find_local_seal, resolve_path, vault_file_name, DirProbe, VaultLocation};
use envseal::merge::{
    decide_group, merge_shortcut, parse_strategy_string, resolve_strategy, resolve_value, GroupAction,
    MergeShortcut, MergeStrategy, Resolution,
};
use envseal::recipients::{clean_recipient, extract_valid_keys};
use envseal::shell::{dotenv_lines, shell_export_line, shell_lines, ShellType};
use envseal::strmap::StrMap;
use envseal::vault::Vault;

#[test]
fn test_cli_git_setup_initializes_repo_and_attributes() {
    let attrs = attributes_addition("").unwrap();
    assert!(attrs.contains("*.envseal merge=envseal"));
    let ignore = gitignore_addition("").unwrap();
    assert!(ignore.contains(".envseal*.lock"));
}

#[test]
fn git_rules_are_added_once() {
    assert_eq!(attributes_addition("*.txt text").unwrap(), "\n*.envseal merge=envseal\n");
    assert_eq!(attributes_addition("a\n").unwrap(), "*.envseal merge=envseal\n");
    assert!(attributes_addition("  *.envseal merge=envseal\n").is_none());
    assert!(attributes_addition("*.envseal -diff\n").is_some());
    assert!(gitignore_addition("target\n  .envseal*.lock  \n").is_none());
    assert_eq!(gitignore_addition("target").unwrap(), "\n.envseal*.lock\n");
    match hook_update("") {
        Some(HookWrite::Create(t)) => assert_eq!(t, PRE_COMMIT_HOOK),
        _ => panic!("expected the hook to be created"),
    }
    match hook_update("#!/bin/sh\necho hi\n") {
        Some(HookWrite::Append(t)) => {
            assert!(t.starts_with("\n    # envseal pre-commit hook"));
            assert!(!t.contains("#!/bin/sh"));
        }
        _ => panic!("expected the hook to be appended"),
    }
    assert!(hook_update(PRE_COMMIT_HOOK).is_none());
}

#[test]
fn env_values_are_quoted_only_when_needed() {
    assert_eq!(format_env_value("plain"), "plain");
    assert_eq!(format_env_value("two words"), "'two words'");
    assert_eq!(format_env_value("it's"), "'it'\\''s'");
    assert_eq!(format_env_value(""), "");
}

#[test]
fn dotenv_lines_are_read() {
    let (pairs, rejected) = parse_env_lines(
        "# comment\nexport A=1\n B = \"two\" \nINVALID-KEY=x\nnoequals\n\r\nC='q'\r\nD=a=b",
    );
    let expected: Vec<(String, String)> = vec![
        ("A".into(), "1".into()),
        ("B".into(), "two".into()),
        ("C".into(), "q".into()),
        ("D".into(), "a=b".into()),
    ];
    assert_eq!(pairs, expected);
    assert_eq!(rejected, vec!["INVALID-KEY".to_string()]);
}

#[test]
fn shells_are_recognised_by_name() {
    assert_eq!(ShellType::from_name("/usr/bin/fish"), ShellType::Fish);
    assert_eq!(ShellType::from_name("PWSH"), ShellType::PowerShell);
    assert_eq!(ShellType::from_name("C:\\Windows\\System32\\CMD.EXE"), ShellType::Cmd);
    assert_eq!(ShellType::from_name("/bin/bash"), ShellType::Posix);
    assert_eq!(ShellType::from_name("posix"), ShellType::Posix);
}

#[test]
fn exports_are_written_per_shell() {
    assert_eq!(shell_export_line(ShellType::Posix, "K", "it's"), "export K='it'\\''s'");
    assert_eq!(shell_export_line(ShellType::Fish, "K", "a\\b'c"), "set -gx K 'a\\\\b\\'c'");
    assert_eq!(shell_export_line(ShellType::PowerShell, "K", "it's"), "$env:K='it''s'");
    assert_eq!(shell_export_line(ShellType::Cmd, "K", "v w"), "set K=v w");
    let mut envs: StrMap<String> = StrMap::new();
    envs.insert("STRIPE_KEY".to_string(), "sk_test_12345".to_string());
    envs.insert("A".to_string(), "x y".to_string());
    assert_eq!(
        shell_lines(ShellType::Posix, &envs, &[]),
        vec!["export A='x y'".to_string(), "export STRIPE_KEY='sk_test_12345'".to_string()]
    );
    assert_eq!(
        shell_lines(ShellType::Posix, &envs, &["STRIPE_KEY".to_string()]),
        vec!["export STRIPE_KEY='sk_test_12345'".to_string()]
    );
    assert_eq!(dotenv_lines(&envs, &[]), "A='x y'\nSTRIPE_KEY=sk_test_12345\n");
    assert_eq!(dotenv_lines(&envs, &["NOPE".to_string()]), "");
}

#[test]
fn merge_strategy_is_parsed_and_resolved() {
    assert_eq!(parse_strategy_string("  Theirs\n"), Some(MergeStrategy::Theirs));
    assert_eq!(parse_strategy_string("OURS"), Some(MergeStrategy::Ours));
    assert_eq!(parse_strategy_string("fail"), Some(MergeStrategy::Fail));
    assert_eq!(parse_strategy_string("maybe"), None);
    assert_eq!(resolve_strategy(MergeStrategy::Ours, Some("theirs")), MergeStrategy::Ours);
    assert_eq!(resolve_strategy(MergeStrategy::Fail, Some("theirs\n")), MergeStrategy::Theirs);
    assert_eq!(resolve_strategy(MergeStrategy::Fail, Some("bogus")), MergeStrategy::Fail);
    assert_eq!(resolve_strategy(MergeStrategy::Fail, None), MergeStrategy::Fail);
}

fn value(r: Resolution) -> Option<Option<String>> {
    match r {
        Resolution::Value(v) => Some(v),
        Resolution::Conflict => None,
    }
}

#[test]
fn secrets_merge_three_ways() {
    let s = MergeStrategy::Fail;
    assert_eq!(value(resolve_value(Some("1"), Some("1"), Some("2"), s)), Some(Some("2".into())));
    assert_eq!(value(resolve_value(Some("1"), Some("3"), Some("1"), s)), Some(Some("3".into())));
    assert_eq!(value(resolve_value(Some("1"), Some("1"), None, s)), Some(None));
    assert_eq!(value(resolve_value(None, Some("4"), Some("4"), s)), Some(Some("4".into())));
    assert_eq!(value(resolve_value(Some("1"), Some("2"), Some("3"), s)), None);
    assert_eq!(
        value(resolve_value(Some("1"), Some("2"), Some("3"), MergeStrategy::Theirs)),
        Some(Some("3".into()))
    );
    assert_eq!(
        value(resolve_value(Some("1"), Some("2"), None, MergeStrategy::Ours)),
        Some(Some("2".into()))
    );
    assert_eq!(value(resolve_value(Some("1"), None, None, s)), Some(None));
}

#[test]
fn groups_merge_by_presence() {
    let f = MergeStrategy::Fail;
    assert_eq!(decide_group(true, true, false, true, false, f), GroupAction::Remove);
    assert_eq!(decide_group(true, true, false, false, false, f), GroupAction::ConflictDeletedIncoming);
    assert_eq!(decide_group(true, true, false, false, false, MergeStrategy::Ours), GroupAction::Keep);
    assert_eq!(decide_group(true, false, true, false, true, f), GroupAction::Keep);
    assert_eq!(decide_group(true, false, true, false, false, MergeStrategy::Theirs), GroupAction::TakeTheirs);
    assert_eq!(decide_group(true, false, true, false, false, f), GroupAction::ConflictDeletedLocal);
    assert_eq!(decide_group(true, false, false, false, false, f), GroupAction::Keep);
    assert_eq!(decide_group(false, true, true, false, false, f), GroupAction::MergeSecrets);
    assert_eq!(merge_shortcut(b"a", b"b", b"b"), MergeShortcut::Identical);
    assert_eq!(merge_shortcut(b"a", b"b", b"a"), MergeShortcut::TheirsUnchanged);
    assert_eq!(merge_shortcut(b"a", b"a", b"c"), MergeShortcut::FastForward);
    assert_eq!(merge_shortcut(b"a", b"b", b"c"), MergeShortcut::ThreeWay);
}

#[test]
fn recipient_lines_are_filtered() {
    let raw = "# keys\n\nage1ql3z7hjy54pw3hyww5ayyfg7zqgvc7w3j2elw8zmrj2kg5sfn9aqmcac8p\nnot a key\n  ssh-ed25519 AAAAC3NzaC1lZDI1NTE5AAAAIOMqqnkVzrm0SdG6UOoqKLsabgH5C9okWi0dh2l9GKJl  \n";
    let keys = extract_valid_keys(raw);
    assert_eq!(keys.len(), 2);
    assert!(keys[0].starts_with("age1"));
    assert!(keys[1].starts_with("ssh-ed25519 "));
    assert_eq!(clean_recipient("  age1abc # laptop "), "age1abc");
    assert_eq!(clean_recipient("age1abc"), "age1abc");
}

#[test]
fn vault_files_are_located() {
    assert_eq!(vault_file_name(None), ".envseal");
    assert_eq!(vault_file_name(Some("prod")), ".prod.envseal");
    let probes = [
        DirProbe { has_vault: false, is_repo_root: false },
        DirProbe { has_vault: false, is_repo_root: true },
        DirProbe { has_vault: true, is_repo_root: false },
    ];
    assert_eq!(find_local_seal(&probes), None);
    let probes2 = [
        DirProbe { has_vault: false, is_repo_root: false },
        DirProbe { has_vault: true, is_repo_root: true },
    ];
    assert_eq!(find_local_seal(&probes2), Some(1));
    assert_eq!(resolve_path(false, false, false, &probes2), VaultLocation::Found(1));
    assert_eq!(resolve_path(false, false, true, &probes2), VaultLocation::Global);
    assert_eq!(resolve_path(false, true, false, &probes2), VaultLocation::WorkingDirectory);
    assert_eq!(resolve_path(true, true, false, &probes2), VaultLocation::Override);
}

#[test]
fn diff_shows_fingerprints_only() {
    let (mut vault, keys) = Vault::init("pw", true, "/w/.envseal".to_string(), vec![]).unwrap();
    vault.set_entry(&keys, None, None, "K", "secret", None).unwrap();
    vault.set_entry(&keys, None, Some("dev"), "D", "x", None).unwrap();
    let lines = vault.diff_lines();
    assert_eq!(lines.len(), 5);
    assert_eq!(lines[0], "# Group: project");
    assert_eq!(lines[1], "\n  [base]");
    assert!(lines[2].starts_with("  K = <locked: reseal-fingerprint:"));
    assert_eq!(lines[2].len(), "  K = <locked: reseal-fingerprint:".len() + 16 + 1);
    assert!(!lines[2].contains("secret"));
    assert_eq!(lines[3], "  [dev]");
    assert!(lines[4].starts_with("  D = <locked: reseal-fingerprint:"));
}

#[test]
fn paths_compare_by_components() {
    let c = |s: &str| s.chars().collect::<Vec<char>>();
    assert!(path_less(&c("/p/app/sub"), &c("/p/app-v2")));
    assert!(!path_less(&c("/p/app-v2"), &c("/p/app/sub")));
    assert_eq!(path_key_of(&c("/a/b")), path_key_of(&c("/a//b/.")));
    assert_eq!(path_key_of(&c("/a/b")), path_key_of(&c("/a/b/")));
    assert_ne!(path_key_of(&c("./a")), path_key_of(&c("a")));
    assert!(path_less(&c("/"), &c("a")));
    assert!(path_less(&c("/a/.."), &c("/a/b")));
}
