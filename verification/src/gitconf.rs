//! Setting a git repository up for sealed vaults: the merge-driver rule in
//! `.gitattributes`, the lock-file rule in `.gitignore`, and the pre-commit
//! hook that refuses plaintext `.env` files. Each function decides, from a
//! file's current text, what is to be written to it.
use crate::crypto::append_chars;
use crate::env_file::{lines, lines_state, strip_cr};
use crate::text::{
    chars_eq, chars_of, has_prefix, has_suffix, slice_range, starts_with_chars, string_from_chars,
    trim, trim_chars,
};
use vstd::prelude::*;

verus! {

/// The pre-commit hook that envseal installs.
pub const PRE_COMMIT_HOOK: &'static str = "#!/bin/sh\n    # envseal pre-commit hook: prevent committing unsealed secrets and .env files\n\n    # Reject staged plaintext .env files (allow .envseal files)\n    staged_env=$(git diff --cached --name-only --diff-filter=ACM | grep -E '(^|/)\\.env(\\.[^/]+)?$' | grep -v '\\.envseal')\n    if [ -n \"$staged_env\" ]; then\n        echo \"[envseal] COMMIT REJECTED: Staged plaintext .env file(s) detected:\" >&2\n        echo \"$staged_env\" | sed 's/^/  - /' >&2\n        echo \"[envseal] Use 'envseal run' or encrypt secrets into '.envseal' instead.\" >&2\n        exit 1\n    fi\n    ";

/// `p` occurs in `s`.
pub open spec fn contains_sub(s: Seq<char>, p: Seq<char>) -> bool {
    exists|i: int| 0 <= i <= s.len() - p.len() && #[trigger] s.subrange(i, i + p.len()) == p
}

/// Whether `p` occurs in `s`.
pub fn contains_chars(s: &[char], p: &[char]) -> (b: bool)
    ensures
        b == contains_sub(s@, p@),
{
    if p.len() > s.len() {
        return false;
    }
    let mut i: usize = 0;
    while i <= s.len() - p.len()
        invariant
            p.len() <= s.len(),
            i <= s.len() - p.len() + 1,
            forall|j: int| 0 <= j < i ==> #[trigger] s@.subrange(j, j + p@.len()) != p@,
        decreases s.len() - p.len() + 1 - i,
    {
        let mut k: usize = 0;
        let mut same = true;
        while k < p.len()
            invariant
                k <= p.len(),
                i + p.len() <= s.len(),
                same == (forall|m: int| 0 <= m < k ==> s@[i + m] == p@[m]),
            decreases p.len() - k,
        {
            if s[i + k] != p[k] {
                same = false;
            }
            k = k + 1;
        }
        if same {
            assert(s@.subrange(i as int, i + p@.len()) =~= p@);
            return true;
        }
        assert(s@.subrange(i as int, i + p@.len()) != p@) by {
            let m = choose|m: int| 0 <= m < p.len() && s@[i + m] != p@[m];
            assert(s@.subrange(i as int, i + p@.len())[m] == s@[i + m]);
        }
        i = i + 1;
    }
    false
}

/// `str::lines` on characters.
pub fn split_lines(s: &[char]) -> (r: Vec<Vec<char>>)
    ensures
        r@.map_values(|l: Vec<char>| l@) == lines(s@),
{
    let mut out: Vec<Vec<char>> = Vec::new();
    let mut cur: Vec<char> = Vec::new();
    let mut i: usize = 0;
    while i < s.len()
        invariant
            i <= s.len(),
            lines_state(s@.take(i as int)) == (out@.map_values(|l: Vec<char>| l@), cur@),
        decreases s.len() - i,
    {
        assert(s@.take(i + 1).drop_last() == s@.take(i as int));
        if s[i] == '\n' {
            let line = if cur.len() > 0 && cur[cur.len() - 1] == '\r' {
                slice_range(cur.as_slice(), 0, cur.len() - 1)
            } else {
                slice_range(cur.as_slice(), 0, cur.len())
            };
            assert(line@ == strip_cr(cur@));
            let ghost before = out@;
            out.push(line);
            assert(out@.map_values(|l: Vec<char>| l@) =~= before.map_values(|l: Vec<char>| l@).push(
                strip_cr(cur@),
            ));
            cur = Vec::new();
        } else {
            cur.push(s[i]);
        }
        i = i + 1;
    }
    assert(s@.take(s.len() as int) == s@);
    if cur.len() > 0 {
        let ghost before = out@;
        let c = cur;
        let ghost cv = c@;
        out.push(c);
        assert(out@.map_values(|l: Vec<char>| l@) =~= before.map_values(|l: Vec<char>| l@).push(cv));
    }
    out
}

pub open spec fn envseal_glob() -> Seq<char> {
    seq!['*', '.', 'e', 'n', 'v', 's', 'e', 'a', 'l']
}

pub open spec fn merge_attr() -> Seq<char> {
    seq!['m', 'e', 'r', 'g', 'e', '=', 'e', 'n', 'v', 's', 'e', 'a', 'l']
}

/// A `.gitattributes` line that routes `*.envseal` files to the merge driver.
pub open spec fn is_merge_rule(line: Seq<char>) -> bool {
    has_prefix(trim(line), envseal_glob()) && contains_sub(line, merge_attr())
}

/// What to append to a file whose text is `existing` so that it ends with
/// line `rule`: the rule and a line ending, after a line ending where the
/// text is not empty and does not end with one.
pub open spec fn appended(existing: Seq<char>, rule: Seq<char>) -> Seq<char> {
    if existing.len() > 0 && !has_suffix(existing, seq!['\n']) {
        seq!['\n'] + rule + seq!['\n']
    } else {
        rule + seq!['\n']
    }
}

fn appended_text(existing: &[char], rule: &[char]) -> (r: String)
    ensures
        r@ == appended(existing@, rule@),
{
    let mut out: Vec<char> = Vec::new();
    if existing.len() > 0 && existing[existing.len() - 1] != '\n' {
        out.push('\n');
    }
    append_chars(&mut out, rule);
    out.push('\n');
    proof {
        if existing@.len() > 0 {
            let last = existing@[existing@.len() - 1];
            assert(existing@.skip(existing@.len() - 1) =~= seq![last]);
            if last == '\n' {
                assert(has_suffix(existing@, seq!['\n']));
            } else {
                assert(seq![last] != seq!['\n']) by {
                    assert(seq![last][0] != seq!['\n'][0]);
                }
                assert(!has_suffix(existing@, seq!['\n']));
            }
        }
    }
    string_from_chars(out.as_slice())
}

/// The rule that routes `*.envseal` files to envseal's merge driver.
pub open spec fn attributes_rule() -> Seq<char> {
    envseal_glob() + seq![' '] + merge_attr()
}

/// What to append to `.gitattributes`: nothing where some line already
/// routes `*.envseal` files to the merge driver, else that rule.
pub fn attributes_addition(existing: &str) -> (r: Option<String>)
    ensures
        match r {
            None => exists|i: int| 0 <= i < lines(existing@).len() && is_merge_rule(
                #[trigger] lines(existing@)[i],
            ),
            Some(t) => (forall|i: int| 0 <= i < lines(existing@).len() ==> !is_merge_rule(
                #[trigger] lines(existing@)[i],
            )) && t@ == appended(existing@, attributes_rule()),
        },
{
    let e = chars_of(existing);
    let ls = split_lines(e.as_slice());
    let ghost lv = ls@.map_values(|l: Vec<char>| l@);
    let glob: Vec<char> = vec!['*', '.', 'e', 'n', 'v', 's', 'e', 'a', 'l'];
    let attr: Vec<char> = vec!['m', 'e', 'r', 'g', 'e', '=', 'e', 'n', 'v', 's', 'e', 'a', 'l'];
    let mut i: usize = 0;
    while i < ls.len()
        invariant
            i <= ls.len(),
            lv == ls@.map_values(|l: Vec<char>| l@),
            lv == lines(existing@),
            glob@ == envseal_glob(),
            attr@ == merge_attr(),
            forall|j: int| 0 <= j < i ==> !is_merge_rule(#[trigger] lv[j]),
        decreases ls.len() - i,
    {
        let t = trim_chars(ls[i].as_slice());
        assert(lv[i as int] == ls@[i as int]@);
        if starts_with_chars(t.as_slice(), glob.as_slice()) && contains_chars(
            ls[i].as_slice(),
            attr.as_slice(),
        ) {
            assert(is_merge_rule(lv[i as int]));
            return None;
        }
        i = i + 1;
    }
    let mut rule: Vec<char> = glob;
    rule.push(' ');
    append_chars(&mut rule, attr.as_slice());
    Some(appended_text(e.as_slice(), rule.as_slice()))
}

pub open spec fn lock_rule() -> Seq<char> {
    seq!['.', 'e', 'n', 'v', 's', 'e', 'a', 'l', '*', '.', 'l', 'o', 'c', 'k']
}

/// What to append to `.gitignore`: nothing where some line (trimmed) is
/// already the lock-file rule `.envseal*.lock`, else that rule.
pub fn gitignore_addition(existing: &str) -> (r: Option<String>)
    ensures
        match r {
            None => exists|i: int| 0 <= i < lines(existing@).len() && trim(
                #[trigger] lines(existing@)[i],
            ) == lock_rule(),
            Some(t) => (forall|i: int| 0 <= i < lines(existing@).len() ==> trim(
                #[trigger] lines(existing@)[i],
            ) != lock_rule()) && t@ == appended(existing@, lock_rule()),
        },
{
    let e = chars_of(existing);
    let ls = split_lines(e.as_slice());
    let ghost lv = ls@.map_values(|l: Vec<char>| l@);
    let rule: Vec<char> = vec!['.', 'e', 'n', 'v', 's', 'e', 'a', 'l', '*', '.', 'l', 'o', 'c', 'k'];
    let mut i: usize = 0;
    while i < ls.len()
        invariant
            i <= ls.len(),
            lv == ls@.map_values(|l: Vec<char>| l@),
            lv == lines(existing@),
            rule@ == lock_rule(),
            forall|j: int| 0 <= j < i ==> trim(#[trigger] lv[j]) != lock_rule(),
        decreases ls.len() - i,
    {
        let t = trim_chars(ls[i].as_slice());
        assert(lv[i as int] == ls@[i as int]@);
        if chars_eq(t.as_slice(), rule.as_slice()) {
            return None;
        }
        i = i + 1;
    }
    Some(appended_text(e.as_slice(), rule.as_slice()))
}

pub open spec fn hook_marker() -> Seq<char> {
    seq![
        'e',
        'n',
        'v',
        's',
        'e',
        'a',
        'l',
        ' ',
        'p',
        'r',
        'e',
        '-',
        'c',
        'o',
        'm',
        'm',
        'i',
        't',
        ' ',
        'h',
        'o',
        'o',
        'k',
    ]
}

pub open spec fn shebang() -> Seq<char> {
    seq!['#', '!', '/', 'b', 'i', 'n', '/', 's', 'h', '\n']
}

/// How the pre-commit hook file is to be written.
pub enum HookWrite {
    /// Write the file with this text.
    Create(String),
    /// Append this text to the file.
    Append(String),
}

/// The hook without its `#!/bin/sh` line, to go after an existing hook.
pub open spec fn hook_snippet(hook: Seq<char>) -> Seq<char> {
    if has_prefix(hook, shebang()) {
        hook.skip(10)
    } else {
        hook
    }
}

/// What to do with the pre-commit hook whose text is `existing` (empty
/// where there is none): nothing where it already holds envseal's hook;
/// write the hook where it is empty; else append a line ending and the
/// hook without its `#!/bin/sh` line.
pub fn hook_update(existing: &str) -> (r: Option<HookWrite>)
    ensures
        match r {
            None => contains_sub(existing@, hook_marker()),
            Some(HookWrite::Create(t)) => !contains_sub(existing@, hook_marker()) && existing@.len()
                == 0 && t@ == PRE_COMMIT_HOOK@,
            Some(HookWrite::Append(t)) => !contains_sub(existing@, hook_marker()) && existing@.len()
                > 0 && t@ == seq!['\n'] + hook_snippet(PRE_COMMIT_HOOK@),
        },
{
    let e = chars_of(existing);
    let marker: Vec<char> = vec![
        'e',
        'n',
        'v',
        's',
        'e',
        'a',
        'l',
        ' ',
        'p',
        'r',
        'e',
        '-',
        'c',
        'o',
        'm',
        'm',
        'i',
        't',
        ' ',
        'h',
        'o',
        'o',
        'k',
    ];
    if contains_chars(e.as_slice(), marker.as_slice()) {
        return None;
    }
    if e.len() == 0 {
        return Some(HookWrite::Create(String::from_str(PRE_COMMIT_HOOK)));
    }
    let h = chars_of(PRE_COMMIT_HOOK);
    let sb: Vec<char> = vec!['#', '!', '/', 'b', 'i', 'n', '/', 's', 'h', '\n'];
    let snippet = if starts_with_chars(h.as_slice(), sb.as_slice()) {
        slice_range(h.as_slice(), 10, h.len())
    } else {
        h
    };
    let mut out: Vec<char> = vec!['\n'];
    append_chars(&mut out, snippet.as_slice());
    Some(HookWrite::Append(string_from_chars(out.as_slice())))
}

} // verus!
