//! Printing secrets for shells: which shell a name stands for, how a
//! variable assignment is written in each, and the dotenv text of a set of
//! secrets.
use crate::crypto::append_chars;
use crate::env_file::{escape_single_quotes, format_env_value, lemma_unescape_escape, shell_value, unescape_quotes};
use crate::strmap::StrMap;
use crate::text::{chars_of, ends_with_chars, has_suffix, string_from_chars};
use vstd::prelude::*;

verus! {

/// The shells whose assignment syntax `load` knows.
#[derive(Clone, Copy, PartialEq, Eq, Structural, Debug)]
pub enum ShellType {
    Posix,
    Fish,
    PowerShell,
    Cmd,
}

/// `str::to_lowercase`: the lower-case form of a text.
pub uninterp spec fn lowercase(s: Seq<char>) -> Seq<char>;

/// `str::to_lowercase`.
#[verifier::external_body]
pub(crate) fn to_lowercase(s: &str) -> (r: String)
    ensures
        r@ == lowercase(s@),
{
    s.to_lowercase()
}

/// The shell a lower-case shell name (or path) stands for, by its ending;
/// POSIX where none matches.
pub open spec fn shell_of(lower: Seq<char>) -> ShellType {
    if has_suffix(lower, seq!['f', 'i', 's', 'h']) {
        ShellType::Fish
    } else if has_suffix(lower, seq!['p', 'w', 's', 'h']) || has_suffix(
        lower,
        seq!['p', 'o', 'w', 'e', 'r', 's', 'h', 'e', 'l', 'l'],
    ) {
        ShellType::PowerShell
    } else if has_suffix(lower, seq!['c', 'm', 'd']) || has_suffix(
        lower,
        seq!['c', 'm', 'd', '.', 'e', 'x', 'e'],
    ) {
        ShellType::Cmd
    } else {
        ShellType::Posix
    }
}

/// A name or path ending in `fish` is fish; in `pwsh` or `powershell`,
/// PowerShell; in `cmd` or `cmd.exe`, cmd; whatever comes before the ending.
/// A name like `bash` or `/bin/zsh` ends in none of these and is POSIX.
pub proof fn lemma_shell_names(p: Seq<char>)
    ensures
        shell_of(p + seq!['f', 'i', 's', 'h']) == ShellType::Fish,
        shell_of(p + seq!['p', 'w', 's', 'h']) == ShellType::PowerShell,
        shell_of(p + seq!['p', 'o', 'w', 'e', 'r', 's', 'h', 'e', 'l', 'l']) == ShellType::PowerShell,
        shell_of(p + seq!['c', 'm', 'd']) == ShellType::Cmd,
        shell_of(p + seq!['c', 'm', 'd', '.', 'e', 'x', 'e']) == ShellType::Cmd,
        shell_of(p + seq!['b', 'a', 's', 'h']) == ShellType::Posix,
        shell_of(p + seq!['z', 's', 'h']) == ShellType::Posix,
{
    let fish = seq!['f', 'i', 's', 'h'];
    let pwsh = seq!['p', 'w', 's', 'h'];
    let psh = seq!['p', 'o', 'w', 'e', 'r', 's', 'h', 'e', 'l', 'l'];
    let cmd = seq!['c', 'm', 'd'];
    let cmde = seq!['c', 'm', 'd', '.', 'e', 'x', 'e'];
    let bash = seq!['b', 'a', 's', 'h'];
    let zsh = seq!['z', 's', 'h'];
    let a = p + fish;
    assert(a.skip(a.len() - 4) =~= fish);
    let b = p + pwsh;
    assert(b.skip(b.len() - 4) =~= pwsh);
    assert(b.skip(b.len() - 4)[0] != fish[0]);
    let c = p + psh;
    assert(c.skip(c.len() - 10) =~= psh);
    assert(c.skip(c.len() - 4)[0] != fish[0]);
    assert(c.skip(c.len() - 4)[0] != pwsh[0]);
    let d = p + cmd;
    assert(d.skip(d.len() - 3) =~= cmd);
    if d.len() >= 4 {
        assert(d.skip(d.len() - 4)[3] != fish[3]);
        assert(d.skip(d.len() - 4)[3] != pwsh[3]);
    }
    if d.len() >= 10 {
        assert(d.skip(d.len() - 10)[9] != psh[9]);
    }
    let e = p + cmde;
    assert(e.skip(e.len() - 7) =~= cmde);
    assert(e.skip(e.len() - 4)[3] != fish[3]);
    assert(e.skip(e.len() - 4)[3] != pwsh[3]);
    if e.len() >= 10 {
        assert(e.skip(e.len() - 10)[9] != psh[9]);
    }
    assert(e.skip(e.len() - 3)[2] != cmd[2]);
    let f = p + bash;
    assert(f.skip(f.len() - 4)[0] != fish[0]);
    assert(f.skip(f.len() - 4)[0] != pwsh[0]);
    if f.len() >= 10 {
        assert(f.skip(f.len() - 10)[9] != psh[9]);
    }
    assert(f.skip(f.len() - 3)[2] != cmd[2]);
    if f.len() >= 7 {
        assert(f.skip(f.len() - 7)[6] != cmde[6]);
    }
    let g = p + zsh;
    if g.len() >= 4 {
        assert(g.skip(g.len() - 4)[1] != fish[1]);
        assert(g.skip(g.len() - 4)[1] != pwsh[1]);
    }
    if g.len() >= 10 {
        assert(g.skip(g.len() - 10)[9] != psh[9]);
    }
    assert(g.skip(g.len() - 3)[2] != cmd[2]);
    if g.len() >= 7 {
        assert(g.skip(g.len() - 7)[6] != cmde[6]);
    }
}

impl ShellType {
    /// The shell a lower-case name stands for; see `shell_of`.
    pub fn from_lowercase(lower: &str) -> (s: ShellType)
        ensures
            s == shell_of(lower@),
    {
        let c = chars_of(lower);
        let fish: Vec<char> = vec!['f', 'i', 's', 'h'];
        let pwsh: Vec<char> = vec!['p', 'w', 's', 'h'];
        let powershell: Vec<char> = vec!['p', 'o', 'w', 'e', 'r', 's', 'h', 'e', 'l', 'l'];
        let cmd: Vec<char> = vec!['c', 'm', 'd'];
        let cmd_exe: Vec<char> = vec!['c', 'm', 'd', '.', 'e', 'x', 'e'];
        if ends_with_chars(c.as_slice(), fish.as_slice()) {
            ShellType::Fish
        } else if ends_with_chars(c.as_slice(), pwsh.as_slice()) || ends_with_chars(
            c.as_slice(),
            powershell.as_slice(),
        ) {
            ShellType::PowerShell
        } else if ends_with_chars(c.as_slice(), cmd.as_slice()) || ends_with_chars(
            c.as_slice(),
            cmd_exe.as_slice(),
        ) {
            ShellType::Cmd
        } else {
            ShellType::Posix
        }
    }

    /// The shell a name (such as `$SHELL`) stands for, compared without case.
    pub fn from_name(name: &str) -> (s: ShellType)
        ensures
            s == shell_of(lowercase(name@)),
    {
        let lower = to_lowercase(name);
        ShellType::from_lowercase(lower.as_str())
    }
}

/// Each `c` of `s` replaced by `r`.
pub open spec fn replace_char(s: Seq<char>, c: char, r: Seq<char>) -> Seq<char>
    decreases s.len(),
{
    if s.len() == 0 {
        seq![]
    } else {
        replace_char(s.drop_last(), c, r) + if s.last() == c {
            r
        } else {
            seq![s.last()]
        }
    }
}

/// Each `c` of `s` replaced by `r`.
pub fn replace_chars(s: &[char], c: char, r: &[char]) -> (out: Vec<char>)
    ensures
        out@ == replace_char(s@, c, r@),
{
    let mut out: Vec<char> = Vec::new();
    let mut i: usize = 0;
    while i < s.len()
        invariant
            i <= s.len(),
            out@ == replace_char(s@.take(i as int), c, r@),
        decreases s.len() - i,
    {
        assert(s@.take(i + 1).drop_last() == s@.take(i as int));
        if s[i] == c {
            append_chars(&mut out, r);
        } else {
            out.push(s[i]);
        }
        i = i + 1;
    }
    assert(s@.take(s.len() as int) == s@);
    out
}

/// The line that sets variable `key` to `value` in a shell's syntax.
pub open spec fn export_line(shell: ShellType, key: Seq<char>, value: Seq<char>) -> Seq<char> {
    match shell {
        ShellType::Posix => seq!['e', 'x', 'p', 'o', 'r', 't', ' '] + key + seq!['=', '\'']
            + replace_char(value, '\'', seq!['\'', '\\', '\'', '\'']) + seq!['\''],
        ShellType::Fish => seq!['s', 'e', 't', ' ', '-', 'g', 'x', ' '] + key + seq![' ', '\'']
            + replace_char(replace_char(value, '\\', seq!['\\', '\\']), '\'', seq!['\\', '\''])
            + seq!['\''],
        ShellType::PowerShell => seq!['$', 'e', 'n', 'v', ':'] + key + seq!['=', '\'']
            + replace_char(value, '\'', seq!['\'', '\'']) + seq!['\''],
        ShellType::Cmd => seq!['s', 'e', 't', ' '] + key + seq!['='] + value,
    }
}

/// Replacing each `'` by `'\''` is the escaping of a single-quoted word.
proof fn lemma_quote_replace_is_escape(v: Seq<char>)
    ensures
        replace_char(v, '\'', seq!['\'', '\\', '\'', '\'']) == escape_single_quotes(v),
    decreases v.len(),
{
    if v.len() > 0 {
        lemma_quote_replace_is_escape(v.drop_last());
    }
}

/// The start of a POSIX assignment line: `export KEY='`.
pub open spec fn posix_head(key: Seq<char>) -> Seq<char> {
    seq!['e', 'x', 'p', 'o', 'r', 't', ' '] + key + seq!['=', '\'']
}

/// A POSIX shell reading the assignment line gets the value back exactly:
/// the line is `export KEY='` and a single-quoted word that ends the line,
/// and a shell reading that word (literal text, each `'\''` standing for
/// one `'`) gets `value`, backslashes and all.
pub proof fn lemma_posix_line_reads_back(key: Seq<char>, value: Seq<char>)
    ensures
        ({
            let line = export_line(ShellType::Posix, key, value);
            let h = posix_head(key);
            &&& line.len() >= h.len() + 1
            &&& line.take(h.len() as int) == h
            &&& line.last() == '\''
            &&& unescape_quotes(line.subrange(h.len() as int, line.len() - 1)) == Some(value)
        }),
{
    let line = export_line(ShellType::Posix, key, value);
    let h = posix_head(key);
    let w = replace_char(value, '\'', seq!['\'', '\\', '\'', '\'']);
    assert(line =~= h + w + seq!['\'']);
    assert(line.take(h.len() as int) =~= h);
    assert(line.subrange(h.len() as int, line.len() - 1) =~= w);
    lemma_quote_replace_is_escape(value);
    lemma_unescape_escape(value);
}

/// Replacing in two pieces replaces in their concatenation.
proof fn lemma_replace_concat(a: Seq<char>, b: Seq<char>, c: char, r: Seq<char>)
    ensures
        replace_char(a + b, c, r) == replace_char(a, c, r) + replace_char(b, c, r),
    decreases b.len(),
{
    if b.len() == 0 {
        assert(a + b =~= a);
        assert(replace_char(a, c, r) + replace_char(b, c, r) =~= replace_char(a, c, r));
    } else {
        lemma_replace_concat(a, b.drop_last(), c, r);
        assert((a + b).drop_last() =~= a + b.drop_last());
        assert((a + b).last() == b.last());
        let tail = if b.last() == c {
            r
        } else {
            seq![b.last()]
        };
        assert(replace_char(a, c, r) + replace_char(b.drop_last(), c, r) + tail =~= replace_char(a, c, r) + (
        replace_char(b.drop_last(), c, r) + tail));
    }
}

proof fn lemma_replace_one(x: char, c: char, r: Seq<char>)
    ensures
        replace_char(seq![x], c, r) == if x == c {
            r
        } else {
            seq![x]
        },
{
    assert(seq![x].drop_last() =~= Seq::<char>::empty());
    assert(seq![x].last() == x);
    assert(replace_char(Seq::<char>::empty(), c, r) == Seq::<char>::empty());
    assert(replace_char(seq![x], c, r) == replace_char(seq![x].drop_last(), c, r) + if x == c {
        r
    } else {
        seq![x]
    });
    assert(Seq::<char>::empty() + r =~= r);
    assert(Seq::<char>::empty() + seq![x] =~= seq![x]);
}

/// What fish reads from the inside of a single-quoted word: `\\` stands for
/// `\`, `\'` for `'`, another backslash for itself; a bare `'` would end the
/// word, so the text is no such inside (`None`).
pub open spec fn fish_unquote(s: Seq<char>) -> Option<Seq<char>>
    decreases s.len(),
{
    if s.len() == 0 {
        Some(seq![])
    } else if s[0] == '\'' {
        None
    } else if s[0] == '\\' && s.len() >= 2 && (s[1] == '\\' || s[1] == '\'') {
        match fish_unquote(s.skip(2)) {
            Some(t) => Some(seq![s[1]] + t),
            None => None,
        }
    } else {
        match fish_unquote(s.skip(1)) {
            Some(t) => Some(seq![s[0]] + t),
            None => None,
        }
    }
}

/// What PowerShell reads from the inside of a single-quoted string: `''`
/// stands for `'`; a lone `'` would end the string (`None`).
pub open spec fn powershell_unquote(s: Seq<char>) -> Option<Seq<char>>
    decreases s.len(),
{
    if s.len() == 0 {
        Some(seq![])
    } else if s[0] == '\'' {
        if s.len() >= 2 && s[1] == '\'' {
            match powershell_unquote(s.skip(2)) {
                Some(t) => Some(seq!['\''] + t),
                None => None,
            }
        } else {
            None
        }
    } else {
        match powershell_unquote(s.skip(1)) {
            Some(t) => Some(seq![s[0]] + t),
            None => None,
        }
    }
}

proof fn lemma_fish_word(v: Seq<char>)
    ensures
        fish_unquote(replace_char(replace_char(v, '\\', seq!['\\', '\\']), '\'', seq!['\\', '\''])) == Some(v),
    decreases v.len(),
{
    if v.len() > 0 {
        let c = v[0];
        let rest = v.skip(1);
        assert(v =~= seq![c] + rest);
        let r1 = seq!['\\', '\\'];
        let r2 = seq!['\\', '\''];
        lemma_replace_concat(seq![c], rest, '\\', r1);
        lemma_replace_one(c, '\\', r1);
        let a1 = replace_char(seq![c], '\\', r1);
        let b1 = replace_char(rest, '\\', r1);
        lemma_replace_concat(a1, b1, '\'', r2);
        let a2 = replace_char(a1, '\'', r2);
        let b2 = replace_char(b1, '\'', r2);
        lemma_fish_word(rest);
        let w = a2 + b2;
        if c == '\\' {
            assert(a1 =~= seq!['\\'] + seq!['\\']);
            lemma_replace_concat(seq!['\\'], seq!['\\'], '\'', r2);
            lemma_replace_one('\\', '\'', r2);
            assert(a2 =~= seq!['\\', '\\']);
            assert(w.skip(2) =~= b2);
        } else if c == '\'' {
            lemma_replace_one('\'', '\'', r2);
            assert(a2 =~= seq!['\\', '\'']);
            assert(w.skip(2) =~= b2);
        } else {
            lemma_replace_one(c, '\'', r2);
            assert(a2 =~= seq![c]);
            assert(w.skip(1) =~= b2);
        }
        assert(seq![c] + rest =~= v);
    } else {
        assert(replace_char(v, '\\', seq!['\\', '\\']) =~= Seq::<char>::empty());
    }
}

proof fn lemma_powershell_word(v: Seq<char>)
    ensures
        powershell_unquote(replace_char(v, '\'', seq!['\'', '\''])) == Some(v),
    decreases v.len(),
{
    if v.len() > 0 {
        let c = v[0];
        let rest = v.skip(1);
        assert(v =~= seq![c] + rest);
        let r = seq!['\'', '\''];
        lemma_replace_concat(seq![c], rest, '\'', r);
        lemma_replace_one(c, '\'', r);
        lemma_powershell_word(rest);
        let w = replace_char(v, '\'', r);
        if c == '\'' {
            assert(w.skip(2) =~= replace_char(rest, '\'', r));
        } else {
            assert(w.skip(1) =~= replace_char(rest, '\'', r));
        }
        assert(seq![c] + rest =~= v);
    } else {
        assert(replace_char(v, '\'', seq!['\'', '\'']) =~= Seq::<char>::empty());
    }
}

/// The start of a fish assignment line: `set -gx KEY '`.
pub open spec fn fish_head(key: Seq<char>) -> Seq<char> {
    seq!['s', 'e', 't', ' ', '-', 'g', 'x', ' '] + key + seq![' ', '\'']
}

/// The start of a PowerShell assignment line: `$env:KEY='`.
pub open spec fn powershell_head(key: Seq<char>) -> Seq<char> {
    seq!['$', 'e', 'n', 'v', ':'] + key + seq!['=', '\'']
}

/// Fish and PowerShell read the value back exactly from their assignment
/// lines: each line is its head and a single-quoted word that ends it,
/// whose inside that shell reads as `value`.
pub proof fn lemma_quoted_lines_read_back(key: Seq<char>, value: Seq<char>)
    ensures
        ({
            let line = export_line(ShellType::Fish, key, value);
            let h = fish_head(key);
            &&& line.len() >= h.len() + 1
            &&& line.take(h.len() as int) == h
            &&& line.last() == '\''
            &&& fish_unquote(line.subrange(h.len() as int, line.len() - 1)) == Some(value)
        }),
        ({
            let line = export_line(ShellType::PowerShell, key, value);
            let h = powershell_head(key);
            &&& line.len() >= h.len() + 1
            &&& line.take(h.len() as int) == h
            &&& line.last() == '\''
            &&& powershell_unquote(line.subrange(h.len() as int, line.len() - 1)) == Some(value)
        }),
        export_line(ShellType::Cmd, key, value) == seq!['s', 'e', 't', ' '] + key + seq!['='] + value,
{
    let fl = export_line(ShellType::Fish, key, value);
    let fh = fish_head(key);
    let fw = replace_char(replace_char(value, '\\', seq!['\\', '\\']), '\'', seq!['\\', '\'']);
    assert(fl =~= fh + fw + seq!['\'']);
    assert(fl.take(fh.len() as int) =~= fh);
    assert(fl.subrange(fh.len() as int, fl.len() - 1) =~= fw);
    lemma_fish_word(value);
    let pl = export_line(ShellType::PowerShell, key, value);
    let ph = powershell_head(key);
    let pw = replace_char(value, '\'', seq!['\'', '\'']);
    assert(pl =~= ph + pw + seq!['\'']);
    assert(pl.take(ph.len() as int) =~= ph);
    assert(pl.subrange(ph.len() as int, pl.len() - 1) =~= pw);
    lemma_powershell_word(value);
}

/// The line that sets variable `key` to `value` in the given shell.
pub fn shell_export_line(shell: ShellType, key: &str, value: &str) -> (line: String)
    ensures
        line@ == export_line(shell, key@, value@),
        shell == ShellType::Posix ==> {
            &&& line@.len() >= posix_head(key@).len() + 1
            &&& line@.take(posix_head(key@).len() as int) == posix_head(key@)
            &&& line@.last() == '\''
            &&& unescape_quotes(line@.subrange(posix_head(key@).len() as int, line@.len() - 1)) == Some(value@)
        },
{
    proof {
        lemma_posix_line_reads_back(key@, value@);
    }
    let k = chars_of(key);
    let v = chars_of(value);
    let mut out: Vec<char> = Vec::new();
    match shell {
        ShellType::Posix => {
            let p: Vec<char> = vec!['e', 'x', 'p', 'o', 'r', 't', ' '];
            append_chars(&mut out, p.as_slice());
            append_chars(&mut out, k.as_slice());
            out.push('=');
            out.push('\'');
            let r: Vec<char> = vec!['\'', '\\', '\'', '\''];
            let e = replace_chars(v.as_slice(), '\'', r.as_slice());
            append_chars(&mut out, e.as_slice());
            out.push('\'');
        },
        ShellType::Fish => {
            let p: Vec<char> = vec!['s', 'e', 't', ' ', '-', 'g', 'x', ' '];
            append_chars(&mut out, p.as_slice());
            append_chars(&mut out, k.as_slice());
            out.push(' ');
            out.push('\'');
            let r1: Vec<char> = vec!['\\', '\\'];
            let e1 = replace_chars(v.as_slice(), '\\', r1.as_slice());
            let r2: Vec<char> = vec!['\\', '\''];
            let e2 = replace_chars(e1.as_slice(), '\'', r2.as_slice());
            append_chars(&mut out, e2.as_slice());
            out.push('\'');
        },
        ShellType::PowerShell => {
            let p: Vec<char> = vec!['$', 'e', 'n', 'v', ':'];
            append_chars(&mut out, p.as_slice());
            append_chars(&mut out, k.as_slice());
            out.push('=');
            out.push('\'');
            let r: Vec<char> = vec!['\'', '\''];
            let e = replace_chars(v.as_slice(), '\'', r.as_slice());
            append_chars(&mut out, e.as_slice());
            out.push('\'');
        },
        ShellType::Cmd => {
            let p: Vec<char> = vec!['s', 'e', 't', ' '];
            append_chars(&mut out, p.as_slice());
            append_chars(&mut out, k.as_slice());
            out.push('=');
            append_chars(&mut out, v.as_slice());
        },
    }
    string_from_chars(out.as_slice())
}

/// Whether a name is kept by a request: every name when none is requested,
/// else the requested ones.
pub open spec fn requested(names: Seq<Seq<char>>, k: Seq<char>) -> bool {
    names.len() == 0 || names.contains(k)
}

/// Whether a name is among the requested ones.
fn is_requested(names: &[String], k: &str) -> (b: bool)
    ensures
        b == requested(names@.map_values(|s: String| s@), k@),
{
    if names.len() == 0 {
        return true;
    }
    let kc = chars_of(k);
    let mut i: usize = 0;
    while i < names.len()
        invariant
            i <= names.len(),
            kc@ == k@,
            forall|j: int| 0 <= j < i ==> names@[j]@ != k@,
        decreases names.len() - i,
    {
        let nc = chars_of(names[i].as_str());
        if crate::text::chars_eq(nc.as_slice(), kc.as_slice()) {
            proof {
                assert(names@.map_values(|s: String| s@)[i as int] == k@);
            }
            return true;
        }
        i = i + 1;
    }
    proof {
        let nv = names@.map_values(|s: String| s@);
        if nv.contains(k@) {
            let j = choose|j: int| 0 <= j < nv.len() && #[trigger] nv[j] == k@;
            assert(names@[j]@ == k@);
        }
    }
    false
}

/// The secrets kept by a request, as (name, value) pairs in ascending name order.
pub open spec fn kept_pairs(pairs: Seq<(Seq<char>, String)>, names: Seq<Seq<char>>) -> Seq<(Seq<char>, String)> {
    pairs.filter(|p: (Seq<char>, String)| requested(names, p.0))
}

/// The lines that set each requested secret in a shell, in ascending name order.
pub open spec fn export_lines(shell: ShellType, pairs: Seq<(Seq<char>, String)>) -> Seq<Seq<char>> {
    pairs.map_values(|p: (Seq<char>, String)| export_line(shell, p.0, p.1@))
}

/// The dotenv text of the secrets: a `KEY=value` line each.
pub open spec fn dotenv_text(pairs: Seq<(Seq<char>, String)>) -> Seq<char>
    decreases pairs.len(),
{
    if pairs.len() == 0 {
        seq![]
    } else {
        dotenv_text(pairs.drop_last()) + pairs.last().0 + seq!['='] + shell_value(pairs.last().1@)
            + seq!['\n']
    }
}

/// The assignment lines for the requested secrets (all where none is
/// requested), in ascending name order.
pub fn shell_lines(shell: ShellType, envs: &StrMap<String>, names: &[String]) -> (lines: Vec<String>)
    ensures
        lines@.map_values(|s: String| s@) == export_lines(
            shell,
            kept_pairs(envs.entries(), names@.map_values(|s: String| s@)),
        ),
{
    let ghost nv = names@.map_values(|s: String| s@);
    let ghost f = |p: (Seq<char>, String)| requested(nv, p.0);
    let mut lines: Vec<String> = Vec::new();
    let n = envs.len();
    let mut i: usize = 0;
    while i < n
        invariant
            i <= n,
            n == envs.entries().len(),
            nv == names@.map_values(|s: String| s@),
            f == (|p: (Seq<char>, String)| requested(nv, p.0)),
            lines@.map_values(|s: String| s@) == export_lines(shell, envs.entries().take(i as int).filter(f)),
        decreases n - i,
    {
        let k = envs.key_at(i);
        let v = envs.value_at(i);
        proof {
            reveal(Seq::filter);
            assert(envs.entries().take(i + 1).drop_last() == envs.entries().take(i as int));
        }
        if is_requested(names, k.as_str()) {
            let ghost before = lines@;
            let line = shell_export_line(shell, k.as_str(), v.as_str());
            lines.push(line);
            proof {
                let e = envs.entries();
                assert(e.take(i + 1).last() == e[i as int]);
                assert(f(e[i as int]));
                assert(e.take(i + 1).filter(f) == e.take(i as int).filter(f).push(e[i as int]));
                assert(lines@ == before.push(line));
                assert(lines@.map_values(|s: String| s@) =~= before.map_values(|s: String| s@).push(line@));
                assert(lines@.map_values(|s: String| s@) =~= export_lines(
                    shell,
                    envs.entries().take(i + 1).filter(f),
                ));
            }
        } else {
            proof {
                assert(lines@.map_values(|s: String| s@) =~= export_lines(
                    shell,
                    envs.entries().take(i + 1).filter(f),
                ));
            }
        }
        i = i + 1;
    }
    proof {
        assert(envs.entries().take(n as int) == envs.entries());
    }
    lines
}

/// The dotenv text of the requested secrets (all where none is requested).
pub fn dotenv_lines(envs: &StrMap<String>, names: &[String]) -> (text: String)
    ensures
        text@ == dotenv_text(kept_pairs(envs.entries(), names@.map_values(|s: String| s@))),
{
    let ghost nv = names@.map_values(|s: String| s@);
    let ghost f = |p: (Seq<char>, String)| requested(nv, p.0);
    let mut out: Vec<char> = Vec::new();
    let n = envs.len();
    let mut i: usize = 0;
    while i < n
        invariant
            i <= n,
            n == envs.entries().len(),
            nv == names@.map_values(|s: String| s@),
            f == (|p: (Seq<char>, String)| requested(nv, p.0)),
            out@ == dotenv_text(envs.entries().take(i as int).filter(f)),
        decreases n - i,
    {
        let k = envs.key_at(i);
        let v = envs.value_at(i);
        proof {
            reveal(Seq::filter);
            assert(envs.entries().take(i + 1).drop_last() == envs.entries().take(i as int));
        }
        if is_requested(names, k.as_str()) {
            let kc = chars_of(k.as_str());
            append_chars(&mut out, kc.as_slice());
            out.push('=');
            let fv = format_env_value(v.as_str());
            let fc = chars_of(fv.as_str());
            append_chars(&mut out, fc.as_slice());
            out.push('\n');
            proof {
                let t = envs.entries().take(i + 1).filter(f);
                assert(t.drop_last() == envs.entries().take(i as int).filter(f));
                assert(out@ =~= dotenv_text(t));
            }
        }
        i = i + 1;
    }
    proof {
        assert(envs.entries().take(n as int) == envs.entries());
    }
    string_from_chars(out.as_slice())
}

} // verus!
