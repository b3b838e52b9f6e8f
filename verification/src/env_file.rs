//! Dotenv text: which names may be environment variables, how values are
//! quoted for a POSIX shell, and how `KEY=value` lines are read.
use crate::text::{
    chars_of, has_prefix, is_space, lemma_trim_by_range, slice_range, split_once, split_once_chars,
    starts_with_chars, string_from_chars, trim, trim_by, trim_chars, is_first_index, trim_start_by, trim_end_by,
};
use vstd::prelude::*;

verus! {

pub open spec fn is_ascii_alpha(c: char) -> bool {
    ('a' <= c && c <= 'z') || ('A' <= c && c <= 'Z')
}

pub open spec fn is_ascii_alnum(c: char) -> bool {
    is_ascii_alpha(c) || ('0' <= c && c <= '9')
}

/// A name that may be exported as an environment variable: a letter or `_`,
/// then letters, digits and `_` only.
pub open spec fn valid_env_key(k: Seq<char>) -> bool {
    &&& k.len() > 0
    &&& (is_ascii_alpha(k[0]) || k[0] == '_')
    &&& forall|i: int| 1 <= i < k.len() ==> (is_ascii_alnum(#[trigger] k[i]) || k[i] == '_')
}

/// Whether `key` is a valid environment variable name.
pub fn is_valid_env_key(key: &str) -> (b: bool)
    ensures
        b == valid_env_key(key@),
{
    let k = chars_of(key);
    if k.len() == 0 {
        return false;
    }
    let c0 = k[0];
    if !((c0 >= 'a' && c0 <= 'z') || (c0 >= 'A' && c0 <= 'Z') || c0 == '_') {
        return false;
    }
    let mut i: usize = 1;
    while i < k.len()
        invariant
            1 <= i <= k.len(),
            k@ == key@,
            forall|j: int| 1 <= j < i ==> (is_ascii_alnum(#[trigger] k@[j]) || k@[j] == '_'),
        decreases k.len() - i,
    {
        let c = k[i];
        if !((c >= 'a' && c <= 'z') || (c >= 'A' && c <= 'Z') || (c >= '0' && c <= '9') || c
            == '_') {
            return false;
        }
        i = i + 1;
    }
    true
}

/// Characters that a POSIX shell would not read literally outside quotes.
pub open spec fn is_shell_special(c: char) -> bool {
    c == ' ' || c == '\t' || c == '\n' || c == '\r' || c == '"' || c == '\'' || c == '#' || c
        == '$' || c == '`' || c == '\\'
}

pub open spec fn needs_quoting(s: Seq<char>) -> bool {
    exists|i: int| 0 <= i < s.len() && is_shell_special(#[trigger] s[i])
}

/// Each `'` replaced by `'\''`, the way to close, escape and reopen a single-quoted word.
pub open spec fn escape_single_quotes(s: Seq<char>) -> Seq<char>
    decreases s.len(),
{
    if s.len() == 0 {
        seq![]
    } else {
        escape_single_quotes(s.drop_last()) + if s.last() == '\'' {
            seq!['\'', '\\', '\'', '\'']
        } else {
            seq![s.last()]
        }
    }
}

/// The value as it is written after `KEY=` in an exported dotenv file.
pub open spec fn shell_value(s: Seq<char>) -> Seq<char> {
    if needs_quoting(s) {
        seq!['\''] + escape_single_quotes(s) + seq!['\'']
    } else {
        s
    }
}

fn is_shell_special_char(c: char) -> (b: bool)
    ensures
        b == is_shell_special(c),
{
    c == ' ' || c == '\t' || c == '\n' || c == '\r' || c == '"' || c == '\'' || c == '#' || c
        == '$' || c == '`' || c == '\\'
}

/// Formats a value for a dotenv line: unchanged where a shell would read it
/// literally, single-quoted (with `'` escaped) otherwise.
pub fn format_env_value(value: &str) -> (r: String)
    ensures
        r@ == shell_value(value@),
{
    let v = chars_of(value);
    let mut special = false;
    let mut i: usize = 0;
    while i < v.len()
        invariant
            i <= v.len(),
            v@ == value@,
            special == exists|j: int| 0 <= j < i && is_shell_special(#[trigger] v@[j]),
        decreases v.len() - i,
    {
        if is_shell_special_char(v[i]) {
            special = true;
        }
        i = i + 1;
    }
    if !special {
        return string_from_chars(v.as_slice());
    }
    let mut out: Vec<char> = Vec::new();
    out.push('\'');
    let mut i: usize = 0;
    while i < v.len()
        invariant
            i <= v.len(),
            v@ == value@,
            out@ == seq!['\''] + escape_single_quotes(v@.take(i as int)),
        decreases v.len() - i,
    {
        let c = v[i];
        if c == '\'' {
            out.push('\'');
            out.push('\\');
            out.push('\'');
            out.push('\'');
        } else {
            out.push(c);
        }
        assert(v@.take(i + 1).drop_last() == v@.take(i as int));
        i = i + 1;
    }
    out.push('\'');
    assert(v@.take(v.len() as int) == v@);
    string_from_chars(out.as_slice())
}

/// The state of splitting text into lines after reading it up to some point:
/// the lines already ended by `\n` (each without its `\r\n` or `\n`), and the
/// line in progress.
pub open spec fn lines_state(s: Seq<char>) -> (Seq<Seq<char>>, Seq<char>)
    decreases s.len(),
{
    if s.len() == 0 {
        (seq![], seq![])
    } else {
        let (done, cur) = lines_state(s.drop_last());
        if s.last() == '\n' {
            (done.push(strip_cr(cur)), seq![])
        } else {
            (done, cur.push(s.last()))
        }
    }
}

/// A line that ended in `\r\n` loses its `\r`.
pub open spec fn strip_cr(l: Seq<char>) -> Seq<char> {
    if l.len() > 0 && l.last() == '\r' {
        l.drop_last()
    } else {
        l
    }
}

/// `str::lines`: the text split at `\n` and `\r\n`, with no empty line after
/// a final line ending.
pub open spec fn lines(s: Seq<char>) -> Seq<Seq<char>> {
    let (done, cur) = lines_state(s);
    if cur.len() > 0 {
        done.push(cur)
    } else {
        done
    }
}

pub open spec fn export_prefix() -> Seq<char> {
    seq!['e', 'x', 'p', 'o', 'r', 't', ' ']
}

pub open spec fn is_quote(c: char) -> bool {
    c == '"' || c == '\''
}

/// `s` without the quote characters at either end.
pub open spec fn strip_quotes(s: Seq<char>) -> Seq<char> {
    trim_by(s, |c: char| is_quote(c))
}

/// Undoes `escape_single_quotes`: `None` where a `'` is not the start of
/// the escape `'\''`.
pub open spec fn unescape_quotes(s: Seq<char>) -> Option<Seq<char>>
    decreases s.len(),
{
    if s.len() == 0 {
        Some(seq![])
    } else if s[0] == '\'' {
        if s.len() >= 4 && s[1] == '\\' && s[2] == '\'' && s[3] == '\'' {
            match unescape_quotes(s.skip(4)) {
                Some(r) => Some(seq!['\''] + r),
                None => None,
            }
        } else {
            None
        }
    } else {
        match unescape_quotes(s.skip(1)) {
            Some(r) => Some(seq![s[0]] + r),
            None => None,
        }
    }
}

/// A value of the edit text read as the shell word `format_env_value`
/// writes: a single-quoted word with its escapes undone, else the value
/// without the quotes at its ends.
pub open spec fn edit_value(v: Seq<char>) -> Seq<char> {
    if v.len() >= 2 && v[0] == '\'' && v.last() == '\'' && unescape_quotes(v.subrange(1, v.len() - 1)) is Some {
        unescape_quotes(v.subrange(1, v.len() - 1))->Some_0
    } else {
        strip_quotes(v)
    }
}

/// A value as a line reads it: as a shell word where `shell` holds, else
/// without the quotes at its ends.
pub open spec fn read_value(v: Seq<char>, shell: bool) -> Seq<char> {
    if shell {
        edit_value(v)
    } else {
        strip_quotes(v)
    }
}

/// Escaping two pieces one after the other escapes their concatenation.
proof fn lemma_escape_concat(a: Seq<char>, b: Seq<char>)
    ensures
        escape_single_quotes(a + b) == escape_single_quotes(a) + escape_single_quotes(b),
    decreases b.len(),
{
    if b.len() == 0 {
        assert(a + b =~= a);
        assert(escape_single_quotes(a) + escape_single_quotes(b) =~= escape_single_quotes(a));
    } else {
        lemma_escape_concat(a, b.drop_last());
        assert((a + b).drop_last() =~= a + b.drop_last());
        assert((a + b).last() == b.last());
        let tail = if b.last() == '\'' {
            seq!['\'', '\\', '\'', '\'']
        } else {
            seq![b.last()]
        };
        assert(escape_single_quotes(a + b) == escape_single_quotes(a + b.drop_last()) + tail);
        assert(escape_single_quotes(b) == escape_single_quotes(b.drop_last()) + tail);
        assert(escape_single_quotes(a) + escape_single_quotes(b.drop_last()) + tail =~= escape_single_quotes(a)
            + (escape_single_quotes(b.drop_last()) + tail));
    }
}

/// Undoing the escapes gives back what was escaped.
pub proof fn lemma_unescape_escape(x: Seq<char>)
    ensures
        unescape_quotes(escape_single_quotes(x)) == Some(x),
    decreases x.len(),
{
    if x.len() == 0 {
        assert(escape_single_quotes(x) =~= Seq::<char>::empty());
    } else {
        let c = x[0];
        let rest = x.skip(1);
        assert(x =~= seq![c] + rest);
        lemma_escape_concat(seq![c], rest);
        assert(seq![c].drop_last() =~= Seq::<char>::empty());
        assert(escape_single_quotes(Seq::<char>::empty()) =~= Seq::<char>::empty());
        lemma_unescape_escape(rest);
        let e = escape_single_quotes(x);
        if c == '\'' {
            assert(escape_single_quotes(seq![c]) =~= seq!['\'', '\\', '\'', '\'']);
            assert(e.skip(4) =~= escape_single_quotes(rest));
            assert(seq!['\''] + rest =~= x);
        } else {
            assert(escape_single_quotes(seq![c]) =~= seq![c]);
            assert(e.skip(1) =~= escape_single_quotes(rest));
            assert(seq![c] + rest =~= x);
        }
    }
}

/// Escaping adds no line break.
pub proof fn lemma_escape_no_break(x: Seq<char>)
    requires
        !x.contains('\n'),
    ensures
        !(seq!['\''] + escape_single_quotes(x) + seq!['\'']).contains('\n'),
    decreases x.len(),
{
    if x.len() > 0 {
        assert(!x.drop_last().contains('\n')) by {
            if x.drop_last().contains('\n') {
                let i = choose|i: int| 0 <= i < x.drop_last().len() && x.drop_last()[i] == '\n';
                assert(x[i] == '\n');
            }
        }
        lemma_escape_no_break(x.drop_last());
        assert(x.last() != '\n') by {
            assert(x[x.len() - 1] == x.last());
        }
        let w = seq!['\''] + escape_single_quotes(x) + seq!['\''];
        let w0 = seq!['\''] + escape_single_quotes(x.drop_last()) + seq!['\''];
        if w.contains('\n') {
            let i = choose|i: int| 0 <= i < w.len() && w[i] == '\n';
            let n0 = escape_single_quotes(x.drop_last()).len();
            if 1 <= i < n0 + 1 {
                assert(w0[i] == w[i]);
            }
        }
    }
}

/// A value that the edit text gives back as it was: any value a shell word
/// must quote, and one it leaves bare that neither starts nor ends with
/// whitespace (a line's value is read trimmed).
pub open spec fn edit_keeps(x: Seq<char>) -> bool {
    !needs_quoting(x) ==> (x.len() == 0 || (!is_space(x[0]) && !is_space(x.last())))
}

/// A sequence whose ends are not whitespace is its own trim.
proof fn lemma_trim_plain(s: Seq<char>)
    requires
        s.len() > 0 ==> !is_space(s[0]) && !is_space(s.last()),
    ensures
        trim(s) == s,
{
    lemma_trim_by_range(s, |c: char| is_space(c), 0, s.len() as int);
    assert(s.subrange(0, s.len() as int) =~= s);
}

/// A value is written single-quoted exactly when it holds a character a
/// shell reading a dotenv line would not take literally: space, tab, line
/// feed, carriage return, `"`, `'`, `#`, `$`, `` ` `` or `\`. A quoted value
/// reads back exactly (each `'\''` standing for one `'`); any other value is
/// written as it is.
pub proof fn lemma_value_quoted_when_special(v: Seq<char>)
    ensures
        (exists|i: int| 0 <= i < v.len() && {
            let c = #[trigger] v[i];
            c == ' ' || c == '\t' || c == '\n' || c == '\r' || c == '"' || c == '\'' || c == '#' || c == '$' || c == '`'
                || c == '\\'
        }) ==> {
            let w = shell_value(v);
            &&& w.len() >= 2
            &&& w[0] == '\''
            &&& w.last() == '\''
            &&& unescape_quotes(w.subrange(1, w.len() - 1)) == Some(v)
        },
        !(exists|i: int| 0 <= i < v.len() && {
            let c = #[trigger] v[i];
            c == ' ' || c == '\t' || c == '\n' || c == '\r' || c == '"' || c == '\'' || c == '#' || c == '$' || c == '`'
                || c == '\\'
        }) ==> shell_value(v) == v,
{
    if exists|i: int| 0 <= i < v.len() && {
        let c = #[trigger] v[i];
        c == ' ' || c == '\t' || c == '\n' || c == '\r' || c == '"' || c == '\'' || c == '#' || c == '$' || c == '`'
            || c == '\\'
    } {
        let i = choose|i: int| 0 <= i < v.len() && {
            let c = #[trigger] v[i];
            c == ' ' || c == '\t' || c == '\n' || c == '\r' || c == '"' || c == '\'' || c == '#' || c == '$' || c == '`'
                || c == '\\'
        };
        assert(is_shell_special(v[i]));
        assert(needs_quoting(v));
        let e = escape_single_quotes(v);
        let w = shell_value(v);
        assert(w == seq!['\''] + e + seq!['\'']);
        assert(w.subrange(1, w.len() - 1) =~= e);
        lemma_unescape_escape(v);
    } else {
        if needs_quoting(v) {
            let i = choose|i: int| 0 <= i < v.len() && is_shell_special(#[trigger] v[i]);
            assert(is_shell_special(v[i]));
        }
    }
}

/// Text without a line break, after text that ends a line, adds nothing
/// but the line in progress.
pub(crate) proof fn lemma_lines_no_break(s: Seq<char>, l: Seq<char>)
    requires
        lines_state(s).1 == Seq::<char>::empty(),
        !l.contains('\n'),
    ensures
        lines_state(s + l) == (lines_state(s).0, l),
    decreases l.len(),
{
    if l.len() == 0 {
        assert(s + l =~= s);
    } else {
        assert(!l.drop_last().contains('\n')) by {
            if l.drop_last().contains('\n') {
                let i = choose|i: int| 0 <= i < l.drop_last().len() && l.drop_last()[i] == '\n';
                assert(l[i] == '\n');
            }
        }
        lemma_lines_no_break(s, l.drop_last());
        assert((s + l).drop_last() =~= s + l.drop_last());
        assert((s + l).last() == l.last());
        assert(l.last() != '\n') by {
            assert(l[l.len() - 1] == l.last());
        }
        assert(l.drop_last().push(l.last()) =~= l);
    }
}

/// A line and its ending, after text that ends a line, add that line.
pub(crate) proof fn lemma_lines_add_line(s: Seq<char>, l: Seq<char>)
    requires
        lines_state(s).1 == Seq::<char>::empty(),
        !l.contains('\n'),
    ensures
        lines_state(s + l + seq!['\n']) == (lines_state(s).0.push(strip_cr(l)), Seq::<char>::empty()),
{
    lemma_lines_no_break(s, l);
    assert((s + l + seq!['\n']).drop_last() =~= s + l);
}

/// What trimming leaves neither starts nor ends with whitespace.
proof fn lemma_trim_start_first(s: Seq<char>)
    ensures
        trim_start_by(s, |c: char| is_space(c)).len() > 0 ==> !is_space(trim_start_by(s, |c: char| is_space(c))[0]),
    decreases s.len(),
{
    if s.len() > 0 && is_space(s[0]) {
        lemma_trim_start_first(s.drop_first());
    }
}

proof fn lemma_trim_end_ends(s: Seq<char>)
    ensures
        ({
            let r = trim_end_by(s, |c: char| is_space(c));
            &&& r.len() <= s.len()
            &&& r == s.take(r.len() as int)
            &&& r.len() > 0 ==> !is_space(r.last())
        }),
    decreases s.len(),
{
    if s.len() > 0 && is_space(s.last()) {
        lemma_trim_end_ends(s.drop_last());
        let r = trim_end_by(s.drop_last(), |c: char| is_space(c));
        assert(s.drop_last().take(r.len() as int) =~= s.take(r.len() as int));
    } else {
        assert(s.take(s.len() as int) =~= s);
    }
}

/// Stripping from the front drops a run of characters that satisfy `p`, up
/// to the first one that does not.
proof fn lemma_trim_start_drops(s: Seq<char>, p: spec_fn(char) -> bool)
    ensures
        ({
            let r = trim_start_by(s, p);
            &&& r.len() <= s.len()
            &&& r == s.skip(s.len() - r.len())
            &&& forall|j: int| 0 <= j < s.len() - r.len() ==> p(#[trigger] s[j])
            &&& r.len() > 0 ==> !p(r[0])
        }),
    decreases s.len(),
{
    if s.len() > 0 && p(s[0]) {
        lemma_trim_start_drops(s.drop_first(), p);
        let r = trim_start_by(s.drop_first(), p);
        assert(s.drop_first().skip(s.drop_first().len() - r.len()) =~= s.skip(s.len() - r.len()));
        assert forall|j: int| 0 <= j < s.len() - r.len() implies p(#[trigger] s[j]) by {
            if j > 0 {
                assert(s[j] == s.drop_first()[j - 1]);
            }
        }
    } else {
        assert(s.skip(0) =~= s);
    }
}

/// Stripping from the back drops a run of characters that satisfy `p`, back
/// to the last one that does not.
proof fn lemma_trim_end_drops(s: Seq<char>, p: spec_fn(char) -> bool)
    ensures
        ({
            let r = trim_end_by(s, p);
            &&& r.len() <= s.len()
            &&& r == s.take(r.len() as int)
            &&& forall|j: int| r.len() <= j < s.len() ==> p(#[trigger] s[j])
            &&& r.len() > 0 ==> !p(r.last())
        }),
    decreases s.len(),
{
    if s.len() > 0 && p(s.last()) {
        lemma_trim_end_drops(s.drop_last(), p);
        let r = trim_end_by(s.drop_last(), p);
        assert(s.drop_last().take(r.len() as int) =~= s.take(r.len() as int));
        assert forall|j: int| r.len() <= j < s.len() implies p(#[trigger] s[j]) by {
            if j < s.len() - 1 {
                assert(s[j] == s.drop_last()[j]);
            }
        }
    } else {
        assert(s.take(s.len() as int) =~= s);
    }
}

/// Taking the quotes off a value removes only `"` and `'` characters, and
/// only at its two ends: what is left is a stretch of the value that
/// neither starts nor ends with a quote, and everything before and after it
/// is a quote.
pub proof fn lemma_strip_quotes_shape(s: Seq<char>)
    ensures
        exists|start: int, end: int|
            {
                &&& 0 <= start <= end <= s.len()
                &&& strip_quotes(s) == s.subrange(start, end)
                &&& forall|j: int| 0 <= j < start ==> (#[trigger] s[j] == '"' || s[j] == '\'')
                &&& forall|j: int| end <= j < s.len() ==> (#[trigger] s[j] == '"' || s[j] == '\'')
                &&& end > start ==> s[start] != '"' && s[start] != '\'' && s[end - 1] != '"' && s[end
                    - 1] != '\''
            },
{
    let p = |c: char| is_quote(c);
    lemma_trim_start_drops(s, p);
    let u = trim_start_by(s, p);
    lemma_trim_end_drops(u, p);
    let r = trim_end_by(u, p);
    let start = s.len() - u.len();
    let end = start + r.len();
    assert(strip_quotes(s) == r);
    assert(r =~= s.subrange(start, end));
    assert forall|j: int| end <= j < s.len() implies (#[trigger] s[j] == '"' || s[j] == '\'') by {
        assert(s[j] == u[j - start]);
        assert(p(u[j - start]));
    }
    assert forall|j: int| 0 <= j < start implies (#[trigger] s[j] == '"' || s[j] == '\'') by {
        assert(p(s[j]));
    }
    if end > start {
        assert(r[0] == u[0]);
        assert(!p(r.last()));
        assert(r.last() == s[end - 1]);
    }
}

/// Trimming twice trims once.
pub proof fn lemma_trim_idempotent(s: Seq<char>)
    ensures
        trim(trim(s)) == trim(s),
{
    let u = trim_start_by(s, |c: char| is_space(c));
    lemma_trim_start_first(s);
    lemma_trim_end_ends(u);
    let t = trim(s);
    assert(t == trim_end_by(u, |c: char| is_space(c)));
    if t.len() > 0 {
        assert(t[0] == u[0]);
        assert(t.last() == t[t.len() - 1]);
    }
    lemma_trim_plain(t);
}

/// Reading one line of a dotenv file (with its line ending): a line that is
/// not blank or a comment and holds `=` gives exactly one assignment, of
/// the trimmed text before the first `=` (after an `export ` prefix) to the
/// trimmed text after it without its surrounding quotes, the empty value
/// included. It is a pair where that name is a valid variable name, and a
/// rejected name otherwise; any other line gives neither.
pub proof fn lemma_env_line_read(l: Seq<char>)
    requires
        !l.contains('\n'),
    ensures
        ({
            let t = trim(strip_cr(l));
            let body = if has_prefix(t, export_prefix()) {
                trim(t.skip(7))
            } else {
                t
            };
            let pairs = env_pairs(lines(l + seq!['\n']), false);
            let rejected = env_rejected(lines(l + seq!['\n']), false);
            if t.len() == 0 || t[0] == '#' {
                pairs.len() == 0 && rejected.len() == 0
            } else {
                match split_once(body, '=') {
                    None => pairs.len() == 0 && rejected.len() == 0,
                    Some((k, v)) => if valid_env_key(trim(k)) {
                        pairs == seq![(trim(k), strip_quotes(trim(v)))] && rejected.len() == 0
                    } else {
                        pairs.len() == 0 && rejected == seq![trim(k)]
                    },
                }
            }
        }),
{
    let e = Seq::<char>::empty();
    assert(lines_state(e) == (Seq::<Seq<char>>::empty(), e));
    lemma_lines_add_line(e, l);
    assert(e + l + seq!['\n'] =~= l + seq!['\n']);
    let x = strip_cr(l);
    assert(lines(l + seq!['\n']) =~= seq![x]);
    assert(seq![x].drop_last() =~= Seq::<Seq<char>>::empty());
    assert(seq![x].last() == x);
    lemma_trim_idempotent(x);
    let ls = seq![x];
    assert(env_pairs(Seq::<Seq<char>>::empty(), false) =~= Seq::<(Seq<char>, Seq<char>)>::empty());
    assert(env_rejected(Seq::<Seq<char>>::empty(), false) =~= Seq::<Seq<char>>::empty());
    assert(env_pairs(ls, false) == match line_assignment(x, false) {
        Some((k, v)) => if valid_env_key(k) {
            Seq::<(Seq<char>, Seq<char>)>::empty().push((k, v))
        } else {
            Seq::<(Seq<char>, Seq<char>)>::empty()
        },
        None => Seq::<(Seq<char>, Seq<char>)>::empty(),
    });
    assert(env_rejected(ls, false) == match line_assignment(x, false) {
        Some((k, v)) => if valid_env_key(k) {
            Seq::<Seq<char>>::empty()
        } else {
            Seq::<Seq<char>>::empty().push(k)
        },
        None => Seq::<Seq<char>>::empty(),
    });
}

/// A dotenv file is read line by line: adding a line to a file (that is
/// empty or ends with a line break) adds exactly what that line read alone
/// gives, after what the file gave; no line is dropped or merged with
/// another.
pub proof fn lemma_env_file_add_line(s: Seq<char>, l: Seq<char>)
    requires
        s.len() == 0 || s.last() == '\n',
        !l.contains('\n'),
    ensures
        env_pairs(lines(s + l + seq!['\n']), false) == env_pairs(lines(s), false) + env_pairs(
            lines(l + seq!['\n']),
            false,
        ),
        env_rejected(lines(s + l + seq!['\n']), false) == env_rejected(lines(s), false)
            + env_rejected(lines(l + seq!['\n']), false),
{
    let e = Seq::<char>::empty();
    if s.len() > 0 {
        assert(lines_state(s).1 == e);
    }
    lemma_lines_add_line(s, l);
    lemma_lines_add_line(e, l);
    assert(e + l + seq!['\n'] =~= l + seq!['\n']);
    let x = strip_cr(l);
    let ls = lines(s);
    assert(lines(s + l + seq!['\n']) == ls.push(x));
    assert(ls.push(x).drop_last() =~= ls);
    assert(lines(l + seq!['\n']) =~= seq![x]);
    assert(seq![x].drop_last() =~= Seq::<Seq<char>>::empty());
    assert(env_pairs(Seq::<Seq<char>>::empty(), false) =~= Seq::<(Seq<char>, Seq<char>)>::empty());
    assert(env_rejected(Seq::<Seq<char>>::empty(), false) =~= Seq::<Seq<char>>::empty());
    match line_assignment(x, false) {
        Some((k, v)) => {
            if valid_env_key(k) {
                assert(env_pairs(ls, false).push((k, v)) =~= env_pairs(ls, false) + seq![(k, v)]);
                assert(env_rejected(ls, false) =~= env_rejected(ls, false) + Seq::<Seq<char>>::empty());
            } else {
                assert(env_pairs(ls, false) =~= env_pairs(ls, false) + Seq::<(Seq<char>, Seq<char>)>::empty());
                assert(env_rejected(ls, false).push(k) =~= env_rejected(ls, false) + seq![k]);
            }
        },
        None => {
            assert(env_pairs(ls, false) =~= env_pairs(ls, false) + Seq::<(Seq<char>, Seq<char>)>::empty());
            assert(env_rejected(ls, false) =~= env_rejected(ls, false) + Seq::<Seq<char>>::empty());
        },
    }
}

/// Reading back a value the edit text wrote gives the value: the quoting of
/// `format_env_value` is undone exactly.
pub proof fn lemma_edit_value_roundtrip(x: Seq<char>)
    requires
        edit_keeps(x),
    ensures
        edit_value(trim(shell_value(x))) == x,
        shell_value(x).len() > 0 ==> !is_space(shell_value(x)[0]) && !is_space(shell_value(x).last()),
{
    let sv = shell_value(x);
    if needs_quoting(x) {
        let e = escape_single_quotes(x);
        assert(sv == seq!['\''] + e + seq!['\'']);
        assert(sv[0] == '\'');
        assert(sv.last() == '\'');
        lemma_trim_plain(sv);
        assert(sv.subrange(1, sv.len() - 1) =~= e);
        lemma_unescape_escape(x);
    } else {
        assert(sv == x);
        lemma_trim_plain(sv);
        if x.len() > 0 {
            assert(!is_shell_special(x[0]));
            assert(!is_shell_special(x[x.len() - 1]));
            assert(x.last() == x[x.len() - 1]);
            lemma_trim_by_range(x, |c: char| is_quote(c), 0, x.len() as int);
            assert(x.subrange(0, x.len() as int) =~= x);
        } else {
            lemma_trim_by_range(x, |c: char| is_quote(c), 0, 0);
            assert(x.subrange(0, 0) =~= x);
        }
    }
}

/// Reading back a line of the edit text (without its line ending) gives
/// its key and the value it was written from.
pub proof fn lemma_edit_line_roundtrip(k: Seq<char>, x: Seq<char>)
    requires
        valid_env_key(k),
        edit_keeps(x),
    ensures
        line_assignment(k + seq!['='] + shell_value(x), true) == Some((k, x)),
{
    let sv = shell_value(x);
    let line = k + seq!['='] + sv;
    lemma_edit_value_roundtrip(x);
    assert(line[0] == k[0]);
    assert(!is_space(k[0]));
    if sv.len() > 0 {
        assert(line.last() == sv.last());
    } else {
        assert(line.last() == '=');
    }
    lemma_trim_plain(line);
    assert(line[0] != '#');
    assert(!has_prefix(line, export_prefix())) by {
        if has_prefix(line, export_prefix()) {
            if k.len() >= 7 {
                assert(line[6] == k[6]);
                assert(line.take(7)[6] == ' ');
            } else {
                assert(line[k.len() as int] == '=');
                assert(line.take(7)[k.len() as int] == export_prefix()[k.len() as int]);
            }
        }
    }
    assert(is_first_index(line, '=', k.len() as int));
    crate::text::lemma_first_index_unique(line, '=', k.len() as int, choose|i: int| is_first_index(line, '=', i));
    assert(line.take(k.len() as int) =~= k);
    assert(line.skip(k.len() as int + 1) =~= sv);
    assert(k.last() == k[k.len() - 1]);
    lemma_trim_plain(k);
}

fn unescape_quotes_chars(s: &[char]) -> (r: Option<Vec<char>>)
    ensures
        match (r, unescape_quotes(s@)) {
            (Some(a), Some(b)) => a@ == b,
            (None, None) => true,
            _ => false,
        },
{
    let mut out: Vec<char> = Vec::new();
    let mut i: usize = 0;
    proof {
        assert(s@.skip(0) =~= s@);
        match unescape_quotes(s@) {
            Some(r) => {
                assert(out@ + r =~= r);
            },
            None => {},
        }
    }
    while i < s.len()
        invariant
            i <= s.len(),
            unescape_quotes(s@) == match unescape_quotes(s@.skip(i as int)) {
                Some(r) => Some(out@ + r),
                None => None::<Seq<char>>,
            },
        decreases s.len() - i,
    {
        let ghost rest = s@.skip(i as int);
        assert(rest[0] == s@[i as int]);
        if s[i] == '\'' {
            if s.len() - i > 3 && s[i + 1] == '\\' && s[i + 2] == '\'' && s[i + 3] == '\'' {
                assert(rest.skip(4) =~= s@.skip(i + 4));
                assert(out@.push('\'') =~= out@ + seq!['\'']);
                proof {
                    match unescape_quotes(rest.skip(4)) {
                        Some(r) => {
                            assert(out@ + (seq!['\''] + r) =~= out@.push('\'') + r);
                        },
                        None => {},
                    }
                }
                out.push('\'');
                i = i + 4;
            } else {
                return None;
            }
        } else {
            assert(rest.skip(1) =~= s@.skip(i + 1));
            proof {
                match unescape_quotes(rest.skip(1)) {
                    Some(r) => {
                        assert(out@ + (seq![s@[i as int]] + r) =~= out@.push(s@[i as int]) + r);
                    },
                    None => {},
                }
            }
            out.push(s[i]);
            i = i + 1;
        }
    }
    proof {
        assert(s@.skip(i as int) =~= Seq::<char>::empty());
        assert(out@ + seq![] =~= out@);
    }
    Some(out)
}

fn edit_value_chars(v: &[char]) -> (r: Vec<char>)
    ensures
        r@ == edit_value(v@),
{
    let n = v.len();
    if n >= 2 && v[0] == '\'' && v[n - 1] == '\'' {
        let inner = slice_range(v, 1, n - 1);
        match unescape_quotes_chars(inner.as_slice()) {
            Some(x) => {
                return x;
            },
            None => {},
        }
    }
    strip_quotes_chars(v)
}

/// The assignment a dotenv line holds, as (key, value), before the key is
/// checked: `None` for blank lines, comments and lines without `=`.
pub open spec fn line_assignment(line: Seq<char>, shell: bool) -> Option<(Seq<char>, Seq<char>)> {
    let t = trim(line);
    if t.len() == 0 || t[0] == '#' {
        None
    } else {
        let body = if has_prefix(t, export_prefix()) {
            trim(t.skip(7))
        } else {
            trim(t)
        };
        match split_once(body, '=') {
            None => None,
            Some((k, v)) => Some((trim(k), read_value(trim(v), shell))),
        }
    }
}

/// The pairs that the lines give whose key is valid, in order.
pub open spec fn env_pairs(ls: Seq<Seq<char>>, shell: bool) -> Seq<(Seq<char>, Seq<char>)>
    decreases ls.len(),
{
    if ls.len() == 0 {
        seq![]
    } else {
        let prev = env_pairs(ls.drop_last(), shell);
        match line_assignment(ls.last(), shell) {
            Some((k, v)) => if valid_env_key(k) {
                prev.push((k, v))
            } else {
                prev
            },
            None => prev,
        }
    }
}

/// The keys that the lines assign but that are not valid names, in order.
pub open spec fn env_rejected(ls: Seq<Seq<char>>, shell: bool) -> Seq<Seq<char>>
    decreases ls.len(),
{
    if ls.len() == 0 {
        seq![]
    } else {
        let prev = env_rejected(ls.drop_last(), shell);
        match line_assignment(ls.last(), shell) {
            Some((k, v)) => if valid_env_key(k) {
                prev
            } else {
                prev.push(k)
            },
            None => prev,
        }
    }
}

fn strip_quotes_chars(s: &[char]) -> (r: Vec<char>)
    ensures
        r@ == strip_quotes(s@),
{
    let ghost p = |c: char| is_quote(c);
    let mut start: usize = 0;
    while start < s.len() && (s[start] == '"' || s[start] == '\'')
        invariant
            start <= s.len(),
            p == (|c: char| is_quote(c)),
            forall|j: int| 0 <= j < start ==> p(#[trigger] s@[j]),
        decreases s.len() - start,
    {
        start = start + 1;
    }
    let mut end: usize = s.len();
    while end > start && (s[end - 1] == '"' || s[end - 1] == '\'')
        invariant
            start <= end <= s.len(),
            p == (|c: char| is_quote(c)),
            forall|j: int| end <= j < s.len() ==> p(#[trigger] s@[j]),
        decreases end - start,
    {
        end = end - 1;
    }
    proof {
        lemma_trim_by_range(s@, p, start as int, end as int);
    }
    slice_range(s, start, end)
}

/// The assignment that one line holds, before its key is checked.
fn parse_line(line: &[char], shell: bool) -> (r: Option<(Vec<char>, Vec<char>)>)
    ensures
        match (r, line_assignment(line@, shell)) {
            (Some((k, v)), Some((sk, sv))) => k@ == sk && v@ == sv,
            (None, None) => true,
            _ => false,
        },
{
    let t = trim_chars(line);
    if t.len() == 0 || t[0] == '#' {
        return None;
    }
    let prefix: Vec<char> = vec!['e', 'x', 'p', 'o', 'r', 't', ' '];
    assert(prefix@ == export_prefix());
    let body = if starts_with_chars(t.as_slice(), prefix.as_slice()) {
        let rest = slice_range(t.as_slice(), 7, t.len());
        assert(rest@ == t@.skip(7));
        trim_chars(rest.as_slice())
    } else {
        trim_chars(t.as_slice())
    };
    match split_once_chars(body.as_slice(), '=') {
        None => None,
        Some((k, v)) => {
            let key = trim_chars(k.as_slice());
            let tv = trim_chars(v.as_slice());
            let val = if shell {
                edit_value_chars(tv.as_slice())
            } else {
                strip_quotes_chars(tv.as_slice())
            };
            Some((key, val))
        },
    }
}

/// The view of a list of (key, value) strings.
pub open spec fn pairs_view(v: Seq<(String, String)>) -> Seq<(Seq<char>, Seq<char>)> {
    v.map_values(|p: (String, String)| (p.0@, p.1@))
}

/// The view of a list of strings.
pub open spec fn strings_view(v: Seq<String>) -> Seq<Seq<char>> {
    v.map_values(|s: String| s@)
}

/// Reads dotenv text: the `KEY=value` pairs with a valid key, in order, and
/// the keys that were skipped for being invalid names. Blank lines, comments
/// and lines without `=` are ignored; `export ` before a key is allowed;
/// whitespace around keys and values and quotes around values are removed.
pub fn parse_env_lines(raw: &str) -> (r: (Vec<(String, String)>, Vec<String>))
    ensures
        pairs_view(r.0@) == env_pairs(lines(raw@), false),
        strings_view(r.1@) == env_rejected(lines(raw@), false),
{
    parse_lines(raw, false)
}

/// Reads back the text offered for editing: as `parse_env_lines`, but each
/// value is read as the shell word `format_env_value` writes (a single-quoted
/// word is unquoted and its `'\''` escapes undone), so that a line left as
/// it was gives back the value it was written from.
pub fn parse_edit_lines(raw: &str) -> (r: (Vec<(String, String)>, Vec<String>))
    ensures
        pairs_view(r.0@) == env_pairs(lines(raw@), true),
        strings_view(r.1@) == env_rejected(lines(raw@), true),
{
    parse_lines(raw, true)
}

/// Reads dotenv lines, values read as shell words where `shell` holds.
fn parse_lines(raw: &str, shell: bool) -> (r: (Vec<(String, String)>, Vec<String>))
    ensures
        pairs_view(r.0@) == env_pairs(lines(raw@), shell),
        strings_view(r.1@) == env_rejected(lines(raw@), shell),
{
    let chars = chars_of(raw);
    let mut pairs: Vec<(String, String)> = Vec::new();
    let mut rejected: Vec<String> = Vec::new();
    let mut cur: Vec<char> = Vec::new();
    let ghost mut done: Seq<Seq<char>> = seq![];
    let mut i: usize = 0;
    while i < chars.len()
        invariant
            i <= chars.len(),
            chars@ == raw@,
            lines_state(chars@.take(i as int)) == (done, cur@),
            pairs_view(pairs@) == env_pairs(done, shell),
            strings_view(rejected@) == env_rejected(done, shell),
        decreases chars.len() - i,
    {
        let c = chars[i];
        assert(chars@.take(i + 1).drop_last() == chars@.take(i as int));
        if c == '\n' {
            let line = if cur.len() > 0 && cur[cur.len() - 1] == '\r' {
                slice_range(cur.as_slice(), 0, cur.len() - 1)
            } else {
                slice_range(cur.as_slice(), 0, cur.len())
            };
            assert(line@ == strip_cr(cur@));
            let ghost old_done = done;
            proof {
                done = done.push(line@);
                assert(done.drop_last() == old_done);
            }
            match parse_line(line.as_slice(), shell) {
                Some((k, v)) => {
                    let ks = string_from_chars(k.as_slice());
                    let vs = string_from_chars(v.as_slice());
                    if is_valid_env_key(ks.as_str()) {
                        pairs.push((ks, vs));
                        assert(pairs_view(pairs@) == pairs_view(pairs@.drop_last()).push((k@, v@)));
                    } else {
                        rejected.push(ks);
                        assert(strings_view(rejected@) == strings_view(rejected@.drop_last()).push(k@));
                    }
                },
                None => {},
            }
            cur = Vec::new();
        } else {
            cur.push(c);
        }
        i = i + 1;
    }
    assert(chars@.take(chars.len() as int) == chars@);
    if cur.len() > 0 {
        let ghost old_done = done;
        proof {
            done = done.push(cur@);
            assert(done.drop_last() == old_done);
        }
        match parse_line(cur.as_slice(), shell) {
            Some((k, v)) => {
                let ks = string_from_chars(k.as_slice());
                let vs = string_from_chars(v.as_slice());
                if is_valid_env_key(ks.as_str()) {
                    pairs.push((ks, vs));
                    assert(pairs_view(pairs@) == pairs_view(pairs@.drop_last()).push((k@, v@)));
                } else {
                    rejected.push(ks);
                    assert(strings_view(rejected@) == strings_view(rejected@.drop_last()).push(k@));
                }
            },
            None => {},
        }
    }
    (pairs, rejected)
}

} // verus!
