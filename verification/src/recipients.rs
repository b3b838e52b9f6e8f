//! Recipient public keys as text: which lines of pasted or fetched text are
//! age or SSH public keys, a recipient line without its comment, and the
//! public key of an age identity file.
use crate::env_file::lines;
use crate::gitconf::split_lines;
use crate::text::{chars_of, split_once, split_once_chars, string_from_chars, trim, trim_chars};
use vstd::prelude::*;

verus! {

/// Whether `age::x25519::Recipient` parses the text.
pub uninterp spec fn x25519_recipient_valid(s: Seq<char>) -> bool;

/// Whether `age::ssh::Recipient` parses the text.
pub uninterp spec fn ssh_recipient_valid(s: Seq<char>) -> bool;

/// `s.parse::<age::x25519::Recipient>().is_ok()`.
#[verifier::external_body]
fn parses_as_x25519(s: &str) -> (b: bool)
    ensures
        b == x25519_recipient_valid(s@),
{
    s.parse::<age::x25519::Recipient>().is_ok()
}

/// `s.parse::<age::ssh::Recipient>().is_ok()`.
#[verifier::external_body]
fn parses_as_ssh(s: &str) -> (b: bool)
    ensures
        b == ssh_recipient_valid(s@),
{
    s.parse::<age::ssh::Recipient>().is_ok()
}

/// A recipient key: an age X25519 key or an SSH public key.
pub open spec fn is_recipient(s: Seq<char>) -> bool {
    x25519_recipient_valid(s) || ssh_recipient_valid(s)
}

/// Whether a text is a recipient key (age X25519 or SSH).
pub fn is_recipient_key(s: &str) -> (b: bool)
    ensures
        b == is_recipient(s@),
{
    parses_as_x25519(s) || parses_as_ssh(s)
}

/// The recipient keys among the lines of a text, trimmed, in order: blank
/// lines and `#` comments skipped, and lines that are no key.
pub open spec fn valid_keys(ls: Seq<Seq<char>>) -> Seq<Seq<char>>
    decreases ls.len(),
{
    if ls.len() == 0 {
        seq![]
    } else {
        let t = trim(ls.last());
        let prev = valid_keys(ls.drop_last());
        if t.len() > 0 && t[0] != '#' && is_recipient(t) {
            prev.push(t)
        } else {
            prev
        }
    }
}

/// The recipient keys in a text; see `valid_keys`.
pub fn extract_valid_keys(raw: &str) -> (keys: Vec<String>)
    ensures
        keys@.map_values(|s: String| s@) == valid_keys(lines(raw@)),
{
    let c = chars_of(raw);
    let ls = split_lines(c.as_slice());
    let ghost lv = ls@.map_values(|l: Vec<char>| l@);
    let mut out: Vec<String> = Vec::new();
    let mut i: usize = 0;
    while i < ls.len()
        invariant
            i <= ls.len(),
            lv == ls@.map_values(|l: Vec<char>| l@),
            lv == lines(raw@),
            out@.map_values(|s: String| s@) == valid_keys(lv.take(i as int)),
        decreases ls.len() - i,
    {
        let t = trim_chars(ls[i].as_slice());
        proof {
            assert(lv.take(i + 1).drop_last() == lv.take(i as int));
            assert(lv.take(i + 1).last() == ls@[i as int]@);
        }
        if t.len() > 0 && t[0] != '#' {
            let ts = string_from_chars(t.as_slice());
            if is_recipient_key(ts.as_str()) {
                let ghost before = out@;
                out.push(ts);
                assert(out@.map_values(|s: String| s@) =~= before.map_values(|s: String| s@).push(t@));
            }
        }
        i = i + 1;
    }
    assert(lv.take(ls.len() as int) == lv);
    out
}

/// A recipient line without its `#` comment, trimmed.
pub open spec fn recipient_text(r: Seq<char>) -> Seq<char> {
    match split_once(r, '#') {
        Some((before, _)) => trim(before),
        None => trim(r),
    }
}

/// A recipient line without its `#` comment, trimmed.
pub fn clean_recipient(r: &str) -> (s: String)
    ensures
        s@ == recipient_text(r@),
{
    let c = chars_of(r);
    let part = match split_once_chars(c.as_slice(), '#') {
        Some((before, _)) => before,
        None => c,
    };
    let t = trim_chars(part.as_slice());
    string_from_chars(t.as_slice())
}


/// The public recipient of a text that parses as an age X25519 identity
/// (none where it does not parse).
pub uninterp spec fn x25519_identity_public(s: Seq<char>) -> Option<Seq<char>>;

/// `s.parse::<age::x25519::Identity>()`, then `to_public().to_string()`.
#[verifier::external_body]
fn identity_public(s: &str) -> (r: Option<String>)
    ensures
        match (r, x25519_identity_public(s@)) {
            (Some(a), Some(b)) => a@ == b,
            (None, None) => true,
            _ => false,
        },
{
    s.parse::<age::x25519::Identity>().ok().map(|id| id.to_public().to_string())
}

/// The public recipient of the first line (trimmed) that is an age
/// identity, if any.
pub open spec fn first_identity_public(ls: Seq<Seq<char>>) -> Option<Seq<char>>
    decreases ls.len(),
{
    if ls.len() == 0 {
        None
    } else {
        match x25519_identity_public(trim(ls[0])) {
            Some(p) => Some(p),
            None => first_identity_public(ls.drop_first()),
        }
    }
}

/// The recipient of an identity file's text: that of its first line that
/// is an age identity; see `first_identity_public`.
pub fn identity_file_recipient(contents: &str) -> (r: Option<String>)
    ensures
        match (r, first_identity_public(lines(contents@))) {
            (Some(a), Some(b)) => a@ == b,
            (None, None) => true,
            _ => false,
        },
{
    let c = chars_of(contents);
    let ls = split_lines(c.as_slice());
    let ghost lv = ls@.map_values(|l: Vec<char>| l@);
    assert(lv.skip(0) =~= lv);
    let mut i: usize = 0;
    while i < ls.len()
        invariant
            i <= ls.len(),
            lv == ls@.map_values(|l: Vec<char>| l@),
            lv == lines(contents@),
            first_identity_public(lv) == first_identity_public(lv.skip(i as int)),
        decreases ls.len() - i,
    {
        let t = trim_chars(ls[i].as_slice());
        let ts = string_from_chars(t.as_slice());
        proof {
            assert(lv.skip(i as int)[0] == ls@[i as int]@);
            assert(lv.skip(i as int).drop_first() =~= lv.skip(i + 1));
        }
        match identity_public(ts.as_str()) {
            Some(p) => {
                return Some(p);
            },
            None => {},
        }
        i = i + 1;
    }
    proof {
        assert(lv.skip(ls.len() as int) =~= Seq::<Seq<char>>::empty());
    }
    None
}

/// The kind of a recipient key.
#[derive(Clone, Copy, Debug)]
pub enum RecipientKind {
    /// An age X25519 key (`age1...`).
    X25519,
    /// An SSH public key.
    Ssh,
}

/// Why a list of recipients cannot seal an envelope.
#[derive(Debug)]
pub enum RecipientError {
    /// This recipient line is no key.
    Invalid(String),
    /// The list is empty.
    NoRecipients,
}

/// The kind of key a recipient line holds, once its comment is dropped:
/// an age key where it parses as one, else an SSH key, else none.
pub open spec fn recipient_kind(r: Seq<char>) -> Option<RecipientKind> {
    let c = recipient_text(r);
    if x25519_recipient_valid(c) {
        Some(RecipientKind::X25519)
    } else if ssh_recipient_valid(c) {
        Some(RecipientKind::Ssh)
    } else {
        None
    }
}

/// What sealing for a list of recipient lines uses: each line's kind and
/// key text, in order; the first line that is no key, else an empty list,
/// is refused.
pub fn plan_recipients(rs: &[String]) -> (r: Result<Vec<(RecipientKind, String)>, RecipientError>)
    ensures
        match r {
            Ok(v) => {
                &&& rs@.len() > 0
                &&& v@.len() == rs@.len()
                &&& forall|i: int| 0 <= i < rs@.len() ==> recipient_kind(#[trigger] rs@[i]@) == Some(v@[i].0)
                    && v@[i].1@ == recipient_text(rs@[i]@)
            },
            Err(RecipientError::Invalid(x)) => exists|i: int| {
                &&& 0 <= i < rs@.len()
                &&& #[trigger] recipient_kind(rs@[i]@) is None
                &&& x@ == rs@[i]@
                &&& forall|j: int| 0 <= j < i ==> recipient_kind(#[trigger] rs@[j]@) is Some
            },
            Err(RecipientError::NoRecipients) => rs@.len() == 0,
        },
{
    let mut out: Vec<(RecipientKind, String)> = Vec::new();
    let mut i: usize = 0;
    while i < rs.len()
        invariant
            i <= rs.len(),
            out@.len() == i,
            forall|j: int| 0 <= j < i ==> recipient_kind(#[trigger] rs@[j]@) == Some(out@[j].0)
                && out@[j].1@ == recipient_text(rs@[j]@),
        decreases rs.len() - i,
    {
        let clean = clean_recipient(rs[i].as_str());
        if parses_as_x25519(clean.as_str()) {
            out.push((RecipientKind::X25519, clean));
        } else if parses_as_ssh(clean.as_str()) {
            out.push((RecipientKind::Ssh, clean));
        } else {
            let x = rs[i].clone();
            assert(recipient_kind(rs@[i as int]@) is None);
            return Err(RecipientError::Invalid(x));
        }
        i = i + 1;
    }
    if rs.len() == 0 {
        return Err(RecipientError::NoRecipients);
    }
    Ok(out)
}

} // verus!
