//! Session-cache scope strings: the scope of a (group, tag) pair is
//! `{master}_group_{group}_tag_{tag}`, and a scope is read back by splitting
//! at the first `_tag_` after the group marker.
use crate::crypto::append_chars;
use crate::text::{has_prefix, slice_range, starts_with_chars};
use vstd::prelude::*;

verus! {

/// The session scope of a tag within a group of the vault whose master scope is `master`.
pub open spec fn tag_scope_text(master: Seq<char>, group: Seq<char>, tag: Seq<char>) -> Seq<char> {
    master + group_marker() + group + tag_marker() + tag
}

pub open spec fn group_marker() -> Seq<char> {
    seq!['_', 'g', 'r', 'o', 'u', 'p', '_']
}

pub open spec fn tag_marker() -> Seq<char> {
    seq!['_', 't', 'a', 'g', '_']
}

/// The tag marker starts at position `i` of `s`.
pub open spec fn marker_at(s: Seq<char>, i: int) -> bool {
    0 <= i && i + 5 <= s.len() && s.subrange(i, i + 5) == tag_marker()
}

/// `i` is the first position of `s` where the tag marker starts.
pub open spec fn first_marker(s: Seq<char>, i: int) -> bool {
    &&& marker_at(s, i)
    &&& forall|j: int| 0 <= j < i ==> !marker_at(s, j)
}

/// Reading a scope string back: after the master scope and the group
/// marker, the group runs up to the first tag marker and the tag is the
/// rest; `None` where the string has no such shape.
pub open spec fn parse_scope_text(master: Seq<char>, s: Seq<char>) -> Option<(Seq<char>, Seq<char>)> {
    let prefix = master + group_marker();
    if !has_prefix(s, prefix) {
        None
    } else {
        let rest = s.skip(prefix.len() as int);
        if exists|i: int| first_marker(rest, i) {
            let i = choose|i: int| first_marker(rest, i);
            Some((rest.take(i), rest.skip(i + 5)))
        } else {
            None
        }
    }
}

/// A group name that its scope string gives back: no tag marker starts
/// inside it, not even one running on into the marker that follows it.
pub open spec fn group_scopable(group: Seq<char>) -> bool {
    forall|i: int| 0 <= i < group.len() ==> !marker_at(group + tag_marker(), i)
}

proof fn lemma_first_marker_unique(s: Seq<char>, i: int, k: int)
    requires
        first_marker(s, i),
        first_marker(s, k),
    ensures
        i == k,
{
    if i < k {
        assert(!marker_at(s, i));
    }
    if k < i {
        assert(!marker_at(s, k));
    }
}

/// Reading back the scope string of a (group, tag) pair gives the pair,
/// where no tag marker starts inside the group name.
pub proof fn lemma_parse_tag_scope(master: Seq<char>, group: Seq<char>, tag: Seq<char>)
    requires
        group_scopable(group),
    ensures
        parse_scope_text(master, tag_scope_text(master, group, tag)) == Some((group, tag)),
{
    let prefix = master + group_marker();
    let s = tag_scope_text(master, group, tag);
    let rest = group + tag_marker() + tag;
    assert(s =~= prefix + rest);
    assert(s.take(prefix.len() as int) =~= prefix);
    assert(s.skip(prefix.len() as int) =~= rest);
    let n = group.len() as int;
    assert(rest.subrange(n, n + 5) =~= tag_marker());
    assert forall|j: int| 0 <= j < n implies !marker_at(rest, j) by {
        let gm = group + tag_marker();
        assert(!marker_at(gm, j));
        if marker_at(rest, j) {
            assert(rest.subrange(j, j + 5) =~= gm.subrange(j, j + 5));
        }
    }
    assert(first_marker(rest, n));
    let k = choose|k: int| first_marker(rest, k);
    lemma_first_marker_unique(rest, n, k);
    assert(rest.take(n) =~= group);
    assert(rest.skip(n + 5) =~= tag);
}

/// The scope strings of distinct (group, tag) pairs differ, for group names
/// in which no tag marker starts.
pub proof fn lemma_tag_scope_injective(
    master: Seq<char>,
    g1: Seq<char>,
    t1: Seq<char>,
    g2: Seq<char>,
    t2: Seq<char>,
)
    requires
        group_scopable(g1),
        group_scopable(g2),
        tag_scope_text(master, g1, t1) == tag_scope_text(master, g2, t2),
    ensures
        g1 == g2,
        t1 == t2,
{
    lemma_parse_tag_scope(master, g1, t1);
    lemma_parse_tag_scope(master, g2, t2);
}

/// Whether the tag marker starts at position `i` of `s`.
fn marker_at_chars(s: &[char], i: usize) -> (b: bool)
    ensures
        b == marker_at(s@, i as int),
{
    if i > s.len() || s.len() - i < 5 {
        return false;
    }
    let b = s[i] == '_' && s[i + 1] == 't' && s[i + 2] == 'a' && s[i + 3] == 'g' && s[i + 4] == '_';
    proof {
        let w = s@.subrange(i as int, i + 5);
        if b {
            assert(w =~= tag_marker());
        } else {
            if w == tag_marker() {
                assert(w[0] == s@[i as int]);
                assert(w[1] == s@[i + 1]);
                assert(w[2] == s@[i + 2]);
                assert(w[3] == s@[i + 3]);
                assert(w[4] == s@[i + 4]);
            }
        }
    }
    b
}

/// Reads a scope string of the vault whose master scope is `master`: the
/// (group, tag) pair it names, or `None` where it is not such a string.
pub fn parse_scope_chars(master: &[char], s: &[char]) -> (r: Option<(Vec<char>, Vec<char>)>)
    ensures
        match (r, parse_scope_text(master@, s@)) {
            (Some((g, t)), Some((sg, st))) => g@ == sg && t@ == st,
            (None, None) => true,
            _ => false,
        },
{
    let mut prefix: Vec<char> = slice_range(master, 0, master.len());
    assert(master@.subrange(0, master@.len() as int) == master@);
    let gm: Vec<char> = vec!['_', 'g', 'r', 'o', 'u', 'p', '_'];
    append_chars(&mut prefix, gm.as_slice());
    assert(prefix@ == master@ + group_marker());
    if !starts_with_chars(s, prefix.as_slice()) {
        return None;
    }
    let rest = slice_range(s, prefix.len(), s.len());
    assert(rest@ == s@.skip(prefix@.len() as int));
    let mut i: usize = 0;
    while i < rest.len()
        invariant
            i <= rest.len(),
            forall|j: int| 0 <= j < i ==> !marker_at(rest@, j),
            has_prefix(s@, master@ + group_marker()),
            rest@ == s@.skip((master@ + group_marker()).len() as int),
        decreases rest.len() - i,
    {
        if marker_at_chars(rest.as_slice(), i) {
            proof {
                assert(first_marker(rest@, i as int));
                let k = choose|k: int| first_marker(rest@, k);
                lemma_first_marker_unique(rest@, i as int, k);
                assert(has_prefix(s@, master@ + group_marker()));
                assert(s@.skip((master@ + group_marker()).len() as int) == rest@);
            }
            let group = slice_range(rest.as_slice(), 0, i);
            let tag = slice_range(rest.as_slice(), i + 5, rest.len());
            assert(group@ == rest@.take(i as int));
            assert(tag@ == rest@.skip(i + 5));
            return Some((group, tag));
        }
        i = i + 1;
    }
    proof {
        assert(s@.skip((master@ + group_marker()).len() as int) == rest@);
        if exists|k: int| first_marker(rest@, k) {
            let k = choose|k: int| first_marker(rest@, k);
            assert(marker_at(rest@, k));
        }
    }
    None
}

} // verus!
