//! What `diff` shows of a vault without unlocking it: its groups, tags and
//! names, each value as a short fingerprint of its ciphertext.
use crate::crypto::{append_chars, sha256, sha256_digest};
use crate::hex::{encode_hex, hex_encode};
use crate::strmap::StrMap;
use crate::text::{chars_of, string_from_chars};
use crate::vault::{Entry, Group, Tag, Vault};
use vstd::prelude::*;

verus! {

/// The lists joined one after another.
pub open spec fn concat_all(s: Seq<Seq<Seq<char>>>) -> Seq<Seq<char>>
    decreases s.len(),
{
    if s.len() == 0 {
        seq![]
    } else {
        concat_all(s.drop_last()) + s.last()
    }
}

/// The line for one sealed value: its name and the first 8 bytes of the
/// SHA-256 of its ciphertext, in hex.
pub open spec fn fingerprint_line(name: Seq<char>, e: Entry) -> Seq<char> {
    seq![' ', ' '] + name + seq![
        ' ',
        '=',
        ' ',
        '<',
        'l',
        'o',
        'c',
        'k',
        'e',
        'd',
        ':',
        ' ',
        'r',
        'e',
        's',
        'e',
        'a',
        'l',
        '-',
        'f',
        'i',
        'n',
        'g',
        'e',
        'r',
        'p',
        'r',
        'i',
        'n',
        't',
        ':',
    ] + hex_encode(sha256(e.ciphertext@).take(8)) + seq!['>']
}

pub open spec fn scope_lines(es: Seq<(Seq<char>, Entry)>) -> Seq<Seq<char>> {
    es.map_values(|p: (Seq<char>, Entry)| fingerprint_line(p.0, p.1))
}

/// A tag's header and its values.
pub open spec fn tag_block(t: Seq<char>, tag: Tag) -> Seq<Seq<char>> {
    seq![seq![' ', ' ', '['] + t + seq![']']] + scope_lines(tag.entries.entries())
}

/// A group's header, its base values, then each tag's block.
pub open spec fn group_block(g: Seq<char>, grp: Group) -> Seq<Seq<char>> {
    seq![
        seq!['#', ' ', 'G', 'r', 'o', 'u', 'p', ':', ' '] + g,
        seq!['\n', ' ', ' ', '[', 'b', 'a', 's', 'e', ']'],
    ] + scope_lines(grp.base.entries()) + concat_all(
        grp.tags.entries().map_values(|p: (Seq<char>, Tag)| tag_block(p.0, p.1)),
    )
}

/// The lines `diff` prints for a vault, group by group in ascending order.
pub open spec fn diff_lines_of(v: Vault) -> Seq<Seq<char>> {
    concat_all(v.entries.entries().map_values(|p: (Seq<char>, Group)| group_block(p.0, p.1)))
}

fn fingerprint(name: &str, e: &Entry) -> (line: String)
    ensures
        line@ == fingerprint_line(name@, *e),
{
    let d = sha256_digest(e.ciphertext.as_slice());
    let mut first: Vec<u8> = Vec::new();
    let mut i: usize = 0;
    while i < 8
        invariant
            i <= 8,
            first@ == d@.take(i as int),
        decreases 8 - i,
    {
        first.push(d[i]);
        i = i + 1;
        assert(first@ == d@.take(i as int));
    }
    let h = encode_hex(first.as_slice());
    let mut out: Vec<char> = vec![' ', ' '];
    let nc = chars_of(name);
    append_chars(&mut out, nc.as_slice());
    let mid: Vec<char> = vec![
        ' ',
        '=',
        ' ',
        '<',
        'l',
        'o',
        'c',
        'k',
        'e',
        'd',
        ':',
        ' ',
        'r',
        'e',
        's',
        'e',
        'a',
        'l',
        '-',
        'f',
        'i',
        'n',
        'g',
        'e',
        'r',
        'p',
        'r',
        'i',
        'n',
        't',
        ':',
    ];
    append_chars(&mut out, mid.as_slice());
    let hc = chars_of(h.as_str());
    append_chars(&mut out, hc.as_slice());
    out.push('>');
    string_from_chars(out.as_slice())
}

fn push_scope_lines(lines: &mut Vec<String>, es: &StrMap<Entry>)
    ensures
        final(lines)@.map_values(|s: String| s@) == old(lines)@.map_values(|s: String| s@)
            + scope_lines(es.entries()),
{
    let ghost l0 = lines@.map_values(|s: String| s@);
    let n = es.len();
    let mut i: usize = 0;
    while i < n
        invariant
            i <= n,
            n == es.entries().len(),
            lines@.map_values(|s: String| s@) == l0 + scope_lines(es.entries().take(i as int)),
        decreases n - i,
    {
        let k = es.key_at(i);
        let e = es.value_at(i);
        let ghost before = lines@;
        lines.push(fingerprint(k.as_str(), e));
        proof {
            assert(lines@.map_values(|s: String| s@) =~= before.map_values(|s: String| s@).push(
                fingerprint_line(k@, *e),
            ));
            assert(scope_lines(es.entries().take(i + 1)) =~= scope_lines(es.entries().take(i as int)).push(
                fingerprint_line(k@, *e),
            ));
        }
        i = i + 1;
    }
    assert(es.entries().take(n as int) == es.entries());
}

fn push_line(lines: &mut Vec<String>, l: Vec<char>)
    ensures
        final(lines)@.map_values(|s: String| s@) == old(lines)@.map_values(|s: String| s@).push(l@),
{
    let ghost before = lines@;
    lines.push(string_from_chars(l.as_slice()));
    assert(lines@.map_values(|s: String| s@) =~= before.map_values(|s: String| s@).push(l@));
}

fn push_group_block(lines: &mut Vec<String>, g: &str, grp: &Group)
    ensures
        final(lines)@.map_values(|s: String| s@) == old(lines)@.map_values(|s: String| s@)
            + group_block(g@, *grp),
{
    let ghost l0 = lines@.map_values(|s: String| s@);
    let mut h: Vec<char> = vec!['#', ' ', 'G', 'r', 'o', 'u', 'p', ':', ' '];
    let gc = chars_of(g);
    append_chars(&mut h, gc.as_slice());
    push_line(lines, h);
    let b: Vec<char> = vec!['\n', ' ', ' ', '[', 'b', 'a', 's', 'e', ']'];
    push_line(lines, b);
    push_scope_lines(lines, &grp.base);
    let ghost l1 = lines@.map_values(|s: String| s@);
    let ghost blocks = grp.tags.entries().map_values(|p: (Seq<char>, Tag)| tag_block(p.0, p.1));
    let n = grp.tags.len();
    let mut i: usize = 0;
    while i < n
        invariant
            i <= n,
            n == grp.tags.entries().len(),
            blocks == grp.tags.entries().map_values(|p: (Seq<char>, Tag)| tag_block(p.0, p.1)),
            lines@.map_values(|s: String| s@) == l1 + concat_all(blocks.take(i as int)),
        decreases n - i,
    {
        let t = grp.tags.key_at(i);
        let tg = grp.tags.value_at(i);
        let ghost before = lines@.map_values(|s: String| s@);
        let mut th: Vec<char> = vec![' ', ' ', '['];
        let tc = chars_of(t.as_str());
        append_chars(&mut th, tc.as_slice());
        th.push(']');
        let ghost hdr = th@;
        push_line(lines, th);
        push_scope_lines(lines, &tg.entries);
        proof {
            assert(blocks.take(i + 1).drop_last() == blocks.take(i as int));
            assert(blocks[i as int] == tag_block(t@, *tg));
            assert(hdr == seq![' ', ' ', '['] + t@ + seq![']']);
            assert(lines@.map_values(|s: String| s@) == before.push(hdr) + scope_lines(tg.entries.entries()));
            assert(before.push(hdr) + scope_lines(tg.entries.entries()) =~= before + tag_block(t@, *tg));
            assert(concat_all(blocks.take(i + 1)) == concat_all(blocks.take(i as int)) + blocks[i as int]);
            assert(lines@.map_values(|s: String| s@) =~= l1 + concat_all(blocks.take(i + 1)));
        }
        i = i + 1;
    }
    proof {
        assert(blocks.take(n as int) == blocks);
        assert(lines@.map_values(|s: String| s@) =~= l0 + group_block(g@, *grp));
    }
}

impl Vault {
    /// The lines `diff` prints: per group, its name, its base values and
    /// each tag with its values, every value shown as a fingerprint.
    pub fn diff_lines(&self) -> (lines: Vec<String>)
        ensures
            lines@.map_values(|s: String| s@) == diff_lines_of(*self),
    {
        let mut lines: Vec<String> = Vec::new();
        let ghost blocks = self.entries.entries().map_values(
            |p: (Seq<char>, Group)| group_block(p.0, p.1),
        );
        let n = self.entries.len();
        proof {
            assert(blocks.take(0) =~= Seq::<Seq<Seq<char>>>::empty());
        }
        let mut i: usize = 0;
        while i < n
            invariant
                i <= n,
                n == self.entries.entries().len(),
                blocks == self.entries.entries().map_values(
                    |p: (Seq<char>, Group)| group_block(p.0, p.1),
                ),
                lines@.map_values(|s: String| s@) == concat_all(blocks.take(i as int)),
            decreases n - i,
        {
            let g = self.entries.key_at(i);
            let grp = self.entries.value_at(i);
            push_group_block(&mut lines, g.as_str(), grp);
            proof {
                assert(blocks.take(i + 1).drop_last() == blocks.take(i as int));
                assert(blocks[i as int] == group_block(g@, *grp));
            }
            i = i + 1;
        }
        proof {
            assert(blocks.take(n as int) == blocks);
        }
        lines
    }
}

} // verus!
