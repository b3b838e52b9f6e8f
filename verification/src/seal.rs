//! The vault's integrity seal: an Ed25519 signature over the compact JSON
//! text of its contents (with an empty signature field).
use crate::crypto::{
    array32, ed25519_public_key, ed25519_signature, ed25519_valid_public_key, ed25519_verifies,
    verify_signature, SigningKey,
};
use crate::error::{ErrorModel, VaultError};
use crate::hex::{encode_hex, hex_encode};
use crate::json::{
    join, json_byte_array, json_member, json_object, json_string, push_json_bytes,
    push_json_string,
};
use crate::path_order::{in_path_order, links_in_path_order, pair_views, view_pairs};
use crate::strmap::StrMap;
use crate::text::{chars_of, string_from_chars};
use crate::vault::{Entry, Group, Tag, Vault};
use vstd::prelude::*;
use vstd::utf8::encode_utf8;

verus! {

/// An entry as text: `{hex(nonce)}:{hex(ciphertext)}`.
pub open spec fn entry_text(e: Entry) -> Seq<char> {
    hex_encode(e.nonce@) + seq![':'] + hex_encode(e.ciphertext@)
}

pub open spec fn entry_json(e: Entry) -> Seq<char> {
    json_string(entry_text(e))
}

pub open spec fn entries_json(m: StrMap<Entry>) -> Seq<char> {
    json_object(m.entries().map_values(|p: (Seq<char>, Entry)| json_member(p.0, entry_json(p.1))))
}

pub open spec fn k_salt() -> Seq<char> {
    seq!['s', 'a', 'l', 't']
}

pub open spec fn k_wrapped_tag_dek() -> Seq<char> {
    seq!['w', 'r', 'a', 'p', 'p', 'e', 'd', '_', 't', 'a', 'g', '_', 'd', 'e', 'k']
}

pub open spec fn k_entries() -> Seq<char> {
    seq!['e', 'n', 't', 'r', 'i', 'e', 's']
}

pub open spec fn k_link() -> Seq<char> {
    seq!['l', 'i', 'n', 'k']
}

pub open spec fn k_base() -> Seq<char> {
    seq!['b', 'a', 's', 'e']
}

pub open spec fn k_tags() -> Seq<char> {
    seq!['t', 'a', 'g', 's']
}

pub open spec fn k_public_key() -> Seq<char> {
    seq!['p', 'u', 'b', 'l', 'i', 'c', '_', 'k', 'e', 'y']
}

pub open spec fn k_wrapped_master_dek() -> Seq<char> {
    seq!['w', 'r', 'a', 'p', 'p', 'e', 'd', '_', 'm', 'a', 's', 't', 'e', 'r', '_', 'd', 'e', 'k']
}

pub open spec fn k_link_index() -> Seq<char> {
    seq!['l', 'i', 'n', 'k', '_', 'i', 'n', 'd', 'e', 'x']
}

pub open spec fn k_signature() -> Seq<char> {
    seq!['s', 'i', 'g', 'n', 'a', 't', 'u', 'r', 'e']
}

/// A tag's members; an absent salt or wrapped key is left out.
pub open spec fn tag_members(t: Tag) -> Seq<Seq<char>> {
    let s = match t.salt {
        Some(b) => seq![json_member(k_salt(), json_string(hex_encode(b@)))],
        None => seq![],
    };
    let w = match t.wrapped_tag_dek {
        Some(e) => seq![json_member(k_wrapped_tag_dek(), entry_json(e))],
        None => seq![],
    };
    s + w + seq![json_member(k_entries(), entries_json(t.entries))]
}

pub open spec fn tags_json(m: StrMap<Tag>) -> Seq<char> {
    json_object(
        m.entries().map_values(|p: (Seq<char>, Tag)| json_member(p.0, json_object(tag_members(p.1)))),
    )
}

pub open spec fn group_json(g: Group) -> Seq<char> {
    json_object(
        seq![
            json_member(k_link(), json_string(g.link@)),
            json_member(k_base(), entries_json(g.base)),
            json_member(k_tags(), tags_json(g.tags)),
        ],
    )
}

pub open spec fn groups_json(m: StrMap<Group>) -> Seq<char> {
    json_object(m.entries().map_values(|p: (Seq<char>, Group)| json_member(p.0, group_json(p.1))))
}

/// The linked directories, in the order std's `Path` compares them (see
/// `path_order`), as `BTreeMap<PathBuf, String>` serialises them.
pub open spec fn links_json(m: StrMap<String>) -> Seq<char> {
    json_object(
        in_path_order(pair_views(m)).map_values(
            |p: (Seq<char>, Seq<char>)| json_member(p.0, json_string(p.1)),
        ),
    )
}

/// The JSON text that the signature covers.
pub open spec fn signable_text(v: Vault) -> Seq<char> {
    json_object(
        seq![
            json_member(k_salt(), json_byte_array(v.salt@)),
            json_member(k_public_key(), json_byte_array(v.public_key@)),
            json_member(k_wrapped_master_dek(), entry_json(v.wrapped_master_dek)),
            json_member(k_link_index(), links_json(v.link_index)),
            json_member(k_entries(), groups_json(v.entries)),
            json_member(k_signature(), json_byte_array(seq![])),
        ],
    )
}

/// The bytes that the signature covers.
pub open spec fn signable_bytes(v: Vault) -> Seq<u8> {
    encode_utf8(signable_text(v))
}

proof fn lemma_join_step(items: Seq<Seq<char>>, i: int)
    requires
        0 <= i < items.len(),
    ensures
        join(items.take(i + 1)) == if i == 0 {
            items[0]
        } else {
            join(items.take(i)) + seq![','] + items[i]
        },
{
    assert(items.take(i + 1).drop_last() == items.take(i));
    if i == 0 {
        assert(items.take(1)[0] == items[0]);
    }
}

proof fn lemma_join_push_last(items: Seq<Seq<char>>, x: Seq<char>)
    ensures
        join(items.push(x)) == if items.len() == 0 {
            x
        } else {
            join(items) + seq![','] + x
        },
{
    assert(items.push(x).drop_last() == items);
    if items.len() == 0 {
        assert(items.push(x)[0] == x);
    }
}

/// Appends `"key":` for a key given as characters.
fn push_key(out: &mut Vec<char>, key: Vec<char>)
    ensures
        final(out)@ == old(out)@ + json_string(key@) + seq![':'],
{
    let k = string_from_chars(key.as_slice());
    push_json_string(out, k.as_str());
    out.push(':');
}

/// An entry as text: `{hex(nonce)}:{hex(ciphertext)}`.
pub fn entry_to_text(e: &Entry) -> (s: String)
    ensures
        s@ == entry_text(*e),
{
    let n = encode_hex(e.nonce.as_slice());
    let c = encode_hex(e.ciphertext.as_slice());
    let mut v = chars_of(n.as_str());
    v.push(':');
    let cc = chars_of(c.as_str());
    crate::crypto::append_chars(&mut v, cc.as_slice());
    string_from_chars(v.as_slice())
}

fn push_entry_json(out: &mut Vec<char>, e: &Entry)
    ensures
        final(out)@ == old(out)@ + entry_json(*e),
{
    let t = entry_to_text(e);
    push_json_string(out, t.as_str());
}

fn push_entries_json(out: &mut Vec<char>, m: &StrMap<Entry>)
    ensures
        final(out)@ == old(out)@ + entries_json(*m),
{
    let ghost o0 = out@;
    let ghost items = m.entries().map_values(
        |p: (Seq<char>, Entry)| json_member(p.0, entry_json(p.1)),
    );
    out.push('{');
    let mut i: usize = 0;
    while i < m.len()
        invariant
            i <= m.entries().len(),
            items == m.entries().map_values(
                |p: (Seq<char>, Entry)| json_member(p.0, entry_json(p.1)),
            ),
            out@ == o0 + seq!['{'] + join(items.take(i as int)),
        decreases m.entries().len() - i,
    {
        proof {
            lemma_join_step(items, i as int);
        }
        if i > 0 {
            out.push(',');
        }
        let ghost before = out@;
        push_json_string(out, m.key_at(i).as_str());
        out.push(':');
        push_entry_json(out, m.value_at(i));
        assert(out@ == before + items[i as int]);
        i = i + 1;
    }
    assert(items.take(m.entries().len() as int) == items);
    out.push('}');
}

#[verifier::rlimit(40)]
fn push_tag_json(out: &mut Vec<char>, t: &Tag)
    ensures
        final(out)@ == old(out)@ + json_object(tag_members(*t)),
{
    let ghost o0 = out@;
    let ghost ms = tag_members(*t);
    out.push('{');
    let mut first = true;
    let ghost mut done: Seq<Seq<char>> = seq![];
    if let Some(s) = &t.salt {
        push_key(out, vec!['s', 'a', 'l', 't']);
        let h = encode_hex(s.as_slice());
        push_json_string(out, h.as_str());
        proof {
            done = seq![json_member(k_salt(), json_string(hex_encode(s@)))];
            assert(join(done) == done[0]);
        }
        first = false;
    }
    assert(out@ == o0 + seq!['{'] + join(done));
    let ghost d1 = done;
    if let Some(w) = &t.wrapped_tag_dek {
        if !first {
            out.push(',');
        }
        push_key(
            out,
            vec!['w', 'r', 'a', 'p', 'p', 'e', 'd', '_', 't', 'a', 'g', '_', 'd', 'e', 'k'],
        );
        push_entry_json(out, w);
        proof {
            let m = json_member(k_wrapped_tag_dek(), entry_json(*w));
            done = d1.push(m);
            assert(done.drop_last() == d1);
        }
        first = false;
    }
    assert(out@ == o0 + seq!['{'] + join(done));
    let ghost d2 = done;
    if !first {
        out.push(',');
    }
    push_key(out, vec!['e', 'n', 't', 'r', 'i', 'e', 's']);
    push_entries_json(out, &t.entries);
    proof {
        done = d2.push(json_member(k_entries(), entries_json(t.entries)));
        assert(done.drop_last() == d2);
        assert(done == ms);
    }
    out.push('}');
}

fn push_tags_json(out: &mut Vec<char>, m: &StrMap<Tag>)
    ensures
        final(out)@ == old(out)@ + tags_json(*m),
{
    let ghost o0 = out@;
    let ghost items = m.entries().map_values(
        |p: (Seq<char>, Tag)| json_member(p.0, json_object(tag_members(p.1))),
    );
    out.push('{');
    let mut i: usize = 0;
    while i < m.len()
        invariant
            i <= m.entries().len(),
            items == m.entries().map_values(
                |p: (Seq<char>, Tag)| json_member(p.0, json_object(tag_members(p.1))),
            ),
            out@ == o0 + seq!['{'] + join(items.take(i as int)),
        decreases m.entries().len() - i,
    {
        proof {
            lemma_join_step(items, i as int);
        }
        if i > 0 {
            out.push(',');
        }
        let ghost before = out@;
        push_json_string(out, m.key_at(i).as_str());
        out.push(':');
        push_tag_json(out, m.value_at(i));
        assert(out@ == before + items[i as int]);
        i = i + 1;
    }
    assert(items.take(m.entries().len() as int) == items);
    out.push('}');
}

#[verifier::rlimit(60)]
fn push_group_json(out: &mut Vec<char>, g: &Group)
    ensures
        final(out)@ == old(out)@ + group_json(*g),
{
    let ghost o0 = out@;
    out.push('{');
    let ghost m1 = json_member(k_link(), json_string(g.link@));
    let ghost m2 = json_member(k_base(), entries_json(g.base));
    let ghost m3 = json_member(k_tags(), tags_json(g.tags));
    push_key(out, vec!['l', 'i', 'n', 'k']);
    push_json_string(out, g.link.as_str());
    proof {
        lemma_join_push_last(seq![], m1);
        assert(seq![].push(m1) == seq![m1]);
    }
    assert(out@ == o0 + seq!['{'] + join(seq![m1]));
    out.push(',');
    push_key(out, vec!['b', 'a', 's', 'e']);
    push_entries_json(out, &g.base);
    proof {
        lemma_join_push_last(seq![m1], m2);
        assert(seq![m1].push(m2) == seq![m1, m2]);
    }
    assert(out@ == o0 + seq!['{'] + join(seq![m1, m2]));
    out.push(',');
    push_key(out, vec!['t', 'a', 'g', 's']);
    push_tags_json(out, &g.tags);
    proof {
        lemma_join_push_last(seq![m1, m2], m3);
        assert(seq![m1, m2].push(m3) == seq![m1, m2, m3]);
    }
    assert(out@ == o0 + seq!['{'] + join(seq![m1, m2, m3]));
    out.push('}');
}

fn push_groups_json(out: &mut Vec<char>, m: &StrMap<Group>)
    ensures
        final(out)@ == old(out)@ + groups_json(*m),
{
    let ghost o0 = out@;
    let ghost items = m.entries().map_values(
        |p: (Seq<char>, Group)| json_member(p.0, group_json(p.1)),
    );
    out.push('{');
    let mut i: usize = 0;
    while i < m.len()
        invariant
            i <= m.entries().len(),
            items == m.entries().map_values(
                |p: (Seq<char>, Group)| json_member(p.0, group_json(p.1)),
            ),
            out@ == o0 + seq!['{'] + join(items.take(i as int)),
        decreases m.entries().len() - i,
    {
        proof {
            lemma_join_step(items, i as int);
        }
        if i > 0 {
            out.push(',');
        }
        let ghost before = out@;
        push_json_string(out, m.key_at(i).as_str());
        out.push(':');
        push_group_json(out, m.value_at(i));
        assert(out@ == before + items[i as int]);
        i = i + 1;
    }
    assert(items.take(m.entries().len() as int) == items);
    out.push('}');
}

fn push_links_json(out: &mut Vec<char>, m: &StrMap<String>)
    ensures
        final(out)@ == old(out)@ + links_json(*m),
{
    let ghost o0 = out@;
    let links = links_in_path_order(m);
    let ghost items = view_pairs(links@).map_values(
        |p: (Seq<char>, Seq<char>)| json_member(p.0, json_string(p.1)),
    );
    out.push('{');
    let mut i: usize = 0;
    while i < links.len()
        invariant
            i <= links.len(),
            items == view_pairs(links@).map_values(
                |p: (Seq<char>, Seq<char>)| json_member(p.0, json_string(p.1)),
            ),
            out@ == o0 + seq!['{'] + join(items.take(i as int)),
        decreases links.len() - i,
    {
        proof {
            lemma_join_step(items, i as int);
        }
        if i > 0 {
            out.push(',');
        }
        let ghost before = out@;
        push_json_string(out, links[i].0.as_str());
        out.push(':');
        push_json_string(out, links[i].1.as_str());
        assert(out@ == before + items[i as int]);
        i = i + 1;
    }
    assert(items.take(links.len() as int) == items);
    out.push('}');
}

impl Vault {
    /// The JSON text that the signature covers.
    #[verifier::rlimit(100)]
    pub fn signable_text(&self) -> (s: String)
        ensures
            s@ == signable_text(*self),
    {
        let mut out: Vec<char> = Vec::new();
        out.push('{');
        let ghost o0 = Seq::<char>::empty();
        let ghost m1 = json_member(k_salt(), json_byte_array(self.salt@));
        let ghost m2 = json_member(k_public_key(), json_byte_array(self.public_key@));
        let ghost m3 = json_member(k_wrapped_master_dek(), entry_json(self.wrapped_master_dek));
        let ghost m4 = json_member(k_link_index(), links_json(self.link_index));
        let ghost m5 = json_member(k_entries(), groups_json(self.entries));
        let ghost m6 = json_member(k_signature(), json_byte_array(seq![]));
        push_key(&mut out, vec!['s', 'a', 'l', 't']);
        push_json_bytes(&mut out, self.salt.as_slice());
        proof {
            lemma_join_push_last(seq![], m1);
            assert(seq![].push(m1) == seq![m1]);
        }
        assert(out@ == o0 + seq!['{'] + join(seq![m1]));
        out.push(',');
        push_key(&mut out, vec!['p', 'u', 'b', 'l', 'i', 'c', '_', 'k', 'e', 'y']);
        push_json_bytes(&mut out, self.public_key.as_slice());
        proof {
            lemma_join_push_last(seq![m1], m2);
            assert(seq![m1].push(m2) == seq![m1, m2]);
        }
        assert(out@ == o0 + seq!['{'] + join(seq![m1, m2]));
        out.push(',');
        push_key(
            &mut out,
            vec![
                'w', 'r', 'a', 'p', 'p', 'e', 'd', '_', 'm', 'a', 's', 't', 'e', 'r', '_', 'd', 'e', 'k',
            ],
        );
        push_entry_json(&mut out, &self.wrapped_master_dek);
        proof {
            lemma_join_push_last(seq![m1, m2], m3);
            assert(seq![m1, m2].push(m3) == seq![m1, m2, m3]);
        }
        assert(out@ == o0 + seq!['{'] + join(seq![m1, m2, m3]));
        out.push(',');
        push_key(&mut out, vec!['l', 'i', 'n', 'k', '_', 'i', 'n', 'd', 'e', 'x']);
        push_links_json(&mut out, &self.link_index);
        proof {
            lemma_join_push_last(seq![m1, m2, m3], m4);
            assert(seq![m1, m2, m3].push(m4) == seq![m1, m2, m3, m4]);
        }
        assert(out@ == o0 + seq!['{'] + join(seq![m1, m2, m3, m4]));
        out.push(',');
        push_key(&mut out, vec!['e', 'n', 't', 'r', 'i', 'e', 's']);
        push_groups_json(&mut out, &self.entries);
        proof {
            lemma_join_push_last(seq![m1, m2, m3, m4], m5);
            assert(seq![m1, m2, m3, m4].push(m5) == seq![m1, m2, m3, m4, m5]);
        }
        assert(out@ == o0 + seq!['{'] + join(seq![m1, m2, m3, m4, m5]));
        out.push(',');
        push_key(&mut out, vec!['s', 'i', 'g', 'n', 'a', 't', 'u', 'r', 'e']);
        let empty: Vec<u8> = Vec::new();
        push_json_bytes(&mut out, empty.as_slice());
        proof {
            lemma_join_push_last(seq![m1, m2, m3, m4, m5], m6);
            assert(seq![m1, m2, m3, m4, m5].push(m6) == seq![m1, m2, m3, m4, m5, m6]);
        }
        assert(out@ == o0 + seq!['{'] + join(seq![m1, m2, m3, m4, m5, m6]));
        out.push('}');
        string_from_chars(out.as_slice())
    }
}

/// 64 bytes of a slice, as an array.
fn array64(v: &[u8]) -> (a: [u8; 64])
    requires
        v@.len() == 64,
    ensures
        a@ == v@,
{
    let mut a = [0u8; 64];
    let mut i: usize = 0;
    while i < 64
        invariant
            i <= 64,
            v@.len() == 64,
            forall|j: int| 0 <= j < i ==> a@[j] == v@[j],
        decreases 64 - i,
    {
        a[i] = v[i];
        i = i + 1;
    }
    assert(a@ == v@);
    a
}

/// Two vaults that differ at most in their signature.
pub open spec fn same_contents(a: Vault, b: Vault) -> bool {
    &&& a.salt == b.salt
    &&& a.public_key == b.public_key
    &&& a.wrapped_master_dek == b.wrapped_master_dek
    &&& a.link_index == b.link_index
    &&& a.entries == b.entries
    &&& a.file_path == b.file_path
    &&& a.workdir == b.workdir
}

/// What the integrity check finds: a public key that is not 32 bytes or
/// does not decode, a signature that is not 64 bytes, a signature that does
/// not verify over the signable bytes, or nothing wrong.
pub open spec fn integrity(v: Vault) -> Result<(), ErrorModel> {
    if v.public_key@.len() != 32 {
        Err(ErrorModel::PublicKeyLength)
    } else if !ed25519_valid_public_key(v.public_key@) {
        Err(ErrorModel::CorruptedPublicKey)
    } else if v.signature@.len() != 64 {
        Err(ErrorModel::CorruptedSignature)
    } else if !ed25519_verifies(v.public_key@, signable_bytes(v), v.signature@) {
        Err(ErrorModel::SealTampered)
    } else {
        Ok(())
    }
}

impl Vault {
    /// Signs the vault's contents, replacing its signature. Where the key is
    /// the one whose public key the vault carries, the vault then passes its
    /// integrity check.
    pub fn seal_integrity(&mut self, signing_key: &SigningKey)
        ensures
            same_contents(*final(self), *old(self)),
            final(self).signature@ == ed25519_signature(
                signing_key.seed@,
                signable_bytes(*old(self)),
            ),
            old(self).public_key@ == ed25519_public_key(signing_key.seed@) ==> integrity(
                *final(self),
            ) is Ok,
    {
        let text = self.signable_text();
        let sig = signing_key.sign(text.as_str().as_bytes());
        let _pk = signing_key.verifying_key_bytes();
        let mut v: Vec<u8> = Vec::new();
        let mut i: usize = 0;
        while i < 64
            invariant
                i <= 64,
                v@ == sig@.take(i as int),
            decreases 64 - i,
        {
            v.push(sig[i]);
            i = i + 1;
            assert(v@ == sig@.take(i as int));
        }
        assert(sig@.take(64) == sig@);
        self.signature = v;
    }

    /// Checks the vault's signature over its contents; see `integrity`.
    pub fn verify_integrity(&self) -> (r: Result<(), VaultError>)
        ensures
            match (r, integrity(*self)) {
                (Ok(_), Ok(_)) => true,
                (Err(e), Err(m)) => e@ == m,
                _ => false,
            },
    {
        if self.public_key.len() != 32 {
            return Err(VaultError::PublicKeyLength);
        }
        let pk = array32(self.public_key.as_slice());
        assert(self.public_key@.take(32) == self.public_key@);
        if self.signature.len() != 64 {
            if !crate::crypto::ed25519_key_decodes(&pk) {
                return Err(VaultError::CorruptedPublicKey);
            }
            return Err(VaultError::CorruptedSignature);
        }
        let sig = array64(self.signature.as_slice());
        let text = self.signable_text();
        match verify_signature(&pk, text.as_str().as_bytes(), &sig) {
            None => Err(VaultError::CorruptedPublicKey),
            Some(false) => Err(VaultError::SealTampered),
            Some(true) => Ok(()),
        }
    }
}

} // verus!
