//! Reading, writing and removing secrets in a vault.
use crate::crypto::{
    decrypt, decrypt_result, derive_entry_key, derive_scope_dek, encrypt, entry_key, scope_dek,
    sha256, sha256_digest, AES_GCM_P_MAX,
};
use crate::error::{ErrorModel, VaultError};
use crate::hex::{encode_hex, hex_encode};
use crate::scope::{parse_scope_chars, parse_scope_text, tag_scope_text};
use crate::seal::{same_contents, signable_bytes};
use crate::strmap::{sorted_keys, StrMap};
use crate::text::{chars_of, string_from_chars};
use crate::vault::{
    base_tag, base_tag_string, is_base_tag, opt_view, strings_view, Entry, Group, Tag, Vault,
    VaultKeys,
};
use crate::crypto::{append_chars, ed25519_signature, SigningKey};
use vstd::prelude::*;
use vstd::utf8::{decode_utf8, encode_utf8, valid_utf8};

verus! {

/// `String::from_utf8`: the text that valid UTF-8 bytes encode.
#[verifier::external_body]
pub(crate) fn utf8_to_string(v: Vec<u8>) -> (r: Option<String>)
    ensures
        r is Some <==> valid_utf8(v@),
        r matches Some(s) ==> s@ == decode_utf8(v@),
{
    String::from_utf8(v).ok()
}

/// The tag an operation addresses: the one given, or the base tag.
pub open spec fn tag_or_base(tag: Option<Seq<char>>) -> Seq<char> {
    match tag {
        Some(t) => t,
        None => base_tag(),
    }
}

/// The value an entry holds under a key: its UTF-8 text.
pub open spec fn open_value(key: Seq<u8>, e: Entry) -> Result<Seq<char>, ErrorModel> {
    match decrypt_result(key, e.nonce@, e.ciphertext@) {
        Err(ce) => Err(ErrorModel::Crypto(ce)),
        Ok(p) => if valid_utf8(p) {
            Ok(decode_utf8(p))
        } else {
            Err(ErrorModel::InvalidUtf8)
        },
    }
}

/// An entry that holds `value` under `key`.
pub open spec fn seals(e: Entry, key: Seq<u8>, value: Seq<char>) -> bool {
    &&& e.nonce@.len() == 12
    &&& crate::crypto::aes256gcm_open(key, e.nonce@, e.ciphertext@) == Some(encode_utf8(value))
}

/// The master scope of a vault: `master_` and the hex SHA-256 of its public key.
pub open spec fn master_scope_text(public_key: Seq<u8>) -> Seq<char> {
    seq!['m', 'a', 's', 't', 'e', 'r', '_'] + hex_encode(sha256(public_key))
}

/// The key of the scope an entry of tag `t` of group `g` lives in: derived
/// from the master key for the base tag and unprotected tags, the tag's own
/// key (`tag_key`) for a protected tag.
pub open spec fn scope_key(
    master_dek: Seq<u8>,
    g: Seq<char>,
    t: Seq<char>,
    protected: bool,
    tag_key: Seq<u8>,
) -> Seq<u8> {
    if t != base_tag() && protected {
        tag_key
    } else {
        scope_dek(master_dek, g, t)
    }
}

impl Vault {
    /// Where a tag of a group stands: whether it exists and is protected.
    pub open spec fn tag_is_protected(self, g: Seq<char>, t: Seq<char>) -> bool {
        &&& self.entries@.contains_key(g)
        &&& self.entries@[g].tags@.contains_key(t)
        &&& self.entries@[g].tags@[t].salt is Some
    }

    /// What `get_entry` gives: the tag's own entry where the tag has one
    /// (needing the tag key where the tag is protected), else the base entry.
    pub open spec fn lookup(
        self,
        master_dek: Seq<u8>,
        group: Option<Seq<char>>,
        tag: Option<Seq<char>>,
        name: Seq<char>,
        tag_dek: Option<Seq<u8>>,
    ) -> Result<Seq<char>, ErrorModel> {
        match self.group_for(group) {
            Err(e) => Err(e),
            Ok(g) => if !self.entries@.contains_key(g) {
                Err(ErrorModel::NoGroupNamed(g))
            } else {
                let grp = self.entries@[g];
                let t = tag_or_base(tag);
                if t != base_tag() && grp.tags@.contains_key(t) && grp.tags@[t].entries@.contains_key(
                    name,
                ) {
                    let tg = grp.tags@[t];
                    if tg.salt is Some && tag_dek is None {
                        Err(ErrorModel::TagKeyRequired(t))
                    } else {
                        let k = scope_key(master_dek, g, t, tg.salt is Some, tag_dek.unwrap_or(seq![]));
                        open_value(entry_key(k, name), tg.entries@[name])
                    }
                } else if grp.base@.contains_key(name) {
                    open_value(entry_key(scope_dek(master_dek, g, base_tag()), name), grp.base@[name])
                } else {
                    Err(ErrorModel::EntryNotFound(name, t))
                }
            },
        }
    }

    /// The session-cache scope of the vault's master key.
    pub fn master_scope(&self) -> (s: String)
        ensures
            s@ == master_scope_text(self.public_key@),
    {
        let d = sha256_digest(self.public_key.as_slice());
        let h = encode_hex(&d);
        let mut v: Vec<char> = vec!['m', 'a', 's', 't', 'e', 'r', '_'];
        let hc = chars_of(h.as_str());
        append_chars(&mut v, hc.as_slice());
        string_from_chars(v.as_slice())
    }

    /// The session-cache scope of a tag of a group.
    pub fn tag_scope(&self, group: Option<&str>, tag: &str) -> (r: Result<String, VaultError>)
        ensures
            match (r, self.group_for(opt_view(group))) {
                (Ok(s), Ok(g)) => s@ == tag_scope_text(master_scope_text(self.public_key@), g, tag@),
                (Err(e), Err(m)) => e@ == m,
                _ => false,
            },
    {
        let g = self.resolve_group_name(group)?;
        let m = self.master_scope();
        let mut v = chars_of(m.as_str());
        let marker: Vec<char> = vec!['_', 'g', 'r', 'o', 'u', 'p', '_'];
        append_chars(&mut v, marker.as_slice());
        let gc = chars_of(g.as_str());
        append_chars(&mut v, gc.as_slice());
        let tmarker: Vec<char> = vec!['_', 't', 'a', 'g', '_'];
        append_chars(&mut v, tmarker.as_slice());
        let tc = chars_of(tag);
        append_chars(&mut v, tc.as_slice());
        assert(v@ == tag_scope_text(master_scope_text(self.public_key@), g@, tag@));
        Ok(string_from_chars(v.as_slice()))
    }

    /// Reads a scope string of this vault back into its group and tag;
    /// `None` where it is not one (see `parse_scope_text`).
    pub fn parse_scope(&self, scope: &str) -> (r: Option<(String, String)>)
        ensures
            match (r, parse_scope_text(master_scope_text(self.public_key@), scope@)) {
                (Some((g, t)), Some((sg, st))) => g@ == sg && t@ == st,
                (None, None) => true,
                _ => false,
            },
    {
        let m = self.master_scope();
        let mc = chars_of(m.as_str());
        let sc = chars_of(scope);
        match parse_scope_chars(mc.as_slice(), sc.as_slice()) {
            Some((g, t)) => Some((string_from_chars(g.as_slice()), string_from_chars(t.as_slice()))),
            None => None,
        }
    }

    /// Whether a tag is protected by its own password: false for no tag, for
    /// the base tag and for a group or tag that does not exist.
    pub fn is_tag_protected(&self, group: Option<&str>, tag: Option<&str>) -> (r: Result<
        bool,
        VaultError,
    >)
        ensures
            match tag {
                None => r matches Ok(false),
                Some(t) => if t@ == base_tag() {
                    r matches Ok(false)
                } else {
                    match (r, self.group_for(opt_view(group))) {
                        (Ok(b), Ok(g)) => b == self.tag_is_protected(g, t@),
                        (Err(e), Err(m)) => e@ == m,
                        _ => false,
                    }
                },
            },
    {
        let t = match tag {
            None => return Ok(false),
            Some(t) => t,
        };
        if is_base_tag(t) {
            return Ok(false);
        }
        let g = self.resolve_group_name(group)?;
        match self.entries.get(g.as_str()) {
            None => Ok(false),
            Some(grp) => match grp.tags.get(t) {
                None => Ok(false),
                Some(tg) => Ok(tg.salt.is_some()),
            },
        }
    }

    /// Decrypts one secret: the tag's own entry where the tag has one, the
    /// base entry otherwise; see `lookup`.
    pub fn get_entry(
        &self,
        master_dek: &[u8; 32],
        group: Option<&str>,
        tag: Option<&str>,
        name: &str,
        tag_dek: Option<&[u8; 32]>,
    ) -> (r: Result<String, VaultError>)
        ensures
            match (
                r,
                self.lookup(
                    master_dek@,
                    opt_view(group),
                    opt_view(tag),
                    name@,
                    opt_key_view(tag_dek),
                ),
            ) {
                (Ok(v), Ok(sv)) => v@ == sv,
                (Err(e), Err(m)) => e@ == m,
                _ => false,
            },
    {
        let g = self.resolve_group_name(group)?;
        let grp = match self.entries.get(g.as_str()) {
            None => return Err(VaultError::NoGroupNamed(g)),
            Some(x) => x,
        };
        let active = match tag {
            Some(t) => String::from_str(t),
            None => base_tag_string(),
        };
        if !is_base_tag(active.as_str()) {
            if let Some(tg) = grp.tags.get(active.as_str()) {
                if let Some(e) = tg.entries.get(name) {
                    let sdek = if tg.salt.is_some() {
                        match tag_dek {
                            None => return Err(VaultError::TagKeyRequired(active)),
                            Some(k) => *k,
                        }
                    } else {
                        derive_scope_dek(master_dek, g.as_str(), active.as_str())
                    };
                    let ek = derive_entry_key(&sdek, name);
                    return open_entry(&ek, e);
                }
            }
        }
        match grp.base.get(name) {
            Some(e) => {
                let b = base_tag_string();
                let sdek = derive_scope_dek(master_dek, g.as_str(), b.as_str());
                let ek = derive_entry_key(&sdek, name);
                open_entry(&ek, e)
            },
            None => Err(VaultError::EntryNotFound(String::from_str(name), active)),
        }
    }
}

/// Decrypts an entry to its text.
pub fn open_entry(key: &[u8; 32], e: &Entry) -> (r: Result<String, VaultError>)
    ensures
        match (r, open_value(key@, *e)) {
            (Ok(v), Ok(sv)) => v@ == sv,
            (Err(er), Err(m)) => er@ == m,
            _ => false,
        },
{
    match decrypt(key, e.nonce.as_slice(), e.ciphertext.as_slice()) {
        Err(ce) => Err(VaultError::Crypto(ce)),
        Ok(p) => match utf8_to_string(p) {
            Some(s) => Ok(s),
            None => Err(VaultError::InvalidUtf8),
        },
    }
}

/// Seals a text under a key.
pub fn seal_value(key: &[u8; 32], value: &str) -> (r: Result<Entry, VaultError>)
    ensures
        r is Ok <==> encode_utf8(value@).len() <= AES_GCM_P_MAX,
        r matches Ok(e) ==> seals(e, key@, value@),
        r matches Err(er) ==> er@ == ErrorModel::Crypto(crate::crypto::CryptoError::EncryptionFailed),
{
    match encrypt(key, value.as_bytes()) {
        Ok((n, c)) => {
            let mut nv: Vec<u8> = Vec::new();
            let mut i: usize = 0;
            while i < 12
                invariant
                    i <= 12,
                    nv@ == n@.take(i as int),
                decreases 12 - i,
            {
                nv.push(n[i]);
                i = i + 1;
                assert(nv@ == n@.take(i as int));
            }
            assert(n@.take(12) == n@);
            Ok(Entry { nonce: nv, ciphertext: c })
        },
        Err(_) => Err(VaultError::Crypto(crate::crypto::CryptoError::EncryptionFailed)),
    }
}

/// The base entries of group `g` (none where the group does not exist).
pub open spec fn group_base(v: Vault, g: Seq<char>) -> Map<Seq<char>, Entry> {
    if v.entries@.contains_key(g) {
        v.entries@[g].base@
    } else {
        Map::empty()
    }
}

/// The tags of group `g` (none where the group does not exist).
pub open spec fn group_tags(v: Vault, g: Seq<char>) -> Map<Seq<char>, Tag> {
    if v.entries@.contains_key(g) {
        v.entries@[g].tags@
    } else {
        Map::empty()
    }
}

/// The entries of tag `t` of group `g` (none where the tag does not exist).
pub open spec fn tag_entries(v: Vault, g: Seq<char>, t: Seq<char>) -> Map<Seq<char>, Entry> {
    if group_tags(v, g).contains_key(t) {
        group_tags(v, g)[t].entries@
    } else {
        Map::empty()
    }
}

/// The vault's signature is the given key's signature of its contents.
pub open spec fn sealed_by(v: Vault, seed: Seq<u8>) -> bool {
    v.signature@ == ed25519_signature(seed, signable_bytes(v))
}

/// The parts of a vault outside its groups are the same.
pub open spec fn same_frame(a: Vault, b: Vault) -> bool {
    &&& a.salt == b.salt
    &&& a.public_key == b.public_key
    &&& a.wrapped_master_dek == b.wrapped_master_dek
    &&& a.link_index == b.link_index
    &&& a.file_path == b.file_path
    &&& a.workdir == b.workdir
}

/// Group `g` of `new` differs from that of `old` only in its base (every
/// other group is unchanged), and `g` exists in `new`.
pub open spec fn only_group_changed(old: Vault, new: Vault, g: Seq<char>) -> bool {
    &&& new.entries@.dom() == old.entries@.dom().insert(g)
    &&& forall|h: Seq<char>| #![trigger new.entries@[h]]
        h != g && old.entries@.contains_key(h) ==> new.entries@[h] == old.entries@[h]
    &&& new.entries@[g].link@ == (if old.entries@.contains_key(g) {
        old.entries@[g].link@
    } else {
        Seq::<char>::empty()
    })
}

/// Why `set_entry` refuses, where it does.
pub open spec fn set_refusal(
    v: Vault,
    group: Option<Seq<char>>,
    tag: Option<Seq<char>>,
    value: Seq<char>,
    has_tag_key: bool,
) -> Option<ErrorModel> {
    match v.group_for(group) {
        Err(e) => Some(e),
        Ok(g) => {
            let t = tag_or_base(tag);
            if t != base_tag() && v.tag_is_protected(g, t) && !has_tag_key {
                Some(ErrorModel::TagProtected(t))
            } else if encode_utf8(value).len() > AES_GCM_P_MAX {
                Some(ErrorModel::Crypto(crate::crypto::CryptoError::EncryptionFailed))
            } else {
                None
            }
        },
    }
}

/// After `set_entry` stored `value` as `name` in tag `t` (the base tag or
/// another) of group `g` under the entry key `key`: nothing else changed.
pub open spec fn stored(
    old: Vault,
    new: Vault,
    g: Seq<char>,
    t: Seq<char>,
    name: Seq<char>,
    key: Seq<u8>,
    value: Seq<char>,
) -> bool {
    &&& same_frame(old, new)
    &&& only_group_changed(old, new, g)
    &&& if t == base_tag() {
        &&& new.entries@[g].base@ == group_base(old, g).insert(name, new.entries@[g].base@[name])
        &&& seals(new.entries@[g].base@[name], key, value)
        &&& new.entries@[g].tags@ == group_tags(old, g)
    } else {
        let nt = new.entries@[g].tags@[t];
        &&& new.entries@[g].base@ == group_base(old, g)
        &&& new.entries@[g].tags@ == group_tags(old, g).insert(t, nt)
        &&& nt.entries@ == tag_entries(old, g, t).insert(name, nt.entries@[name])
        &&& seals(nt.entries@[name], key, value)
        &&& if group_tags(old, g).contains_key(t) {
            nt.salt == group_tags(old, g)[t].salt && nt.wrapped_tag_dek == group_tags(
                old,
                g,
            )[t].wrapped_tag_dek
        } else {
            nt.salt is None && nt.wrapped_tag_dek is None
        }
    }
}

/// The view of an optional key.
pub open spec fn opt_key_view(k: Option<&[u8; 32]>) -> Option<Seq<u8>> {
    match k {
        Some(k) => Some(k@),
        None => None,
    }
}

/// What `set_entry` leaves where it does not refuse: `value` sealed as
/// `name` in the addressed tag of the addressed group, under the entry key
/// derived from that tag's scope key, and nothing else changed.
pub open spec fn entry_stored(
    old: Vault,
    new: Vault,
    master_dek: Seq<u8>,
    group: Option<Seq<char>>,
    tag: Option<Seq<char>>,
    name: Seq<char>,
    value: Seq<char>,
    tag_key: Option<Seq<u8>>,
) -> bool {
    let g = old.group_for(group)->Ok_0;
    let t = tag_or_base(tag);
    let k = scope_key(master_dek, g, t, old.tag_is_protected(g, t), tag_key.unwrap_or(seq![]));
    stored(old, new, g, t, name, entry_key(k, name), value)
}

/// Reading back what was written: where `set_entry` stored `value` as
/// `name` in some tag of some group, `get_entry` on the vault it left, with
/// the same master key, group, tag, name and tag key, gives `value`.
pub proof fn lemma_get_after_set(
    old: Vault,
    new: Vault,
    master_dek: Seq<u8>,
    group: Option<Seq<char>>,
    tag: Option<Seq<char>>,
    name: Seq<char>,
    value: Seq<char>,
    tag_key: Option<Seq<u8>>,
)
    requires
        set_refusal(old, group, tag, value, tag_key is Some) is None,
        entry_stored(old, new, master_dek, group, tag, name, value, tag_key),
    ensures
        new.lookup(master_dek, group, tag, name, tag_key) == Ok::<Seq<char>, ErrorModel>(value),
{
    let g = old.group_for(group)->Ok_0;
    let t = tag_or_base(tag);
    assert(new.group_for(group) == old.group_for(group));
    let k = scope_key(master_dek, g, t, old.tag_is_protected(g, t), tag_key.unwrap_or(seq![]));
    let e = if t == base_tag() {
        new.entries@[g].base@[name]
    } else {
        new.entries@[g].tags@[t].entries@[name]
    };
    assert(seals(e, entry_key(k, name), value));
    vstd::utf8::encode_utf8_valid_utf8(value);
    vstd::utf8::encode_utf8_decode_utf8(value);
    assert(open_value(entry_key(k, name), e) == Ok::<Seq<char>, ErrorModel>(value));
    if t != base_tag() {
        let nt = new.entries@[g].tags@[t];
        assert(new.entries@[g].tags@.contains_key(t));
        assert(nt.entries@.contains_key(name));
        assert((nt.salt is Some) == old.tag_is_protected(g, t));
    }
}

impl Vault {
    /// Seals `value` as `name` in a tag (the base tag when none is given) of
    /// a group, creating the group and an unprotected tag where missing. A
    /// protected tag takes its tag key as the scope key. Re-signs the vault.
    /// On refusal the vault is left as it was.
    pub fn set_entry(
        &mut self,
        keys: &VaultKeys,
        group: Option<&str>,
        tag: Option<&str>,
        name: &str,
        value: &str,
        tag_key: Option<&[u8; 32]>,
    ) -> (r: Result<(), VaultError>)
        ensures
            match set_refusal(*old(self), opt_view(group), opt_view(tag), value@, tag_key is Some) {
                Some(m) => r matches Err(e) && e@ == m && *final(self) == *old(self),
                None => r is Ok && {
                    &&& entry_stored(
                        *old(self),
                        *final(self),
                        keys.master_dek@,
                        opt_view(group),
                        opt_view(tag),
                        name@,
                        value@,
                        opt_key_view(tag_key),
                    )
                    &&& sealed_by(*final(self), keys.signing_key.seed@)
                    &&& (old(self).public_key@ == crate::crypto::ed25519_public_key(
                        keys.signing_key.seed@,
                    ) ==> crate::seal::integrity(*final(self)) is Ok)
                },
            },
    {
        let g = self.resolve_group_name(group)?;
        let active = match tag {
            Some(t) => String::from_str(t),
            None => base_tag_string(),
        };
        let is_base = is_base_tag(active.as_str());
        let mut protected = false;
        if !is_base {
            if let Some(grp) = self.entries.get(g.as_str()) {
                if let Some(tg) = grp.tags.get(active.as_str()) {
                    protected = tg.salt.is_some();
                }
            }
        }
        let sdek = if protected {
            match tag_key {
                None => return Err(VaultError::TagProtected(active)),
                Some(k) => *k,
            }
        } else {
            derive_scope_dek(&keys.master_dek, g.as_str(), active.as_str())
        };
        let ek = derive_entry_key(&sdek, name);
        let entry = seal_value(&ek, value)?;
        let ghost old_v = *self;
        let mut grp = match self.entries.remove(g.as_str()) {
            Some(x) => x,
            None => Group::new_empty(),
        };
        let ghost tags0 = grp.tags@;
        proof {
            assert(tags0 == group_tags(old_v, g@));
        }
        if is_base {
            grp.base.insert(String::from_str(name), entry);
        } else {
            let mut tg = match grp.tags.remove(active.as_str()) {
                Some(t) => t,
                None => Tag::new_unprotected(),
            };
            tg.entries.insert(String::from_str(name), entry);
            let ghost tg_v = tg;
            grp.tags.insert(active, tg);
            proof {
                assert(grp.tags@ == tags0.insert(active@, tg_v));
            }
        }
        self.entries.insert(g, grp);
        proof {
            assert(self.entries@.dom() == old_v.entries@.dom().insert(g@));
        }
        self.seal_integrity(&keys.signing_key);
        Ok(())
    }
}


/// Whether some tag of the group is protected.
pub open spec fn has_protected_tag(g: Group) -> bool {
    exists|t: Seq<char>| #[trigger] g.tags@.contains_key(t) && g.tags@[t].salt is Some
}

/// Whether some tag of the group is protected.
pub fn group_has_protected_tag(g: &Group) -> (b: bool)
    ensures
        b == has_protected_tag(*g),
{
    proof {
        use_type_invariant(&g.tags);
    }
    let n = g.tags.len();
    let mut i: usize = 0;
    while i < n
        invariant
            i <= n,
            n == g.tags.entries().len(),
            g.tags.wf(),
            forall|j: int| 0 <= j < i ==> (#[trigger] g.tags.entries()[j]).1.salt is None,
        decreases n - i,
    {
        let tg = g.tags.value_at(i);
        if tg.salt.is_some() {
            proof {
                let k = g.tags.entries()[i as int].0;
                assert(g.tags@.contains_key(k) && g.tags@[k].salt is Some);
            }
            return true;
        }
        i = i + 1;
    }
    proof {
        if has_protected_tag(*g) {
            let t = choose|t: Seq<char>| #[trigger] g.tags@.contains_key(t) && g.tags@[t].salt is Some;
            let j = g.tags.lemma_index_of(t);
            assert(g.tags.entries()[j].1.salt is None);
        }
    }
    false
}

/// Why `remove_entry` refuses, where it does. With no tag and no name the
/// whole group is addressed; with a tag and no name the whole tag; else
/// one entry of the tag (the base tag when none is given).
pub open spec fn remove_refusal(
    v: Vault,
    group: Option<Seq<char>>,
    tag: Option<Seq<char>>,
    name: Seq<char>,
    has_tag_key: bool,
) -> Option<ErrorModel> {
    match v.group_for(group) {
        Err(e) => Some(e),
        Ok(g) => {
            let t = tag_or_base(tag);
            if !v.entries@.contains_key(g) {
                Some(ErrorModel::NoGroupNamed(g))
            } else if tag is None && name.len() == 0 {
                if has_protected_tag(v.entries@[g]) && !has_tag_key {
                    Some(ErrorModel::GroupHasProtectedTags(g))
                } else {
                    None
                }
            } else if t == base_tag() {
                if name.len() == 0 {
                    Some(ErrorModel::CannotRemoveBase)
                } else if !v.entries@[g].base@.contains_key(name) {
                    Some(ErrorModel::NoEntryInGroup(name, g))
                } else {
                    None
                }
            } else if !v.entries@[g].tags@.contains_key(t) {
                Some(ErrorModel::NoTagNamed(t, g))
            } else if v.entries@[g].tags@[t].salt is Some && !has_tag_key {
                Some(ErrorModel::TagProtected(t))
            } else if name.len() == 0 {
                None
            } else if !v.entries@[g].tags@[t].entries@.contains_key(name) {
                Some(ErrorModel::NoEntryInTag(name, t, g))
            } else {
                None
            }
        },
    }
}

/// What `remove_entry` leaves where it does not refuse: the addressed
/// group (with its directory link), tag or entry gone, the rest unchanged.
pub open spec fn entry_removed(
    old: Vault,
    new: Vault,
    group: Option<Seq<char>>,
    tag: Option<Seq<char>>,
    name: Seq<char>,
) -> bool {
    let g = old.group_for(group)->Ok_0;
    let t = tag_or_base(tag);
    let og = old.entries@[g];
    let ng = new.entries@[g];
    &&& new.salt == old.salt
    &&& new.public_key == old.public_key
    &&& new.wrapped_master_dek == old.wrapped_master_dek
    &&& new.file_path == old.file_path
    &&& new.workdir == old.workdir
    &&& if tag is None && name.len() == 0 {
        &&& new.entries@ == old.entries@.remove(g)
        &&& new.link_index@ == old.link_index@.remove(og.link@)
    } else {
        &&& new.link_index == old.link_index
        &&& new.entries@ == old.entries@.insert(g, ng)
        &&& ng.link == og.link
        &&& if t == base_tag() {
            &&& ng.base@ == og.base@.remove(name)
            &&& ng.tags == og.tags
        } else if name.len() == 0 {
            &&& ng.base == og.base
            &&& ng.tags@ == og.tags@.remove(t)
        } else {
            let nt = ng.tags@[t];
            let ot = og.tags@[t];
            &&& ng.base == og.base
            &&& ng.tags@ == og.tags@.insert(t, nt)
            &&& nt.entries@ == ot.entries@.remove(name)
            &&& nt.salt == ot.salt
            &&& nt.wrapped_tag_dek == ot.wrapped_tag_dek
        }
    }
}

impl Vault {
    /// Removes a whole group (no tag, no name), a whole tag (a tag other
    /// than the base tag, no name) or one entry, then re-signs the vault.
    /// A protected tag, or a group holding one, needs its tag key to be
    /// given. On refusal the vault is left as it was.
    pub fn remove_entry(
        &mut self,
        signing_key: &SigningKey,
        group: Option<&str>,
        tag: Option<&str>,
        name: Option<&str>,
        tag_key: Option<&[u8; 32]>,
    ) -> (r: Result<(), VaultError>)
        ensures
            match remove_refusal(
                *old(self),
                opt_view(group),
                opt_view(tag),
                name_or_empty(opt_view(name)),
                tag_key is Some,
            ) {
                Some(m) => r matches Err(e) && e@ == m && *final(self) == *old(self),
                None => r is Ok && {
                    &&& entry_removed(
                        *old(self),
                        *final(self),
                        opt_view(group),
                        opt_view(tag),
                        name_or_empty(opt_view(name)),
                    )
                    &&& sealed_by(*final(self), signing_key.seed@)
                    &&& (old(self).public_key@ == crate::crypto::ed25519_public_key(
                        signing_key.seed@,
                    ) ==> crate::seal::integrity(*final(self)) is Ok)
                },
            },
    {
        let g = self.resolve_group_name(group)?;
        let active = match tag {
            Some(t) => String::from_str(t),
            None => base_tag_string(),
        };
        let n: &str = match name {
            Some(n) => n,
            None => "",
        };
        proof {
            reveal_strlit("");
        }
        let name_empty = n.is_empty();
        let ghost old_v = *self;
        if tag.is_none() && name_empty {
            match self.entries.get(g.as_str()) {
                None => return Err(VaultError::NoGroupNamed(g)),
                Some(grp) => {
                    if group_has_protected_tag(grp) && tag_key.is_none() {
                        return Err(VaultError::GroupHasProtectedTags(g));
                    }
                },
            }
            let removed = self.entries.remove(g.as_str());
            if let Some(rg) = removed {
                self.link_index.remove(rg.link.as_str());
            }
            self.seal_integrity(signing_key);
            return Ok(());
        }
        let is_base = is_base_tag(active.as_str());
        match self.entries.get(g.as_str()) {
            None => return Err(VaultError::NoGroupNamed(g)),
            Some(grp) => {
                if is_base {
                    if name_empty {
                        return Err(VaultError::CannotRemoveBase);
                    }
                    if !grp.base.contains_key(n) {
                        return Err(VaultError::NoEntryInGroup(String::from_str(n), g));
                    }
                } else {
                    match grp.tags.get(active.as_str()) {
                        None => return Err(VaultError::NoTagNamed(active, g)),
                        Some(tg) => {
                            if tg.salt.is_some() && tag_key.is_none() {
                                return Err(VaultError::TagProtected(active));
                            }
                            if !name_empty && !tg.entries.contains_key(n) {
                                return Err(
                                    VaultError::NoEntryInTag(String::from_str(n), active, g),
                                );
                            }
                        },
                    }
                }
            },
        }
        let mut grp = match self.entries.remove(g.as_str()) {
            Some(x) => x,
            None => Group::new_empty(),
        };
        let ghost og = grp;
        if is_base {
            grp.base.remove(n);
        } else if name_empty {
            grp.tags.remove(active.as_str());
        } else {
            let mut tg = match grp.tags.remove(active.as_str()) {
                Some(t) => t,
                None => Tag::new_unprotected(),
            };
            tg.entries.remove(n);
            let ghost tg_v = tg;
            grp.tags.insert(active, tg);
            proof {
                assert(grp.tags@ == og.tags@.insert(tag_or_base(opt_view(tag)), tg_v));
            }
        }
        let ghost ng = grp;
        self.entries.insert(g, grp);
        proof {
            assert(self.entries@ == old_v.entries@.insert(g@, ng));
        }
        self.seal_integrity(signing_key);
        Ok(())
    }
}

/// The name given, or the empty name.
pub open spec fn name_or_empty(name: Option<Seq<char>>) -> Seq<char> {
    match name {
        Some(n) => n,
        None => Seq::<char>::empty(),
    }
}


/// Removal is seen by reads: once `remove_entry` has removed `name` from the
/// base of a group, `get_entry` of that name in the base finds nothing.
pub proof fn lemma_get_after_remove(
    old: Vault,
    new: Vault,
    master_dek: Seq<u8>,
    group: Option<Seq<char>>,
    name: Seq<char>,
    tag_key: Option<Seq<u8>>,
)
    requires
        name.len() > 0,
        remove_refusal(old, group, None, name, tag_key is Some) is None,
        entry_removed(old, new, group, None, name),
    ensures
        new.lookup(master_dek, group, None, name, tag_key) == Err::<Seq<char>, ErrorModel>(
            ErrorModel::EntryNotFound(name, base_tag()),
        ),
{
    assert(new.group_for(group) == old.group_for(group));
    let g = old.group_for(group)->Ok_0;
    assert(new.entries@.contains_key(g));
    assert(!new.entries@[g].base@.contains_key(name));
}


/// Adds every key of `m` to `acc`.
pub(crate) fn add_keys<V>(acc: &mut StrMap<bool>, m: &StrMap<V>)
    ensures
        final(acc)@.dom() == old(acc)@.dom() + m@.dom(),
{
    proof {
        use_type_invariant(m);
    }
    let ghost d0 = acc@.dom();
    let n = m.len();
    let mut i: usize = 0;
    while i < n
        invariant
            i <= n,
            n == m.entries().len(),
            m.wf(),
            acc@.dom() == d0 + Set::new(|k: Seq<char>| exists|j: int| 0 <= j < i && #[trigger] m.entries()[j].0 == k),
        decreases n - i,
    {
        let k = m.key_at(i);
        acc.insert(k.clone(), true);
        proof {
            assert(acc@.dom() =~= d0 + Set::new(|k: Seq<char>| exists|j: int| 0 <= j < i + 1 && #[trigger] m.entries()[j].0 == k)) by {
                assert(m.entries()[i as int].0 == k@);
            }
        }
        i = i + 1;
    }
    proof {
        assert(acc@.dom() =~= d0 + m@.dom()) by {
            assert forall|k: Seq<char>| m@.dom().contains(k) implies (exists|j: int| 0 <= j < n && #[trigger] m.entries()[j].0 == k) by {
                let j = m.lemma_index_of(k);
            }
        }
    }
}

/// The names `list_all_keys` lists for tag `t` of group `g`: those of the
/// base, and those of the tag where it is another tag that exists.
pub open spec fn listed_keys(v: Vault, g: Seq<char>, t: Seq<char>) -> Set<Seq<char>> {
    let grp = v.entries@[g];
    if t != base_tag() && grp.tags@.contains_key(t) {
        grp.base@.dom() + grp.tags@[t].entries@.dom()
    } else {
        grp.base@.dom()
    }
}

impl Vault {
    /// The names visible in a tag of a group (the base tag when none is
    /// given): the base names and the tag's own, in ascending order.
    pub fn list_all_keys(&self, group: Option<&str>, tag: Option<&str>) -> (r: Result<
        Vec<String>,
        VaultError,
    >)
        ensures
            match (r, self.group_for(opt_view(group))) {
                (Ok(ks), Ok(g)) => {
                    &&& self.entries@.contains_key(g)
                    &&& sorted_keys(strings_view(ks@))
                    &&& strings_view(ks@).to_set() == listed_keys(*self, g, tag_or_base(opt_view(tag)))
                },
                (Err(e), Ok(g)) => !self.entries@.contains_key(g) && e@ == ErrorModel::NoGroupNamed(g),
                (Err(e), Err(m)) => e@ == m,
                _ => false,
            },
    {
        let g = self.resolve_group_name(group)?;
        let grp = match self.entries.get(g.as_str()) {
            None => return Err(VaultError::NoGroupNamed(g)),
            Some(x) => x,
        };
        let active = match tag {
            Some(t) => String::from_str(t),
            None => base_tag_string(),
        };
        let mut acc: StrMap<bool> = StrMap::new();
        add_keys(&mut acc, &grp.base);
        if !is_base_tag(active.as_str()) {
            if let Some(tg) = grp.tags.get(active.as_str()) {
                add_keys(&mut acc, &tg.entries);
            }
        }
        let ks = acc.keys();
        proof {
            acc.lemma_key_set();
            assert(strings_view(ks@) == acc.key_seq());
            assert(acc@.dom() =~= listed_keys(*self, g@, tag_or_base(opt_view(tag))));
        }
        Ok(ks)
    }
}


impl Vault {
    /// The tag `run` picks when none is given: the current git branch
    /// (trimmed), where the addressed group has a tag of that name.
    pub fn branch_tag(&self, group: Option<&str>, branch: &str) -> (r: Option<String>)
        ensures
            match r {
                Some(t) => t@ == crate::text::trim(branch@) && (self.group_for(opt_view(group)) matches Ok(
                    g,
                ) && self.entries@.contains_key(g) && self.entries@[g].tags@.contains_key(t@)),
                None => !(self.group_for(opt_view(group)) matches Ok(g) && self.entries@.contains_key(g)
                    && self.entries@[g].tags@.contains_key(crate::text::trim(branch@))),
            },
    {
        let bc = chars_of(branch);
        let t = crate::text::trim_chars(bc.as_slice());
        let ts = string_from_chars(t.as_slice());
        let g = match self.resolve_group_name(group) {
            Ok(g) => g,
            Err(_) => return None,
        };
        match self.entries.get(g.as_str()) {
            None => None,
            Some(grp) => if grp.tags.contains_key(ts.as_str()) {
                Some(ts)
            } else {
                None
            },
        }
    }
}

} // verus!
