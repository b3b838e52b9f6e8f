//! Granting and using access: the per-secret keys a token carries, issuing
//! a token, reading secrets with a token's keys, and reading a scope's
//! secrets with the master key.
use crate::crypto::{
    decrypt, decrypt_result, derive_entry_key, derive_scope_dek, entry_key, scope_dek, SigningKey,
};
use crate::error::{ErrorModel, VaultError};
use crate::ops::{add_keys, listed_keys, opt_key_view, tag_or_base, utf8_to_string};
use crate::rotate::{first_error, lemma_first_error_prefix, lemma_first_error_step, read_fail};
use crate::scope::tag_scope_text;
use crate::ops::master_scope_text;
use crate::strmap::StrMap;
use crate::text::{chars_eq, chars_of};
use crate::token::{payload_json, token_text, TokenManager, TokenPayload};
use crate::vault::{base_tag, base_tag_string, is_base_tag, opt_view, Entry, Group, Vault};
use vstd::prelude::*;
use vstd::slice::slice_to_vec;
use vstd::utf8::{decode_utf8, valid_utf8};

verus! {

/// Whether a name passes a token's filter: every name where there is no
/// filter or it is empty, else the names it lists.
pub open spec fn passes(filter: Option<Seq<Seq<char>>>, name: Seq<char>) -> bool {
    match filter {
        None => true,
        Some(f) => f.len() == 0 || f.contains(name),
    }
}

pub open spec fn filter_view(filter: Option<&[String]>) -> Option<Seq<Seq<char>>> {
    match filter {
        Some(f) => Some(f@.map_values(|s: String| s@)),
        None => None,
    }
}

fn passes_filter(filter: Option<&[String]>, name: &str) -> (b: bool)
    ensures
        b == passes(filter_view(filter), name@),
{
    match filter {
        None => true,
        Some(f) => {
            if f.len() == 0 {
                return true;
            }
            let nc = chars_of(name);
            let ghost fv = f@.map_values(|s: String| s@);
            assert(filter_view(filter) == Some(fv));
            let mut i: usize = 0;
            while i < f.len()
                invariant
                    i <= f.len(),
                    nc@ == name@,
                    fv == f@.map_values(|s: String| s@),
                    filter_view(filter) == Some(fv),
                    forall|j: int| 0 <= j < i ==> fv[j] != name@,
                decreases f.len() - i,
            {
                let fc = chars_of(f[i].as_str());
                if chars_eq(fc.as_slice(), nc.as_slice()) {
                    assert(fv[i as int] == name@);
                    assert(fv.contains(name@));
                    return true;
                }
                i = i + 1;
            }
            proof {
                if fv.contains(name@) {
                    let j = choose|j: int| 0 <= j < fv.len() && fv[j] == name@;
                }
            }
            false
        },
    }
}

/// Whether the tag's own keys take part: a tag other than the base tag
/// was given and the group has it.
pub open spec fn tag_part(grp: Group, tag: Option<Seq<char>>) -> bool {
    tag matches Some(t) && t != base_tag() && grp.tags@.contains_key(t)
}

/// The entry keys a token for tag `tag` of group `g` grants, by name: every
/// base name and every name of the tag, the tag's key replacing the base
/// key where both have the name; only names that pass the filter.
pub open spec fn token_key_map(
    v: Vault,
    master_dek: Seq<u8>,
    g: Seq<char>,
    tag: Option<Seq<char>>,
    tag_dek: Option<Seq<u8>>,
    filter: Option<Seq<Seq<char>>>,
) -> Map<Seq<char>, Seq<u8>> {
    let grp = v.entries@[g];
    let t = tag->Some_0;
    let in_tag = |n: Seq<char>| tag_part(grp, tag) && grp.tags@[t].entries@.contains_key(n);
    let tk = if grp.tags@[t].salt is Some {
        tag_dek->Some_0
    } else {
        scope_dek(master_dek, g, t)
    };
    Map::new(
        |n: Seq<char>| passes(filter, n) && (grp.base@.contains_key(n) || in_tag(n)),
        |n: Seq<char>|
            if in_tag(n) {
                entry_key(tk, n)
            } else {
                entry_key(scope_dek(master_dek, g, base_tag()), n)
            },
    )
}

/// Why `generate_token_keys` refuses, where it does.
pub open spec fn token_keys_refusal(
    v: Vault,
    group: Option<Seq<char>>,
    tag: Option<Seq<char>>,
    has_tag_dek: bool,
) -> Option<ErrorModel> {
    match v.group_for(group) {
        Err(e) => Some(e),
        Ok(g) => if !v.entries@.contains_key(g) {
            Some(ErrorModel::GroupNotFound(g))
        } else if tag_part(v.entries@[g], tag) && v.entries@[g].tags@[tag->Some_0].salt is Some
            && !has_tag_dek {
            Some(ErrorModel::TagKeyRequired(tag->Some_0))
        } else {
            None
        },
    }
}

/// Adds the entry key of each name of `names` that passes the filter.
fn add_entry_keys(
    out: &mut StrMap<Vec<u8>>,
    names: &StrMap<Entry>,
    scope_key: &[u8; 32],
    filter: Option<&[String]>,
)
    ensures
        final(out)@.dom() == old(out)@.dom() + Set::new(
            |k: Seq<char>| names@.contains_key(k) && passes(filter_view(filter), k),
        ),
        forall|k: Seq<char>| #[trigger] final(out)@.contains_key(k) ==> if names@.contains_key(k)
            && passes(filter_view(filter), k) {
            final(out)@[k]@ == entry_key(scope_key@, k)
        } else {
            final(out)@[k] == old(out)@[k]
        },
{
    proof {
        use_type_invariant(names);
    }
    let ghost o0 = out@;
    let n = names.len();
    let mut i: usize = 0;
    while i < n
        invariant
            i <= n,
            n == names.entries().len(),
            names.wf(),
            out@.dom() == o0.dom() + Set::new(
                |k: Seq<char>|
                    exists|j: int|
                        0 <= j < i && #[trigger] names.entries()[j].0 == k && passes(
                            filter_view(filter),
                            k,
                        ),
            ),
            forall|k: Seq<char>| #[trigger] out@.contains_key(k) ==> if (exists|j: int|
                0 <= j < i && #[trigger] names.entries()[j].0 == k && passes(filter_view(filter), k)) {
                out@[k]@ == entry_key(scope_key@, k)
            } else {
                out@[k] == o0[k]
            },
        decreases n - i,
    {
        let k = names.key_at(i);
        if passes_filter(filter, k.as_str()) {
            let ek = derive_entry_key(scope_key, k.as_str());
            out.insert(k.clone(), slice_to_vec(&ek));
        }
        proof {
            assert(names.entries()[i as int].0 == k@);
            assert(out@.dom() =~= o0.dom() + Set::new(
                |u: Seq<char>|
                    exists|j: int|
                        0 <= j < i + 1 && #[trigger] names.entries()[j].0 == u && passes(
                            filter_view(filter),
                            u,
                        ),
            ));
        }
        i = i + 1;
    }
    proof {
        assert forall|k: Seq<char>| names@.contains_key(k) implies (exists|j: int|
            0 <= j < n && #[trigger] names.entries()[j].0 == k) by {
            let j = names.lemma_index_of(k);
        }
        assert forall|k: Seq<char>| (exists|j: int| 0 <= j < n && #[trigger] names.entries()[j].0 == k)
            implies names@.contains_key(k) by {
            let j = choose|j: int| 0 <= j < n && #[trigger] names.entries()[j].0 == k;
            crate::strmap::lemma_map_of_at(names.entries(), j);
        }
        assert(out@.dom() =~= o0.dom() + Set::new(
            |k: Seq<char>| names@.contains_key(k) && passes(filter_view(filter), k),
        ));
    }
}


impl Vault {
    /// The entry keys a token for a tag of a group grants: each base name
    /// under the base scope key, each name of the tag (when a tag other
    /// than the base tag is given and exists) under the tag's scope key
    /// (`tag_dek` for a protected tag), replacing the base one; only names
    /// that pass the filter.
    pub fn generate_token_keys(
        &self,
        master_dek: &[u8; 32],
        group: Option<&str>,
        tag: Option<&str>,
        tag_dek: Option<&[u8; 32]>,
        filter_keys: Option<&[String]>,
    ) -> (r: Result<StrMap<Vec<u8>>, VaultError>)
        ensures
            match token_keys_refusal(*self, opt_view(group), opt_view(tag), tag_dek is Some) {
                Some(m) => r matches Err(e) && e@ == m,
                None => r matches Ok(keys) && keys@.dom() == token_key_map(
                    *self,
                    master_dek@,
                    self.group_for(opt_view(group))->Ok_0,
                    opt_view(tag),
                    opt_key_view(tag_dek),
                    filter_view(filter_keys),
                ).dom() && forall|n: Seq<char>| #[trigger] keys@.contains_key(n) ==> keys@[n]@
                    == token_key_map(
                    *self,
                    master_dek@,
                    self.group_for(opt_view(group))->Ok_0,
                    opt_view(tag),
                    opt_key_view(tag_dek),
                    filter_view(filter_keys),
                )[n],
            },
    {
        let g = self.resolve_group_name(group)?;
        let grp = match self.entries.get(g.as_str()) {
            None => return Err(VaultError::GroupNotFound(g)),
            Some(x) => x,
        };
        let b = base_tag_string();
        let bk = derive_scope_dek(master_dek, g.as_str(), b.as_str());
        let mut out: StrMap<Vec<u8>> = StrMap::new();
        add_entry_keys(&mut out, &grp.base, &bk, filter_keys);
        let ghost after_base = out@;
        if let Some(t) = tag {
            if !is_base_tag(t) {
                if let Some(tg) = grp.tags.get(t) {
                    let tk = if tg.salt.is_some() {
                        match tag_dek {
                            None => return Err(VaultError::TagKeyRequired(String::from_str(t))),
                            Some(k) => *k,
                        }
                    } else {
                        derive_scope_dek(master_dek, g.as_str(), t)
                    };
                    add_entry_keys(&mut out, &tg.entries, &tk, filter_keys);
                }
            }
        }
        proof {
            let m = token_key_map(
                *self,
                master_dek@,
                g@,
                opt_view(tag),
                opt_key_view(tag_dek),
                filter_view(filter_keys),
            );
            assert(out@.dom() =~= m.dom());
        }
        Ok(out)
    }
}

/// The entry a token reads for a name of tag `t` of a group: the tag's own
/// where the tag has the name, else the base one.
pub open spec fn target_entry(grp: Group, t: Seq<char>, n: Seq<char>) -> Entry {
    if grp.tags@.contains_key(t) && grp.tags@[t].entries@.contains_key(n) {
        grp.tags@[t].entries@[n]
    } else {
        grp.base@[n]
    }
}

/// The names a token read covers in tag `t` of a group: the base names and,
/// where the group has the tag, the tag's.
pub open spec fn target_names(grp: Group, t: Seq<char>) -> Set<Seq<char>> {
    if grp.tags@.contains_key(t) {
        grp.base@.dom() + grp.tags@[t].entries@.dom()
    } else {
        grp.base@.dom()
    }
}

/// What a token key opens an entry to.
pub open spec fn token_value(key: Seq<u8>, e: Entry, n: Seq<char>) -> Result<Seq<char>, ErrorModel> {
    match decrypt_result(key, e.nonce@, e.ciphertext@) {
        Err(_) => Err(ErrorModel::TokenRevoked(n)),
        Ok(p) => if valid_utf8(p) {
            Ok(decode_utf8(p))
        } else {
            Err(ErrorModel::TokenValueNotUtf8)
        },
    }
}

/// The error of reading one name with a token's keys, if any (names the
/// token holds no key for are skipped; a key that is not 32 bytes long is
/// refused).
pub open spec fn token_fail(grp: Group, t: Seq<char>, keys: Map<Seq<char>, Vec<u8>>) -> spec_fn(
    Seq<char>,
) -> Option<ErrorModel> {
    |n: Seq<char>|
        if keys.contains_key(n) {
            if keys[n]@.len() != 32 {
                Some(ErrorModel::TokenKeyLength)
            } else {
                match token_value(keys[n]@, target_entry(grp, t, n), n) {
                    Err(e) => Some(e),
                    Ok(_) => None,
                }
            }
        } else {
            None
        }
}

fn key32(v: &Vec<u8>) -> (k: [u8; 32])
    requires
        v@.len() == 32,
    ensures
        k@ == v@,
{
    let k = crate::crypto::array32(v.as_slice());
    assert(v@.take(32) == v@);
    k
}

impl Vault {
    /// Reads with a token: each name of the tag (the base tag when none is
    /// given) of a group, and each base name, that the token holds a key
    /// for, in ascending order, stopping at the first that does not open.
    pub fn decrypt_from_token(&self, group: Option<&str>, tag: Option<&str>, payload: &TokenPayload) -> (r:
        Result<StrMap<String>, VaultError>)
        ensures
            match self.group_for(opt_view(group)) {
                Err(m) => r matches Err(e) && e@ == m,
                Ok(g) => if !self.entries@.contains_key(g) {
                    r matches Err(e) && e@ == ErrorModel::GroupNotFound(g)
                } else {
                    let grp = self.entries@[g];
                    let t = tag_or_base(opt_view(tag));
                    let keys = payload.keys()@;
                    let names = crate::strmap::sorted_set(target_names(grp, t));
                    match first_error(names, token_fail(grp, t, keys)) {
                        Some(m) => r matches Err(e) && e@ == m,
                        None => r matches Ok(vals) && vals@.dom() == target_names(grp, t).intersect(
                            keys.dom(),
                        ) && forall|n: Seq<char>| #[trigger] vals@.contains_key(n) ==> token_value(
                            keys[n]@,
                            target_entry(grp, t, n),
                            n,
                        ) == Ok::<Seq<char>, ErrorModel>(vals@[n]@),
                    }
                },
            },
    {
        let g = self.resolve_group_name(group)?;
        let grp = match self.entries.get(g.as_str()) {
            None => return Err(VaultError::GroupNotFound(g)),
            Some(x) => x,
        };
        let active = match tag {
            Some(t) => String::from_str(t),
            None => base_tag_string(),
        };
        let tag_entry = grp.tags.get(active.as_str());
        let mut acc: StrMap<bool> = StrMap::new();
        add_keys(&mut acc, &grp.base);
        if let Some(tg) = tag_entry {
            add_keys(&mut acc, &tg.entries);
        }
        let names = acc.keys();
        proof {
            acc.lemma_key_set();
            assert(acc@.dom() =~= target_names(*grp, active@));
            crate::strmap::lemma_sorted_set(acc.key_seq(), target_names(*grp, active@));
        }
        let keys = match &payload.key_material {
            crate::token::TokenKeyMaterial::GranularKeys(k) => k,
        };
        let ghost f = token_fail(*grp, active@, keys@);
        let ghost nseq = acc.key_seq();
        let mut out: StrMap<String> = StrMap::new();
        let mut i: usize = 0;
        while i < names.len()
            invariant
                i <= names.len(),
                names@.map_values(|s: String| s@) == nseq,
                nseq.to_set() == target_names(*grp, active@),
                crate::strmap::sorted_set(target_names(*grp, active@)) == nseq,
                f == token_fail(*grp, active@, keys@),
                keys == payload.keys(),
                self.group_for(opt_view(group)) == Ok::<Seq<char>, ErrorModel>(g@),
                self.entries@.contains_key(g@),
                *grp == self.entries@[g@],
                active@ == tag_or_base(opt_view(tag)),
                tag_entry matches Some(tg) ==> grp.tags@.contains_key(active@) && *tg == grp.tags@[active@],
                tag_entry is None ==> !grp.tags@.contains_key(active@),
                first_error(nseq.take(i as int), f) is None,
                out@.dom() == nseq.take(i as int).to_set().intersect(keys@.dom()),
                forall|n: Seq<char>| #[trigger] out@.contains_key(n) ==> token_value(
                    keys@[n]@,
                    target_entry(*grp, active@, n),
                    n,
                ) == Ok::<Seq<char>, ErrorModel>(out@[n]@),
            decreases names.len() - i,
        {
            let n = &names[i];
            assert(nseq[i as int] == n@);
            proof {
                lemma_first_error_step(nseq, f, i as int);
                assert(nseq.to_set().contains(n@));
                assert(nseq.take(i + 1) == nseq.take(i as int).push(n@));
            }
            match keys.get(n.as_str()) {
                None => {
                    proof {
                        assert(out@.dom() =~= nseq.take(i + 1).to_set().intersect(keys@.dom()));
                    }
                },
                Some(kb) => {
                    let e: &Entry = match tag_entry {
                        Some(tg) => match tg.entries.get(n.as_str()) {
                            Some(te) => te,
                            None => grp.base.get(n.as_str()).unwrap(),
                        },
                        None => grp.base.get(n.as_str()).unwrap(),
                    };
                    assert(*e == target_entry(*grp, active@, n@));
                    if kb.len() != 32 {
                        proof {
                            lemma_first_error_prefix(nseq, f, i + 1);
                        }
                        return Err(VaultError::TokenKeyLength);
                    }
                    let k = key32(kb);
                    match decrypt(&k, e.nonce.as_slice(), e.ciphertext.as_slice()) {
                        Err(_) => {
                            proof {
                                lemma_first_error_prefix(nseq, f, i + 1);
                            }
                            return Err(VaultError::TokenRevoked(n.clone()));
                        },
                        Ok(p) => match utf8_to_string(p) {
                            None => {
                                proof {
                                    lemma_first_error_prefix(nseq, f, i + 1);
                                }
                                return Err(VaultError::TokenValueNotUtf8);
                            },
                            Some(s) => {
                                out.insert(n.clone(), s);
                                proof {
                                    assert(out@.dom() =~= nseq.take(i + 1).to_set().intersect(keys@.dom()));
                                }
                            },
                        },
                    }
                },
            }
            i = i + 1;
        }
        proof {
            assert(nseq.take(names.len() as int) == nseq);
        }
        Ok(out)
    }
}


impl Vault {
    /// Issues a token for a tag of a group (the base tag when none is
    /// given): the tag's session scope, the entry keys it grants (see
    /// `generate_token_keys`), expiring `ttl_seconds` after `now`.
    pub fn create_token(
        &self,
        signing_key: &SigningKey,
        master_dek: &[u8; 32],
        group: Option<&str>,
        tag: Option<&str>,
        tag_dek: Option<&[u8; 32]>,
        sub: &str,
        ttl_seconds: Option<u64>,
        description: Option<&str>,
        filter_keys: Option<&[String]>,
        now: u64,
    ) -> (r: Result<String, VaultError>)
        requires
            ttl_seconds matches Some(t) ==> now + t <= u64::MAX,
        ensures
            match token_keys_refusal(*self, opt_view(group), opt_view(tag), tag_dek is Some) {
                Some(m) => r matches Err(e) && e@ == m,
                None => match r {
                    Err(_) => false,
                    Ok(t) => exists|keys: StrMap<Vec<u8>>| #![trigger keys.entries()] {
                        let g = self.group_for(opt_view(group))->Ok_0;
                        let m = token_key_map(
                            *self,
                            master_dek@,
                            g,
                            opt_view(tag),
                            opt_key_view(tag_dek),
                            filter_view(filter_keys),
                        );
                        &&& keys@.dom() == m.dom()
                        &&& forall|n: Seq<char>| #[trigger] keys@.contains_key(n) ==> keys@[n]@ == m[n]
                        &&& t@ == token_text(
                            signing_key.seed@,
                            payload_json(
                                tag_scope_text(
                                    master_scope_text(self.public_key@),
                                    g,
                                    tag_or_base(opt_view(tag)),
                                ),
                                keys.entries(),
                                sub@,
                                now as nat,
                                match ttl_seconds {
                                    Some(t) => Some((now + t) as nat),
                                    None => None,
                                },
                                match description {
                                    Some(d) => Some(d@),
                                    None => None,
                                },
                            ),
                        )
                    },
                },
            },
    {
        let active = match tag {
            Some(t) => String::from_str(t),
            None => base_tag_string(),
        };
        let scope = self.tag_scope(group, active.as_str())?;
        let keys = self.generate_token_keys(master_dek, group, tag, tag_dek, filter_keys)?;
        let ghost kv = keys;
        let r = TokenManager::create(signing_key, scope.as_str(), keys, sub, ttl_seconds, description, now);
        proof {
            if r is Ok {
                let t = r->Ok_0;
                assert(kv@.dom() == token_key_map(
                    *self,
                    master_dek@,
                    self.group_for(opt_view(group))->Ok_0,
                    opt_view(tag),
                    opt_key_view(tag_dek),
                    filter_view(filter_keys),
                ).dom());
            }
        }
        r
    }

    /// Reads the secrets visible in a tag of a group (the base tag when none
    /// is given) with the master data key: each name `list_all_keys` lists,
    /// read with `get_entry`, in ascending order, stopping at the first error.
    pub fn resolve_with_keys(&self, master_dek: &[u8; 32], group: Option<&str>, tag: Option<&str>) -> (r:
        Result<StrMap<String>, VaultError>)
        ensures
            match self.group_for(opt_view(group)) {
                Err(m) => r matches Err(e) && e@ == m,
                Ok(g) => if !self.entries@.contains_key(g) {
                    r matches Err(e) && e@ == ErrorModel::NoGroupNamed(g)
                } else {
                    let t = tag_or_base(opt_view(tag));
                    let names = crate::strmap::sorted_set(listed_keys(*self, g, t));
                    let f = read_fail(*self, master_dek@, opt_view(group), Some(t), None);
                    match first_error(names, f) {
                        Some(m) => r matches Err(e) && e@ == m,
                        None => r matches Ok(vals) && vals@.dom() == listed_keys(*self, g, t)
                            && forall|n: Seq<char>| #[trigger] vals@.contains_key(n) ==> self.lookup(
                            master_dek@,
                            opt_view(group),
                            Some(t),
                            n,
                            None,
                        ) == Ok::<Seq<char>, ErrorModel>(vals@[n]@),
                    }
                },
            },
    {
        let active = match tag {
            Some(t) => String::from_str(t),
            None => base_tag_string(),
        };
        let names = self.list_all_keys(group, Some(active.as_str()))?;
        let ghost g = self.group_for(opt_view(group))->Ok_0;
        let ghost nseq = crate::vault::strings_view(names@);
        proof {
            crate::strmap::lemma_sorted_set(nseq, listed_keys(*self, g, active@));
        }
        let ghost f = read_fail(*self, master_dek@, opt_view(group), Some(active@), None);
        let mut out: StrMap<String> = StrMap::new();
        let mut i: usize = 0;
        while i < names.len()
            invariant
                i <= names.len(),
                nseq == crate::vault::strings_view(names@),
                self.group_for(opt_view(group)) == Ok::<Seq<char>, ErrorModel>(g),
                self.entries@.contains_key(g),
                active@ == tag_or_base(opt_view(tag)),
                nseq.to_set() == listed_keys(*self, g, active@),
                crate::strmap::sorted_set(listed_keys(*self, g, active@)) == nseq,
                f == read_fail(*self, master_dek@, opt_view(group), Some(active@), None),
                first_error(nseq.take(i as int), f) is None,
                out@.dom() == nseq.take(i as int).to_set(),
                forall|n: Seq<char>| #[trigger] out@.contains_key(n) ==> self.lookup(
                    master_dek@,
                    opt_view(group),
                    Some(active@),
                    n,
                    None,
                ) == Ok::<Seq<char>, ErrorModel>(out@[n]@),
            decreases names.len() - i,
        {
            let n = &names[i];
            assert(nseq[i as int] == n@);
            proof {
                lemma_first_error_step(nseq, f, i as int);
                assert(nseq.take(i + 1) == nseq.take(i as int).push(n@));
            }
            match self.get_entry(master_dek, group, Some(active.as_str()), n.as_str(), None) {
                Err(e) => {
                    proof {
                        lemma_first_error_prefix(nseq, f, i + 1);
                    }
                    return Err(e);
                },
                Ok(v) => {
                    out.insert(n.clone(), v);
                    proof {
                        assert(out@.dom() =~= nseq.take(i + 1).to_set());
                    }
                },
            }
            i = i + 1;
        }
        proof {
            assert(nseq.take(names.len() as int) == nseq);
        }
        Ok(out)
    }

    /// Reads the secrets of a tag of a group with a token whose signature
    /// and expiry were checked: the tag given, else the one the token's
    /// scope names (the base tag where it names none of this vault); the
    /// token must be scoped for that tag; see `decrypt_from_token`.
    pub fn resolve_with_token(&self, group: Option<&str>, tag: Option<&str>, payload: &TokenPayload) -> (r:
        Result<StrMap<String>, VaultError>)
        ensures
            match self.group_for(opt_view(group)) {
                Err(m) => r matches Err(e) && e@ == m,
                Ok(g) => {
                    let t = inferred_tag(*self, opt_view(tag), payload.scope@);
                    let expected = tag_scope_text(master_scope_text(self.public_key@), g, t);
                    if payload.scope@ != expected {
                        r matches Err(e) && e@ == ErrorModel::TokenScopeMismatch(payload.scope@, expected)
                    } else if !self.entries@.contains_key(g) {
                        r matches Err(e) && e@ == ErrorModel::GroupNotFound(g)
                    } else {
                        let grp = self.entries@[g];
                        let keys = payload.keys()@;
                        match first_error(crate::strmap::sorted_set(target_names(grp, t)), token_fail(grp, t, keys)) {
                            Some(m) => r matches Err(e) && e@ == m,
                            None => r matches Ok(vals) && vals@.dom() == target_names(grp, t).intersect(
                                keys.dom(),
                            ) && forall|n: Seq<char>| #[trigger] vals@.contains_key(n) ==> token_value(
                                keys[n]@,
                                target_entry(grp, t, n),
                                n,
                            ) == Ok::<Seq<char>, ErrorModel>(vals@[n]@),
                        }
                    }
                },
            },
    {
        let inferred = match tag {
            Some(t) => String::from_str(t),
            None => {
                let m = self.master_scope();
                let mc = chars_of(m.as_str());
                let sc = chars_of(payload.scope.as_str());
                match crate::scope::parse_scope_chars(mc.as_slice(), sc.as_slice()) {
                    Some((_, t)) => crate::text::string_from_chars(t.as_slice()),
                    None => base_tag_string(),
                }
            },
        };
        let expected = self.tag_scope(group, inferred.as_str())?;
        let sc = chars_of(payload.scope.as_str());
        let ec = chars_of(expected.as_str());
        if !chars_eq(sc.as_slice(), ec.as_slice()) {
            return Err(VaultError::TokenScopeMismatch(payload.scope.clone(), expected));
        }
        self.decrypt_from_token(group, Some(inferred.as_str()), payload)
    }
}

/// The tag a token read is for: the one given, else the one the token's
/// scope names for this vault, else the base tag.
pub open spec fn inferred_tag(v: Vault, tag: Option<Seq<char>>, scope: Seq<char>) -> Seq<char> {
    match tag {
        Some(t) => t,
        None => match crate::scope::parse_scope_text(master_scope_text(v.public_key@), scope) {
            Some((_, t)) => t,
            None => base_tag(),
        },
    }
}

} // verus!
