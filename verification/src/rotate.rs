//! Rotating data keys: a protected tag's own key, or the master data key,
//! with every value it covers sealed anew under keys derived from the new one.
use crate::crypto::{
    aes256gcm_open, argon2id, byte_len, derive_key, derive_scope_dek, derive_entry_key,
    entry_key, generate_dek, kdf_accepts, scope_dek, utf8_len, CryptoError, AES_GCM_P_MAX,
};
use crate::error::{ErrorModel, VaultError};
use crate::lifecycle::{tag_key_result, wrap_key};
use crate::ops::{opt_key_view, seal_value, sealed_by, seals, tag_or_base};
use crate::strmap::StrMap;
use crate::vault::{
    base_tag, base_tag_string, is_base_tag, opt_view, Entry, Group, Tag, Vault, VaultKeys,
};
use vstd::prelude::*;
use vstd::utf8::encode_utf8;

verus! {

/// The first error that `f` finds along `s`, if any.
pub open spec fn first_error<A>(s: Seq<A>, f: spec_fn(A) -> Option<ErrorModel>) -> Option<
    ErrorModel,
>
    decreases s.len(),
{
    if s.len() == 0 {
        None
    } else {
        match first_error(s.drop_last(), f) {
            Some(e) => Some(e),
            None => f(s.last()),
        }
    }
}

/// A scan finds no error exactly when no item has one, and an error it
/// finds is the error of some item.
pub proof fn lemma_first_error_items<A>(s: Seq<A>, f: spec_fn(A) -> Option<ErrorModel>)
    ensures
        first_error(s, f) is None <==> forall|i: int| 0 <= i < s.len() ==> #[trigger] f(s[i]) is None,
        first_error(s, f) matches Some(e) ==> exists|i: int| 0 <= i < s.len() && #[trigger] f(s[i]) == Some(e),
    decreases s.len(),
{
    if s.len() > 0 {
        let p = s.drop_last();
        lemma_first_error_items(p, f);
        assert forall|i: int| 0 <= i < p.len() implies #[trigger] p[i] == s[i] by {}
        match first_error(p, f) {
            Some(e) => {
                let i = choose|i: int| 0 <= i < p.len() && #[trigger] f(p[i]) == Some(e);
                assert(f(s[i]) == Some(e));
            },
            None => {
                assert(s.last() == s[s.len() - 1]);
                if first_error(s, f) is None {
                    assert forall|i: int| 0 <= i < s.len() implies #[trigger] f(s[i]) is None by {
                        if i < p.len() {
                            assert(f(p[i]) is None);
                        }
                    }
                }
            },
        }
    }
}

/// Once a prefix has an error, it is the first error of the whole.
pub proof fn lemma_first_error_prefix<A>(s: Seq<A>, f: spec_fn(A) -> Option<ErrorModel>, i: int)
    requires
        0 <= i <= s.len(),
        first_error(s.take(i), f) is Some,
    ensures
        first_error(s, f) == first_error(s.take(i), f),
    decreases s.len(),
{
    if i == s.len() {
        assert(s.take(i) == s);
    } else {
        assert(s.drop_last().take(i) == s.take(i));
        lemma_first_error_prefix(s.drop_last(), f, i);
    }
}

/// One step of a scan: the first error of the first `i + 1` items.
pub proof fn lemma_first_error_step<A>(s: Seq<A>, f: spec_fn(A) -> Option<ErrorModel>, i: int)
    requires
        0 <= i < s.len(),
    ensures
        first_error(s.take(i + 1), f) == match first_error(s.take(i), f) {
            Some(e) => Some(e),
            None => f(s[i]),
        },
{
    assert(s.take(i + 1).drop_last() == s.take(i));
}

/// The error of reading one name of a scope, if any.
pub open spec fn read_fail(
    v: Vault,
    master_dek: Seq<u8>,
    group: Option<Seq<char>>,
    tag: Option<Seq<char>>,
    tag_dek: Option<Seq<u8>>,
) -> spec_fn(Seq<char>) -> Option<ErrorModel> {
    |k: Seq<char>|
        match v.lookup(master_dek, group, tag, k, tag_dek) {
            Err(e) => Some(e),
            Ok(_) => None,
        }
}

/// The values read for the names of a scope: each what `get_entry` gives.
pub open spec fn values_read(
    v: Vault,
    master_dek: Seq<u8>,
    group: Option<Seq<char>>,
    tag: Option<Seq<char>>,
    tag_dek: Option<Seq<u8>>,
    names: Map<Seq<char>, Entry>,
    vals: Map<Seq<char>, String>,
) -> bool {
    &&& vals.dom() == names.dom()
    &&& forall|k: Seq<char>| #[trigger] vals.contains_key(k) ==> v.lookup(master_dek, group, tag, k, tag_dek)
        == Ok::<Seq<char>, ErrorModel>(vals[k]@)
}

/// Every value is short enough to be sealed.
pub open spec fn values_fit(vals: Map<Seq<char>, String>) -> bool {
    forall|k: Seq<char>| #[trigger] vals.contains_key(k) ==> utf8_len(vals[k]@) <= AES_GCM_P_MAX
}

/// Reads every name of a scope, in ascending order, stopping at the first
/// error; also tells whether every value is short enough to be sealed.
pub(crate) fn read_scope(
    v: &Vault,
    master_dek: &[u8; 32],
    group: Option<&str>,
    tag: Option<&str>,
    names: &StrMap<Entry>,
    tag_dek: Option<&[u8; 32]>,
) -> (r: Result<(StrMap<String>, bool), VaultError>)
    ensures
        match r {
            Ok((vals, fit)) => {
                &&& first_error(
                    names.key_seq(),
                    read_fail(*v, master_dek@, opt_view(group), opt_view(tag), opt_key_view(tag_dek)),
                ) is None
                &&& values_read(
                    *v,
                    master_dek@,
                    opt_view(group),
                    opt_view(tag),
                    opt_key_view(tag_dek),
                    names@,
                    vals@,
                )
                &&& fit == values_fit(vals@)
            },
            Err(e) => first_error(
                names.key_seq(),
                read_fail(*v, master_dek@, opt_view(group), opt_view(tag), opt_key_view(tag_dek)),
            ) == Some(e@),
        },
{
    let ghost f = read_fail(*v, master_dek@, opt_view(group), opt_view(tag), opt_key_view(tag_dek));
    let ks = names.keys();
    proof {
        names.lemma_key_set();
    }
    let ghost kseq = names.key_seq();
    let mut vals: StrMap<String> = StrMap::new();
    let mut fit = true;
    let mut i: usize = 0;
    while i < ks.len()
        invariant
            i <= ks.len(),
            ks@.map_values(|s: String| s@) == kseq,
            kseq == names.key_seq(),
            kseq.to_set() == names@.dom(),
            f == read_fail(*v, master_dek@, opt_view(group), opt_view(tag), opt_key_view(tag_dek)),
            first_error(kseq.take(i as int), f) is None,
            vals@.dom() == kseq.take(i as int).to_set(),
            forall|k: Seq<char>| #[trigger] vals@.contains_key(k) ==> v.lookup(
                master_dek@,
                opt_view(group),
                opt_view(tag),
                k,
                opt_key_view(tag_dek),
            ) == Ok::<Seq<char>, ErrorModel>(vals@[k]@),
            fit == values_fit(vals@),
        decreases ks.len() - i,
    {
        let k = &ks[i];
        assert(kseq[i as int] == k@);
        proof {
            lemma_first_error_step(kseq, f, i as int);
        }
        match v.get_entry(master_dek, group, tag, k.as_str(), tag_dek) {
            Err(e) => {
                proof {
                    lemma_first_error_prefix(kseq, f, i + 1);
                }
                return Err(e);
            },
            Ok(val) => {
                let ghost old_vals = vals@;
                let short = byte_len(val.as_str()) as u64 <= AES_GCM_P_MAX;
                fit = fit && short;
                vals.insert(k.clone(), val);
                proof {
                    assert(kseq.take(i + 1) == kseq.take(i as int).push(k@));
                    assert(vals@.dom() =~= kseq.take(i + 1).to_set());
                    if fit {
                        assert(values_fit(vals@));
                    } else {
                        if !values_fit(old_vals) {
                            let w = choose|w: Seq<char>| #[trigger] old_vals.contains_key(w)
                                && utf8_len(old_vals[w]@) > AES_GCM_P_MAX;
                            if w != k@ {
                                assert(vals@.contains_key(w));
                            }
                        }
                        assert(vals@.contains_key(k@));
                    }
                }
            },
        }
        i = i + 1;
    }
    proof {
        assert(kseq.take(ks.len() as int) == kseq);
    }
    Ok((vals, fit))
}

/// Seals each value of `vals` as its name into `entries`, under the entry
/// key derived from `scope_key`.
fn reseal_scope(entries: &mut StrMap<Entry>, vals: &StrMap<String>, scope_key: &[u8; 32])
    requires
        old(entries)@.dom() == vals@.dom(),
        values_fit(vals@),
    ensures
        scope_resealed(old(entries)@, final(entries)@, scope_key@, vals@),
{
    proof {
        use_type_invariant(vals);
    }
    let ghost d0 = entries@.dom();
    let n = vals.len();
    let mut i: usize = 0;
    while i < n
        invariant
            i <= n,
            n == vals.entries().len(),
            vals.wf(),
            values_fit(vals@),
            d0 == vals@.dom(),
            entries@.dom() == d0,
            forall|j: int|
                0 <= j < i ==> seals(
                    entries@[(#[trigger] vals.entries()[j]).0],
                    entry_key(scope_key@, vals.entries()[j].0),
                    vals.entries()[j].1@,
                ),
        decreases n - i,
    {
        let k = vals.key_at(i);
        let val = vals.value_at(i);
        let ek = derive_entry_key(scope_key, k.as_str());
        proof {
            assert(vals@.contains_key(k@));
        }
        let ghost before = entries@;
        match seal_value(&ek, val.as_str()) {
            Ok(e) => {
                entries.insert(k.clone(), e);
                proof {
                    assert forall|j: int| 0 <= j < i + 1 implies seals(
                        entries@[(#[trigger] vals.entries()[j]).0],
                        entry_key(scope_key@, vals.entries()[j].0),
                        vals.entries()[j].1@,
                    ) by {
                        if j < i && vals.entries()[j].0 == k@ {
                            crate::strmap::lemma_sorted_distinct(vals.key_seq(), j, i as int);
                        }
                    }
                }
            },
            Err(_) => {
                assert(false);
            },
        }
        i = i + 1;
    }
    proof {
        assert forall|k: Seq<char>| #[trigger] entries@.contains_key(k) implies seals(
            entries@[k],
            entry_key(scope_key@, k),
            vals@[k]@,
        ) by {
            let j = vals.lemma_index_of(k);
        }
    }
}

/// `new` holds the names of `old`, each sealing its value in `vals` under
/// the entry key derived from `key`.
pub open spec fn scope_resealed(
    old: Map<Seq<char>, Entry>,
    new: Map<Seq<char>, Entry>,
    key: Seq<u8>,
    vals: Map<Seq<char>, String>,
) -> bool {
    &&& new.dom() == old.dom()
    &&& forall|k: Seq<char>| #[trigger] new.contains_key(k) ==> seals(new[k], entry_key(key, k), vals[k]@)
}


/// The error of reading the entries of one tag of group `g`, where it is
/// unprotected (a protected tag keeps its key and is not read).
pub open spec fn tag_fail(v: Vault, master_dek: Seq<u8>, g: Seq<char>) -> spec_fn(
    (Seq<char>, Tag),
) -> Option<ErrorModel> {
    |p: (Seq<char>, Tag)|
        if p.1.salt is None {
            first_error(p.1.entries.key_seq(), read_fail(v, master_dek, Some(g), Some(p.0), None))
        } else {
            None
        }
}

/// The first error of reading group `g`: its base names, then the names of
/// its unprotected tags, tag by tag, in ascending order.
pub open spec fn group_read_error(v: Vault, master_dek: Seq<u8>, g: Seq<char>, grp: Group) -> Option<
    ErrorModel,
> {
    match first_error(grp.base.key_seq(), read_fail(v, master_dek, Some(g), None, None)) {
        Some(e) => Some(e),
        None => first_error(grp.tags.entries(), tag_fail(v, master_dek, g)),
    }
}

/// The error of reading one group, if any.
pub open spec fn group_fail(v: Vault, master_dek: Seq<u8>) -> spec_fn((Seq<char>, Group)) -> Option<
    ErrorModel,
> {
    |p: (Seq<char>, Group)| group_read_error(v, master_dek, p.0, p.1)
}

/// The values of a group that master-key rotation re-seals: its base
/// values and, per unprotected tag, that tag's values.
struct GroupValues {
    base: StrMap<String>,
    tags: StrMap<StrMap<String>>,
}

/// `gv` holds what group `g` of `v` reads as under the master key.
spec fn group_values_read(v: Vault, master_dek: Seq<u8>, g: Seq<char>, grp: Group, gv: GroupValues) -> bool {
    &&& values_read(v, master_dek, Some(g), None, None, grp.base@, gv.base@)
    &&& values_fit(gv.base@)
    &&& gv.tags@.dom() == Set::new(
        |t: Seq<char>| grp.tags@.contains_key(t) && grp.tags@[t].salt is None,
    )
    &&& forall|t: Seq<char>| #[trigger] gv.tags@.contains_key(t) ==> values_read(
        v,
        master_dek,
        Some(g),
        Some(t),
        None,
        grp.tags@[t].entries@,
        gv.tags@[t]@,
    ) && values_fit(gv.tags@[t]@)
}

/// Some name of a scope reads as a value too long to be sealed.
pub open spec fn scope_too_long(
    v: Vault,
    master_dek: Seq<u8>,
    group: Option<Seq<char>>,
    tag: Option<Seq<char>>,
    tag_dek: Option<Seq<u8>>,
    names: Map<Seq<char>, Entry>,
) -> bool {
    exists|k: Seq<char>| #[trigger] names.contains_key(k) && utf8_len(
        v.lookup(master_dek, group, tag, k, tag_dek)->Ok_0,
    ) > AES_GCM_P_MAX
}

/// Some value of group `g` that master-key rotation re-seals is too long
/// to be sealed.
pub open spec fn group_too_long(v: Vault, master_dek: Seq<u8>, g: Seq<char>, grp: Group) -> bool {
    ||| scope_too_long(v, master_dek, Some(g), None, None, grp.base@)
    ||| exists|t: Seq<char>| #[trigger] grp.tags@.contains_key(t) && grp.tags@[t].salt is None
        && scope_too_long(v, master_dek, Some(g), Some(t), None, grp.tags@[t].entries@)
}

/// Reads the base and unprotected tags of a group; see `group_read_error`.
/// Also tells whether every value is short enough to be sealed.
fn read_group(v: &Vault, master_dek: &[u8; 32], g: &str, grp: &Group) -> (r: Result<
    (GroupValues, bool),
    VaultError,
>)
    ensures
        match r {
            Ok((gv, fit)) => group_read_error(*v, master_dek@, g@, *grp) is None && (fit
                ==> group_values_read(*v, master_dek@, g@, *grp, gv)) && (!fit ==> group_too_long(
                *v,
                master_dek@,
                g@,
                *grp,
            )),
            Err(e) => group_read_error(*v, master_dek@, g@, *grp) == Some(e@),
        },
{
    let (base, mut fit) = read_scope(v, master_dek, Some(g), None, &grp.base, None)?;
    proof {
        if !fit {
            let k = choose|k: Seq<char>| #[trigger] base@.contains_key(k) && utf8_len(base@[k]@)
                > AES_GCM_P_MAX;
            assert(grp.base@.contains_key(k));
        }
    }
    proof {
        use_type_invariant(&grp.tags);
    }
    let ghost f = tag_fail(*v, master_dek@, g@);
    let ghost te = grp.tags.entries();
    let mut tags: StrMap<StrMap<String>> = StrMap::new();
    let n = grp.tags.len();
    let mut i: usize = 0;
    while i < n
        invariant
            i <= n,
            n == te.len(),
            te == grp.tags.entries(),
            grp.tags.wf(),
            f == tag_fail(*v, master_dek@, g@),
            first_error(grp.base.key_seq(), read_fail(*v, master_dek@, Some(g@), None, None)) is None,
            fit ==> values_read(*v, master_dek@, Some(g@), None, None, grp.base@, base@),
            fit ==> values_fit(base@),
            !fit ==> group_too_long(*v, master_dek@, g@, *grp),
            first_error(te.take(i as int), f) is None,
            tags@.dom() == Set::new(
                |t: Seq<char>|
                    exists|j: int| 0 <= j < i && #[trigger] te[j].0 == t && te[j].1.salt is None,
            ),
            fit ==> forall|t: Seq<char>| #[trigger] tags@.contains_key(t) ==> values_read(
                *v,
                master_dek@,
                Some(g@),
                Some(t),
                None,
                grp.tags@[t].entries@,
                tags@[t]@,
            ) && values_fit(tags@[t]@),
        decreases n - i,
    {
        let t = grp.tags.key_at(i);
        let tg = grp.tags.value_at(i);
        proof {
            lemma_first_error_step(te, f, i as int);
        }
        if tg.salt.is_none() {
            match read_scope(v, master_dek, Some(g), Some(t.as_str()), &tg.entries, None) {
                Err(e) => {
                    proof {
                        lemma_first_error_prefix(te, f, i + 1);
                    }
                    return Err(e);
                },
                Ok((tv, tfit)) => {
                    let ghost old_tags = tags@;
                    proof {
                        if !tfit {
                            let k = choose|k: Seq<char>| #[trigger] tv@.contains_key(k) && utf8_len(tv@[k]@)
                                > AES_GCM_P_MAX;
                            assert(grp.tags@.contains_key(t@));
                            assert(grp.tags@[t@].entries@.contains_key(k));
                            assert(scope_too_long(*v, master_dek@, Some(g@), Some(t@), None, grp.tags@[t@].entries@));
                        }
                    }
                    fit = fit && tfit;
                    tags.insert(t.clone(), tv);
                    proof {
                        assert forall|u: Seq<char>| #[trigger] tags@.contains_key(u) <==> (exists|j: int|
                            0 <= j < i + 1 && #[trigger] te[j].0 == u && te[j].1.salt is None) by {
                            if u == t@ {
                                assert(te[i as int].0 == u);
                            }
                        }
                        assert(tags@.dom() =~= Set::new(
                            |u: Seq<char>|
                                exists|j: int| 0 <= j < i + 1 && #[trigger] te[j].0 == u && te[j].1.salt is None,
                        ));
                    }
                },
            }
        } else {
            proof {
                assert(tags@.dom() =~= Set::new(
                    |u: Seq<char>|
                        exists|j: int| 0 <= j < i + 1 && #[trigger] te[j].0 == u && te[j].1.salt is None,
                ));
            }
        }
        i = i + 1;
    }
    proof {
        assert(te.take(n as int) == te);
        assert(tags@.dom() =~= Set::new(
            |u: Seq<char>| grp.tags@.contains_key(u) && grp.tags@[u].salt is None,
        )) by {
            assert forall|u: Seq<char>| grp.tags@.contains_key(u) && grp.tags@[u].salt is None implies tags@.contains_key(u) by {
                let j = grp.tags.lemma_index_of(u);
            }
            assert forall|u: Seq<char>| #[trigger] tags@.contains_key(u) implies grp.tags@.contains_key(u) && grp.tags@[u].salt is None by {
                let j = choose|j: int| 0 <= j < n && #[trigger] te[j].0 == u && te[j].1.salt is None;
                crate::strmap::lemma_map_of_at(te, j);
            }
        }
    }
    Ok((GroupValues { base, tags }, fit))
}


/// Some value that master-key rotation re-seals is too long to be sealed.
pub open spec fn vault_too_long(v: Vault, master_dek: Seq<u8>) -> bool {
    exists|g: Seq<char>| #[trigger] v.entries@.contains_key(g) && group_too_long(
        v,
        master_dek,
        g,
        v.entries@[g],
    )
}

/// Reads every group of the vault in ascending order, stopping at the
/// first error; also tells whether every value is short enough to be sealed.
fn read_all(v: &Vault, master_dek: &[u8; 32]) -> (r: Result<(StrMap<GroupValues>, bool), VaultError>)
    ensures
        match r {
            Ok((plan, fit)) => {
                &&& first_error(v.entries.entries(), group_fail(*v, master_dek@)) is None
                &&& fit ==> forall|g: Seq<char>| #[trigger] v.entries@.contains_key(g) ==> plan@.contains_key(g)
                    && group_values_read(*v, master_dek@, g, v.entries@[g], plan@[g])
                &&& !fit ==> vault_too_long(*v, master_dek@)
            },
            Err(e) => first_error(v.entries.entries(), group_fail(*v, master_dek@)) == Some(e@),
        },
{
    proof {
        use_type_invariant(&v.entries);
    }
    let ghost f = group_fail(*v, master_dek@);
    let ghost ge = v.entries.entries();
    let mut plan: StrMap<GroupValues> = StrMap::new();
    let mut fit = true;
    let n = v.entries.len();
    let mut i: usize = 0;
    while i < n
        invariant
            i <= n,
            n == ge.len(),
            ge == v.entries.entries(),
            v.entries.wf(),
            f == group_fail(*v, master_dek@),
            first_error(ge.take(i as int), f) is None,
            fit ==> forall|j: int| 0 <= j < i ==> plan@.contains_key((#[trigger] ge[j]).0)
                && group_values_read(*v, master_dek@, ge[j].0, ge[j].1, plan@[ge[j].0]),
            !fit ==> vault_too_long(*v, master_dek@),
        decreases n - i,
    {
        let g = v.entries.key_at(i);
        let grp = v.entries.value_at(i);
        proof {
            lemma_first_error_step(ge, f, i as int);
        }
        match read_group(v, master_dek, g.as_str(), grp) {
            Err(e) => {
                proof {
                    lemma_first_error_prefix(ge, f, i + 1);
                }
                return Err(e);
            },
            Ok((gv, gfit)) => {
                proof {
                    if !gfit {
                        assert(v.entries@.contains_key(g@));
                    }
                }
                let ghost old_plan = plan@;
                fit = fit && gfit;
                plan.insert(g.clone(), gv);
                proof {
                    if fit {
                        assert forall|j: int| 0 <= j < i + 1 implies plan@.contains_key((#[trigger] ge[j]).0)
                            && group_values_read(*v, master_dek@, ge[j].0, ge[j].1, plan@[ge[j].0]) by {
                            if j < i && ge[j].0 == g@ {
                                crate::strmap::lemma_sorted_distinct(v.entries.key_seq(), j, i as int);
                            }
                        }
                    }
                }
            },
        }
        i = i + 1;
    }
    proof {
        assert(ge.take(n as int) == ge);
        if fit {
            assert forall|g: Seq<char>| #[trigger] v.entries@.contains_key(g) implies plan@.contains_key(g)
                && group_values_read(*v, master_dek@, g, v.entries@[g], plan@[g]) by {
                let j = v.entries.lemma_index_of(g);
            }
        }
    }
    Ok((plan, fit))
}


/// Group `ng` is `og` with its base and its unprotected tags (those `gv`
/// holds values for) re-sealed under the scope keys derived from `d`.
spec fn group_resealed(og: Group, ng: Group, d: Seq<u8>, g: Seq<char>, gv: GroupValues) -> bool {
    &&& ng.link == og.link
    &&& scope_resealed(og.base@, ng.base@, scope_dek(d, g, base_tag()), gv.base@)
    &&& ng.tags@.dom() == og.tags@.dom()
    &&& forall|t: Seq<char>| #[trigger] ng.tags@.contains_key(t) ==> if gv.tags@.contains_key(t) {
        &&& ng.tags@[t].salt == og.tags@[t].salt
        &&& ng.tags@[t].wrapped_tag_dek == og.tags@[t].wrapped_tag_dek
        &&& scope_resealed(
            og.tags@[t].entries@,
            ng.tags@[t].entries@,
            scope_dek(d, g, t),
            gv.tags@[t]@,
        )
    } else {
        ng.tags@[t] == og.tags@[t]
    }
}

/// Where re-sealing the tags of a group stands for tag `t`, once the tags
/// in `done` were handled.
spec fn tag_progress(
    og: Group,
    tags: Map<Seq<char>, Tag>,
    d: Seq<u8>,
    g: Seq<char>,
    gv: GroupValues,
    done: Seq<Seq<char>>,
    t: Seq<char>,
) -> bool {
    if gv.tags@.contains_key(t) && done.contains(t) {
        &&& tags[t].salt == og.tags@[t].salt
        &&& tags[t].wrapped_tag_dek == og.tags@[t].wrapped_tag_dek
        &&& scope_resealed(og.tags@[t].entries@, tags[t].entries@, scope_dek(d, g, t), gv.tags@[t]@)
    } else {
        tags[t] == og.tags@[t]
    }
}

/// Re-seals the base and unprotected tags of a group under the scope keys
/// derived from the new master data key `d`.
fn reseal_group(grp: &mut Group, g: &str, gv: &GroupValues, d: &[u8; 32])
    requires
        gv.base@.dom() == old(grp).base@.dom(),
        values_fit(gv.base@),
        forall|t: Seq<char>| #[trigger] gv.tags@.contains_key(t) ==> old(grp).tags@.contains_key(t)
            && gv.tags@[t]@.dom() == old(grp).tags@[t].entries@.dom() && values_fit(gv.tags@[t]@),
    ensures
        group_resealed(*old(grp), *final(grp), d@, g@, *gv),
{
    let ghost og = *grp;
    let b = base_tag_string();
    let bk = derive_scope_dek(d, g, b.as_str());
    reseal_scope(&mut grp.base, &gv.base, &bk);
    let tks = grp.tags.keys();
    proof {
        grp.tags.lemma_key_set();
    }
    let ghost kseq = grp.tags.key_seq();
    let mut i: usize = 0;
    while i < tks.len()
        invariant
            i <= tks.len(),
            tks@.map_values(|s: String| s@) == kseq,
            kseq.to_set() == og.tags@.dom(),
            crate::strmap::sorted_keys(kseq),
            grp.link == og.link,
            scope_resealed(og.base@, grp.base@, scope_dek(d@, g@, base_tag()), gv.base@),
            grp.tags@.dom() == og.tags@.dom(),
            forall|t: Seq<char>| #[trigger] gv.tags@.contains_key(t) ==> og.tags@.contains_key(t)
                && gv.tags@[t]@.dom() == og.tags@[t].entries@.dom() && values_fit(gv.tags@[t]@),
            forall|t: Seq<char>| #[trigger] grp.tags@.contains_key(t) ==> tag_progress(
                og,
                grp.tags@,
                d@,
                g@,
                *gv,
                kseq.take(i as int),
                t,
            ),
        decreases tks.len() - i,
    {
        let t = &tks[i];
        assert(kseq[i as int] == t@);
        let ghost before = grp.tags@;
        match gv.tags.get(t.as_str()) {
            None => {},
            Some(tv) => {
                let removed = grp.tags.remove(t.as_str());
                match removed {
                    None => {},
                    Some(tg0) => {
                        let mut tg = tg0;
                        let tk = derive_scope_dek(d, g, t.as_str());
                        proof {
                            assert(!kseq.take(i as int).contains(t@)) by {
                                if kseq.take(i as int).contains(t@) {
                                    let j = choose|j: int| 0 <= j < i && kseq.take(i as int)[j] == t@;
                                    crate::strmap::lemma_sorted_distinct(kseq, j, i as int);
                                }
                            }
                            assert(tg.entries@ == og.tags@[t@].entries@);
                        }
                        reseal_scope(&mut tg.entries, tv, &tk);
                        grp.tags.insert(t.clone(), tg);
                    },
                }
            },
        }
        proof {
            assert(kseq.take(i + 1) == kseq.take(i as int).push(t@));
            assert forall|u: Seq<char>| #[trigger] grp.tags@.contains_key(u) implies tag_progress(
                og,
                grp.tags@,
                d@,
                g@,
                *gv,
                kseq.take(i + 1),
                u,
            ) by {
                if u != t@ {
                    assert(grp.tags@[u] == before[u]);
                    assert(kseq.take(i + 1).contains(u) == kseq.take(i as int).contains(u));
                    assert(tag_progress(og, before, d@, g@, *gv, kseq.take(i as int), u));
                } else {
                    assert(kseq.take(i + 1)[i as int] == u);
                    assert(kseq.take(i + 1).contains(u));
                    assert(!kseq.take(i as int).contains(t@)) by {
                        if kseq.take(i as int).contains(t@) {
                            let j = choose|j: int| 0 <= j < i && kseq.take(i as int)[j] == t@;
                            crate::strmap::lemma_sorted_distinct(kseq, j, i as int);
                        }
                    }
                    assert(tag_progress(og, before, d@, g@, *gv, kseq.take(i as int), u));
                }
            }
        }
        i = i + 1;
    }
    proof {
        assert(kseq.take(tks.len() as int) == kseq);
        assert forall|t: Seq<char>| #[trigger] grp.tags@.contains_key(t) implies (if gv.tags@.contains_key(t) {
            &&& grp.tags@[t].salt == og.tags@[t].salt
            &&& grp.tags@[t].wrapped_tag_dek == og.tags@[t].wrapped_tag_dek
            &&& scope_resealed(
                og.tags@[t].entries@,
                grp.tags@[t].entries@,
                scope_dek(d@, g@, t),
                gv.tags@[t]@,
            )
        } else {
            grp.tags@[t] == og.tags@[t]
        }) by {
            assert(kseq.to_set().contains(t));
            assert(tag_progress(og, grp.tags@, d@, g@, *gv, kseq, t));
        }
    }
}


/// `new` holds the names of `old`, each sealing, under the entry key
/// derived from `key`, the value that `get_entry` reads for it in `v`.
pub open spec fn scope_rotated(
    v: Vault,
    master_dek: Seq<u8>,
    group: Option<Seq<char>>,
    tag: Option<Seq<char>>,
    tag_dek: Option<Seq<u8>>,
    old: Map<Seq<char>, Entry>,
    new: Map<Seq<char>, Entry>,
    key: Seq<u8>,
) -> bool {
    &&& new.dom() == old.dom()
    &&& forall|k: Seq<char>| #[trigger] new.contains_key(k) ==> (v.lookup(master_dek, group, tag, k, tag_dek) matches Ok(
        val,
    ) && seals(new[k], entry_key(key, k), val))
}

/// Group `ng` is group `g` of `v` (`og`) with its base and each of its
/// unprotected tags re-sealed under the scope keys derived from the master
/// data key `d`; its protected tags and its link unchanged.
pub open spec fn group_rotated(
    v: Vault,
    master_dek: Seq<u8>,
    d: Seq<u8>,
    g: Seq<char>,
    og: Group,
    ng: Group,
) -> bool {
    &&& ng.link == og.link
    &&& scope_rotated(v, master_dek, Some(g), None, None, og.base@, ng.base@, scope_dek(d, g, base_tag()))
    &&& ng.tags@.dom() == og.tags@.dom()
    &&& forall|t: Seq<char>| #[trigger] ng.tags@.contains_key(t) ==> tag_rotated_in(v, master_dek, d, g, og.tags@[t], ng.tags@[t], t)
}

/// Tag `t` of group `g` after master-key rotation: an unprotected tag
/// re-sealed under the scope key derived from `d`, a protected one unchanged.
pub open spec fn tag_rotated_in(
    v: Vault,
    master_dek: Seq<u8>,
    d: Seq<u8>,
    g: Seq<char>,
    ot: Tag,
    nt: Tag,
    t: Seq<char>,
) -> bool {
    if ot.salt is None {
        &&& nt.salt == ot.salt
        &&& nt.wrapped_tag_dek == ot.wrapped_tag_dek
        &&& scope_rotated(v, master_dek, Some(g), Some(t), None, ot.entries@, nt.entries@, scope_dek(d, g, t))
    } else {
        nt == ot
    }
}

proof fn lemma_group_rotated(
    v: Vault,
    master_dek: Seq<u8>,
    d: Seq<u8>,
    g: Seq<char>,
    og: Group,
    ng: Group,
    gv: GroupValues,
)
    requires
        group_values_read(v, master_dek, g, og, gv),
        group_resealed(og, ng, d, g, gv),
    ensures
        group_rotated(v, master_dek, d, g, og, ng),
{
    assert forall|t: Seq<char>| #[trigger] ng.tags@.contains_key(t) implies tag_rotated_in(v, master_dek, d, g, og.tags@[t], ng.tags@[t], t) by {
        if og.tags@[t].salt is None {
            assert(gv.tags@.contains_key(t));
        } else {
            assert(!gv.tags@.contains_key(t));
        }
    }
}

/// What rotating the master data key leaves: every base value and every
/// value of an unprotected tag sealed anew under the scope keys derived
/// from a new master data key, which the key-encryption key `kek` unwraps;
/// protected tags, links and the rest unchanged.
pub open spec fn master_rotated(old: Vault, new: Vault, master_dek: Seq<u8>, kek: Seq<u8>) -> bool {
    &&& new.salt == old.salt
    &&& new.public_key == old.public_key
    &&& new.link_index == old.link_index
    &&& new.file_path == old.file_path
    &&& new.workdir == old.workdir
    &&& new.entries@.dom() == old.entries@.dom()
    &&& new.wrapped_master_dek.nonce@.len() == 12
    &&& aes256gcm_open(kek, new.wrapped_master_dek.nonce@, new.wrapped_master_dek.ciphertext@) matches Some(
        d,
    ) && d.len() == 32 && forall|g: Seq<char>| #[trigger] new.entries@.contains_key(g) ==> group_rotated(
        old,
        master_dek,
        d,
        g,
        old.entries@[g],
        new.entries@[g],
    )
}

/// What rotating a protected tag's key leaves: its values sealed anew under
/// a new tag data key that the tag password unlocks; the rest unchanged.
pub open spec fn tag_rotated(
    old: Vault,
    new: Vault,
    master_dek: Seq<u8>,
    group: Option<Seq<char>>,
    tag: Option<Seq<char>>,
    old_tag_dek: Option<Seq<u8>>,
    tag_password: Seq<char>,
) -> bool {
    let g = old.group_for(group)->Ok_0;
    let t = tag_or_base(tag);
    let og = old.entries@[g];
    let ng = new.entries@[g];
    let ot = og.tags@[t];
    let nt = ng.tags@[t];
    &&& new.salt == old.salt
    &&& new.public_key == old.public_key
    &&& new.wrapped_master_dek == old.wrapped_master_dek
    &&& new.link_index == old.link_index
    &&& new.file_path == old.file_path
    &&& new.workdir == old.workdir
    &&& new.entries@ == old.entries@.insert(g, ng)
    &&& ng.link == og.link
    &&& ng.base == og.base
    &&& ng.tags@ == og.tags@.insert(t, nt)
    &&& nt.salt == ot.salt
    &&& tag_key_result(nt, tag_password) matches Ok(d) && scope_rotated(
        old,
        master_dek,
        group,
        tag,
        old_tag_dek,
        ot.entries@,
        nt.entries@,
        d,
    )
}

/// Why `rotate_scope_dek` refuses, where it does. For a tag other than the
/// base tag: the group and tag must exist, the tag be protected, its values
/// read, a tag password be given and accepted; for the base tag: every
/// base value and every value of an unprotected tag must read. Last, every
/// value must be short enough to be sealed.
pub open spec fn rotate_refusal(
    v: Vault,
    master_dek: Seq<u8>,
    group: Option<Seq<char>>,
    tag: Option<Seq<char>>,
    old_tag_dek: Option<Seq<u8>>,
    tag_password: Option<Seq<char>>,
) -> Option<ErrorModel> {
    match v.group_for(group) {
        Err(e) => Some(e),
        Ok(g) => {
            let t = tag_or_base(tag);
            if t != base_tag() {
                if !v.entries@.contains_key(g) {
                    Some(ErrorModel::UnknownGroup)
                } else if !v.entries@[g].tags@.contains_key(t) {
                    Some(ErrorModel::UnknownTag)
                } else {
                    let tg = v.entries@[g].tags@[t];
                    match tg.salt {
                        None => Some(ErrorModel::UnprotectedTagRotation),
                        Some(salt) => match first_error(
                            tg.entries.key_seq(),
                            read_fail(v, master_dek, group, tag, old_tag_dek),
                        ) {
                            Some(e) => Some(e),
                            None => match tag_password {
                                None => Some(ErrorModel::TagPasswordRequired),
                                Some(tp) => if !kdf_accepts(tp, salt@) {
                                    Some(ErrorModel::Crypto(CryptoError::PasswordHash))
                                } else if scope_too_long(v, master_dek, group, tag, old_tag_dek, tg.entries@) {
                                    Some(ErrorModel::Crypto(CryptoError::EncryptionFailed))
                                } else {
                                    None
                                },
                            },
                        },
                    }
                }
            } else {
                match first_error(v.entries.entries(), group_fail(v, master_dek)) {
                    Some(e) => Some(e),
                    None => if vault_too_long(v, master_dek) {
                        Some(ErrorModel::Crypto(CryptoError::EncryptionFailed))
                    } else {
                        None
                    },
                }
            }
        },
    }
}


impl Vault {
    /// Rotates a data key and re-signs the vault. For a tag other than the
    /// base tag, the tag's own key: its values are read (under the master
    /// key and `old_tag_dek`), a new tag key is wrapped under the key
    /// derived from `tag_password` and the tag's salt, and the values sealed
    /// anew under it. For the base tag, the master data key: every base
    /// value and every value of an unprotected tag, in every group, is read
    /// and sealed anew under a new master data key, wrapped under the
    /// master key-encryption key. On refusal the vault is left as it was.
    pub fn rotate_scope_dek(
        &mut self,
        keys: &VaultKeys,
        group: Option<&str>,
        tag: Option<&str>,
        old_tag_dek: Option<&[u8; 32]>,
        tag_password: Option<&str>,
    ) -> (r: Result<(), VaultError>)
        ensures
            match rotate_refusal(
                *old(self),
                keys.master_dek@,
                opt_view(group),
                opt_view(tag),
                opt_key_view(old_tag_dek),
                opt_view(tag_password),
            ) {
                Some(m) => r matches Err(e) && e@ == m && *final(self) == *old(self),
                None => r is Ok && sealed_by(*final(self), keys.signing_key.seed@) && if tag_or_base(
                    opt_view(tag),
                ) == base_tag() {
                    master_rotated(*old(self), *final(self), keys.master_dek@, keys.master_kek@)
                } else {
                    tag_rotated(
                        *old(self),
                        *final(self),
                        keys.master_dek@,
                        opt_view(group),
                        opt_view(tag),
                        opt_key_view(old_tag_dek),
                        opt_view(tag_password)->Some_0,
                    )
                },
            },
    {
        let g = self.resolve_group_name(group)?;
        let active = match tag {
            Some(t) => String::from_str(t),
            None => base_tag_string(),
        };
        if !is_base_tag(active.as_str()) {
            self.rotate_tag_key(keys, g, active, group, tag, old_tag_dek, tag_password)?;
        } else {
            self.rotate_master_key(keys)?;
        }
        self.seal_integrity(&keys.signing_key);
        Ok(())
    }

    fn rotate_tag_key(
        &mut self,
        keys: &VaultKeys,
        g: String,
        active: String,
        group: Option<&str>,
        tag: Option<&str>,
        old_tag_dek: Option<&[u8; 32]>,
        tag_password: Option<&str>,
    ) -> (r: Result<(), VaultError>)
        requires
            old(self).group_for(opt_view(group)) == Ok::<Seq<char>, ErrorModel>(g@),
            active@ == tag_or_base(opt_view(tag)),
            active@ != base_tag(),
        ensures
            match rotate_refusal(
                *old(self),
                keys.master_dek@,
                opt_view(group),
                opt_view(tag),
                opt_key_view(old_tag_dek),
                opt_view(tag_password),
            ) {
                Some(m) => r matches Err(e) && e@ == m && *final(self) == *old(self),
                None => r is Ok && tag_rotated(
                    *old(self),
                    *final(self),
                    keys.master_dek@,
                    opt_view(group),
                    opt_view(tag),
                    opt_key_view(old_tag_dek),
                    opt_view(tag_password)->Some_0,
                ) && final(self).signature == old(self).signature,
            },
    {
        let ghost old_v = *self;
        let grp = match self.entries.get(g.as_str()) {
            None => return Err(VaultError::UnknownGroup),
            Some(x) => x,
        };
        let tg = match grp.tags.get(active.as_str()) {
            None => return Err(VaultError::UnknownTag),
            Some(x) => x,
        };
        let salt = match &tg.salt {
            None => return Err(VaultError::UnprotectedTagRotation),
            Some(s) => s,
        };
        let (vals, fit) = match read_scope(self, &keys.master_dek, group, tag, &tg.entries, old_tag_dek) {
            Err(e) => return Err(e),
            Ok(x) => x,
        };
        let tp = match tag_password {
            None => return Err(VaultError::TagPasswordRequired),
            Some(p) => p,
        };
        let kek = match derive_key(tp, salt.as_slice()) {
            Err(e) => return Err(VaultError::Crypto(e)),
            Ok(k) => k,
        };
        if !fit {
            proof {
                let k = choose|k: Seq<char>| #[trigger] vals@.contains_key(k) && utf8_len(vals@[k]@)
                    > AES_GCM_P_MAX;
                assert(tg.entries@.contains_key(k));
            }
            return Err(VaultError::Crypto(CryptoError::EncryptionFailed));
        }
        proof {
            if scope_too_long(*self, keys.master_dek@, opt_view(group), opt_view(tag), opt_key_view(old_tag_dek), tg.entries@) {
                let k = choose|k: Seq<char>| #[trigger] tg.entries@.contains_key(k) && utf8_len(
                    self.lookup(keys.master_dek@, opt_view(group), opt_view(tag), k, opt_key_view(old_tag_dek))->Ok_0,
                ) > AES_GCM_P_MAX;
                assert(vals@.contains_key(k));
            }
        }
        let d = generate_dek();
        let wrapped = wrap_key(&kek, &d);
        let ghost ot = *tg;
        let mut grp = match self.entries.remove(g.as_str()) {
            Some(x) => x,
            None => Group::new_empty(),
        };
        let ghost og = grp;
        let mut tg = match grp.tags.remove(active.as_str()) {
            Some(x) => x,
            None => Tag::new_unprotected(),
        };
        tg.wrapped_tag_dek = Some(wrapped);
        reseal_scope(&mut tg.entries, &vals, &d);
        let ghost nt = tg;
        grp.tags.insert(active, tg);
        let ghost ng = grp;
        self.entries.insert(g, grp);
        proof {
            assert(self.entries@ == old_v.entries@.insert(g@, ng));
            assert(ng.tags@ == og.tags@.insert(tag_or_base(opt_view(tag)), nt));
            assert(tag_key_result(nt, tp@) == Ok::<Seq<u8>, ErrorModel>(d@));
        }
        Ok(())
    }

    /// Rotates the master data key with a fresh random one; see
    /// `rotate_master_key_to`.
    fn rotate_master_key(&mut self, keys: &VaultKeys) -> (r: Result<(), VaultError>)
        ensures
            match first_error(old(self).entries.entries(), group_fail(*old(self), keys.master_dek@)) {
                Some(e) => r matches Err(x) && x@ == e && *final(self) == *old(self),
                None => if vault_too_long(*old(self), keys.master_dek@) {
                    r matches Err(x) && x@ == ErrorModel::Crypto(CryptoError::EncryptionFailed)
                        && *final(self) == *old(self)
                } else {
                    r is Ok && master_rotated(*old(self), *final(self), keys.master_dek@, keys.master_kek@)
                        && final(self).signature == old(self).signature
                },
            },
    {
        let d = generate_dek();
        self.rotate_master_key_to(keys, &d)
    }

    /// Rotates the master data key to `new_dek`: every base value and every
    /// value of an unprotected tag is read with the current master data key
    /// and sealed anew under the scope keys derived from `new_dek`, which is
    /// wrapped under the key-encryption key. Nothing changes where a value
    /// does not read or is too long to be sealed. The signature is left to
    /// the caller.
    pub fn rotate_master_key_to(&mut self, keys: &VaultKeys, new_dek: &[u8; 32]) -> (r: Result<(), VaultError>)
        ensures
            r is Ok ==> aes256gcm_open(
                keys.master_kek@,
                final(self).wrapped_master_dek.nonce@,
                final(self).wrapped_master_dek.ciphertext@,
            ) == Some(new_dek@),
            match first_error(old(self).entries.entries(), group_fail(*old(self), keys.master_dek@)) {
                Some(e) => r matches Err(x) && x@ == e && *final(self) == *old(self),
                None => if vault_too_long(*old(self), keys.master_dek@) {
                    r matches Err(x) && x@ == ErrorModel::Crypto(CryptoError::EncryptionFailed)
                        && *final(self) == *old(self)
                } else {
                    r is Ok && master_rotated(*old(self), *final(self), keys.master_dek@, keys.master_kek@)
                        && final(self).signature == old(self).signature
                },
            },
    {
        let (plan, fit) = match read_all(self, &keys.master_dek) {
            Err(e) => return Err(e),
            Ok(x) => x,
        };
        if !fit {
            return Err(VaultError::Crypto(CryptoError::EncryptionFailed));
        }
        proof {
            if vault_too_long(*self, keys.master_dek@) {
                let g = choose|g: Seq<char>| #[trigger] self.entries@.contains_key(g) && group_too_long(
                    *self,
                    keys.master_dek@,
                    g,
                    self.entries@[g],
                );
                let grp = self.entries@[g];
                let gv = plan@[g];
                if scope_too_long(*self, keys.master_dek@, Some(g), None, None, grp.base@) {
                    let k = choose|k: Seq<char>| #[trigger] grp.base@.contains_key(k) && utf8_len(
                        self.lookup(keys.master_dek@, Some(g), None, k, None)->Ok_0,
                    ) > AES_GCM_P_MAX;
                    assert(gv.base@.contains_key(k));
                } else {
                    let t = choose|t: Seq<char>| #[trigger] grp.tags@.contains_key(t) && grp.tags@[t].salt is None
                        && scope_too_long(*self, keys.master_dek@, Some(g), Some(t), None, grp.tags@[t].entries@);
                    assert(gv.tags@.contains_key(t));
                    let k = choose|k: Seq<char>| #[trigger] grp.tags@[t].entries@.contains_key(k) && utf8_len(
                        self.lookup(keys.master_dek@, Some(g), Some(t), k, None)->Ok_0,
                    ) > AES_GCM_P_MAX;
                    assert(gv.tags@[t]@.contains_key(k));
                }
            }
        }
        let d = new_dek;
        let wrapped = wrap_key(&keys.master_kek, d);
        let ghost old_v = *self;
        self.wrapped_master_dek = wrapped;
        let gks = self.entries.keys();
        proof {
            self.entries.lemma_key_set();
        }
        let ghost kseq = self.entries.key_seq();
        let mut i: usize = 0;
        while i < gks.len()
            invariant
                i <= gks.len(),
                gks@.map_values(|s: String| s@) == kseq,
                kseq.to_set() == old_v.entries@.dom(),
                crate::strmap::sorted_keys(kseq),
                self.entries@.dom() == old_v.entries@.dom(),
                self.salt == old_v.salt,
                self.public_key == old_v.public_key,
                self.signature == old_v.signature,
                self.link_index == old_v.link_index,
                self.file_path == old_v.file_path,
                self.workdir == old_v.workdir,
                self.wrapped_master_dek.nonce@.len() == 12,
                aes256gcm_open(keys.master_kek@, self.wrapped_master_dek.nonce@, self.wrapped_master_dek.ciphertext@)
                    == Some(d@),
                forall|g: Seq<char>| #[trigger] old_v.entries@.contains_key(g) ==> plan@.contains_key(g)
                    && group_values_read(old_v, keys.master_dek@, g, old_v.entries@[g], plan@[g]),
                forall|g: Seq<char>| #[trigger] self.entries@.contains_key(g) ==> if kseq.take(i as int).contains(g) {
                    group_rotated(old_v, keys.master_dek@, d@, g, old_v.entries@[g], self.entries@[g])
                } else {
                    self.entries@[g] == old_v.entries@[g]
                },
            decreases gks.len() - i,
        {
            let gk = &gks[i];
            assert(kseq[i as int] == gk@);
            proof {
                assert(kseq.to_set().contains(gk@));
                assert(!kseq.take(i as int).contains(gk@)) by {
                    if kseq.take(i as int).contains(gk@) {
                        let j = choose|j: int| 0 <= j < i && kseq.take(i as int)[j] == gk@;
                        crate::strmap::lemma_sorted_distinct(kseq, j, i as int);
                    }
                }
            }
            let ghost before = self.entries@;
            match plan.get(gk.as_str()) {
                None => {},
                Some(gv) => {
                    match self.entries.remove(gk.as_str()) {
                        None => {},
                        Some(g0) => {
                            let mut grp = g0;
                            let ghost og = grp;
                            reseal_group(&mut grp, gk.as_str(), gv, d);
                            proof {
                                lemma_group_rotated(old_v, keys.master_dek@, d@, gk@, og, grp, *gv);
                            }
                            self.entries.insert(gk.clone(), grp);
                        },
                    }
                },
            }
            proof {
                assert(kseq.take(i + 1) == kseq.take(i as int).push(gk@));
                assert forall|g: Seq<char>| #[trigger] self.entries@.contains_key(g) implies (if kseq.take(i + 1).contains(g) {
                    group_rotated(old_v, keys.master_dek@, d@, g, old_v.entries@[g], self.entries@[g])
                } else {
                    self.entries@[g] == old_v.entries@[g]
                }) by {
                    if g != gk@ {
                        assert(self.entries@[g] == before[g]);
                        assert(kseq.take(i + 1).contains(g) == kseq.take(i as int).contains(g));
                    } else {
                        assert(kseq.take(i + 1)[i as int] == g);
                    }
                }
            }
            i = i + 1;
        }
        proof {
            assert(kseq.take(gks.len() as int) == kseq);
            assert forall|g: Seq<char>| #[trigger] self.entries@.contains_key(g) implies group_rotated(
                old_v,
                keys.master_dek@,
                d@,
                g,
                old_v.entries@[g],
                self.entries@[g],
            ) by {
                assert(kseq.to_set().contains(g));
            }
        }
        Ok(())
    }
}


/// Rotating a protected tag's key keeps its values: after
/// `rotate_scope_dek` on a tag, each name of the tag reads, under the new
/// tag key that the tag password unlocks, as it read before under the old one.
pub proof fn lemma_tag_rotation_keeps_values(
    old: Vault,
    new: Vault,
    master_dek: Seq<u8>,
    group: Option<Seq<char>>,
    tag: Option<Seq<char>>,
    old_tag_dek: Option<Seq<u8>>,
    tag_password: Seq<char>,
    name: Seq<char>,
)
    requires
        tag_or_base(tag) != base_tag(),
        rotate_refusal(old, master_dek, group, tag, old_tag_dek, Some(tag_password)) is None,
        tag_rotated(old, new, master_dek, group, tag, old_tag_dek, tag_password),
        old.entries@[old.group_for(group)->Ok_0].tags@[tag_or_base(tag)].entries@.contains_key(name),
    ensures
        new.lookup(
            master_dek,
            group,
            tag,
            name,
            Some(
                tag_key_result(
                    new.entries@[old.group_for(group)->Ok_0].tags@[tag_or_base(tag)],
                    tag_password,
                )->Ok_0,
            ),
        ) == old.lookup(master_dek, group, tag, name, old_tag_dek),
{
    let g = old.group_for(group)->Ok_0;
    let t = tag_or_base(tag);
    assert(new.group_for(group) == old.group_for(group));
    let nt = new.entries@[g].tags@[t];
    let d = tag_key_result(nt, tag_password)->Ok_0;
    assert(nt.entries@.contains_key(name));
    let val = old.lookup(master_dek, group, tag, name, old_tag_dek)->Ok_0;
    assert(seals(nt.entries@[name], entry_key(d, name), val));
    vstd::utf8::encode_utf8_valid_utf8(val);
    vstd::utf8::encode_utf8_decode_utf8(val);
}

/// Rotating the master data key keeps every value it covers: after
/// `rotate_scope_dek` on the base tag, each base name of each group reads,
/// under the new master data key, as it read before under the old one.
pub proof fn lemma_master_rotation_keeps_base_values(
    old: Vault,
    new: Vault,
    master_dek: Seq<u8>,
    kek: Seq<u8>,
    group: Option<Seq<char>>,
    tag: Option<Seq<char>>,
    g: Seq<char>,
    name: Seq<char>,
)
    requires
        tag_or_base(tag) == base_tag(),
        rotate_refusal(old, master_dek, group, tag, None, None) is None,
        master_rotated(old, new, master_dek, kek),
        old.entries@.contains_key(g),
        old.entries@[g].base@.contains_key(name),
    ensures
        new.lookup(
            aes256gcm_open(kek, new.wrapped_master_dek.nonce@, new.wrapped_master_dek.ciphertext@)->Some_0,
            Some(g),
            None,
            name,
            None,
        ) == old.lookup(master_dek, Some(g), None, name, None),
{
    let d = aes256gcm_open(kek, new.wrapped_master_dek.nonce@, new.wrapped_master_dek.ciphertext@)->Some_0;
    assert(new.group_for(Some(g)) == old.group_for(Some(g)));
    assert(new.entries@.contains_key(g));
    assert(group_rotated(old, master_dek, d, g, old.entries@[g], new.entries@[g]));
    let ng = new.entries@[g];
    assert(ng.base@.contains_key(name));
    let val = old.lookup(master_dek, Some(g), None, name, None)->Ok_0;
    assert(seals(ng.base@[name], entry_key(scope_dek(d, g, base_tag()), name), val));
    vstd::utf8::encode_utf8_valid_utf8(val);
    vstd::utf8::encode_utf8_decode_utf8(val);
}

/// Rotating the master data key keeps the values of unprotected tags: after
/// `rotate_scope_dek` on the base tag, each name of each unprotected tag
/// reads, under the new master data key, as it read before.
pub proof fn lemma_master_rotation_keeps_tag_values(
    old: Vault,
    new: Vault,
    master_dek: Seq<u8>,
    kek: Seq<u8>,
    group: Option<Seq<char>>,
    tag: Option<Seq<char>>,
    g: Seq<char>,
    t: Seq<char>,
    name: Seq<char>,
)
    requires
        tag_or_base(tag) == base_tag(),
        rotate_refusal(old, master_dek, group, tag, None, None) is None,
        master_rotated(old, new, master_dek, kek),
        old.entries@.contains_key(g),
        old.entries@[g].tags@.contains_key(t),
        old.entries@[g].tags@[t].salt is None,
        old.entries@[g].tags@[t].entries@.contains_key(name),
    ensures
        new.lookup(
            aes256gcm_open(kek, new.wrapped_master_dek.nonce@, new.wrapped_master_dek.ciphertext@)->Some_0,
            Some(g),
            Some(t),
            name,
            None,
        ) == old.lookup(master_dek, Some(g), Some(t), name, None),
{
    let d = aes256gcm_open(kek, new.wrapped_master_dek.nonce@, new.wrapped_master_dek.ciphertext@)->Some_0;
    assert(new.group_for(Some(g)) == old.group_for(Some(g)));
    assert(new.entries@.contains_key(g));
    let og = old.entries@[g];
    let ng = new.entries@[g];
    assert(group_rotated(old, master_dek, d, g, og, ng));
    assert(ng.tags@.contains_key(t));
    assert(tag_rotated_in(old, master_dek, d, g, og.tags@[t], ng.tags@[t], t));
    let nt = ng.tags@[t];
    assert(nt.entries@.contains_key(name));
    let val = old.lookup(master_dek, Some(g), Some(t), name, None)->Ok_0;
    assert(seals(nt.entries@[name], entry_key(scope_dek(d, g, t), name), val));
    vstd::utf8::encode_utf8_valid_utf8(val);
    vstd::utf8::encode_utf8_decode_utf8(val);
    if t == base_tag() {
        assert(old.lookup(master_dek, Some(g), Some(t), name, None) == old.lookup(master_dek, Some(g), None, name, None));
    }
}

} // verus!
