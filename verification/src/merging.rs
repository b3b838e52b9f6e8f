//! Merging three vaults secret by secret: the current branch's vault is
//! updated with the resolution of every secret of every scope, read from
//! the common ancestor, the current branch and the incoming branch.
use crate::crypto::{entry_key, scope_dek, AES_GCM_P_MAX};
use crate::error::{ErrorModel, VaultError};
use crate::merge::{group_action, resolution, resolve_value, GroupAction, MergeStrategy, Resolution};
use crate::ops::{
    remove_refusal, set_refusal, add_keys, entry_removed, group_base, group_tags, same_frame, sealed_by, seals, stored, tag_entries,
    tag_or_base,
};
use crate::seal::signable_bytes;
use crate::rotate::{first_error, lemma_first_error_items, read_fail, read_scope, values_read};
use crate::strmap::{sorted_keys, StrMap};
use crate::vault::{base_tag, base_tag_string, opt_view, Entry, Group, Tag, Vault, VaultKeys};
use vstd::prelude::*;
use vstd::utf8::encode_utf8;

verus! {

/// The entries a scope holds itself: the group's base entries for the base
/// tag, the tag's entries for another tag (none where missing).
pub open spec fn scope_entries(v: Vault, g: Seq<char>, t: Seq<char>) -> Map<Seq<char>, Entry> {
    if t == base_tag() {
        group_base(v, g)
    } else {
        tag_entries(v, g, t)
    }
}

/// `new` differs from `old` only inside scope `t` of group `g`, which
/// exists: other groups, the group's link and its other scope are as they
/// were; the tag (where not the base tag) keeps its keys, or is new and
/// unprotected.
pub open spec fn scope_frame(old: Vault, new: Vault, g: Seq<char>, t: Seq<char>) -> bool {
    let og = old.entries@[g];
    let ng = new.entries@[g];
    &&& same_frame(old, new)
    &&& old.entries@.contains_key(g)
    &&& new.entries@.dom() == old.entries@.dom()
    &&& forall|h: Seq<char>| #![trigger new.entries@[h]]
        h != g && old.entries@.contains_key(h) ==> new.entries@[h] == old.entries@[h]
    &&& ng.link@ == og.link@
    &&& if t == base_tag() {
        ng.tags@ == og.tags@
    } else {
        &&& ng.base@ == og.base@
        &&& forall|u: Seq<char>| #[trigger] ng.tags@.contains_key(u) <==> (og.tags@.contains_key(u) || (u
            == t && ng.tags@.contains_key(t)))
        &&& forall|u: Seq<char>| #![trigger ng.tags@[u]]
            u != t && og.tags@.contains_key(u) ==> ng.tags@[u] == og.tags@[u]
        &&& ng.tags@.contains_key(t) ==> if og.tags@.contains_key(t) {
            ng.tags@[t].salt == og.tags@[t].salt && ng.tags@[t].wrapped_tag_dek
                == og.tags@[t].wrapped_tag_dek
        } else {
            ng.tags@[t].salt is None && ng.tags@[t].wrapped_tag_dek is None
        }
    }
}

pub(crate) proof fn lemma_scope_frame_refl(v: Vault, g: Seq<char>, t: Seq<char>)
    requires
        v.entries@.contains_key(g),
    ensures
        scope_frame(v, v, g, t),
{
}

/// Storing a value in the scope keeps the frame and changes the scope at
/// that name only.
pub(crate) proof fn lemma_set_step(
    o0: Vault,
    cur: Vault,
    new: Vault,
    g: Seq<char>,
    t: Seq<char>,
    k: Seq<char>,
    key: Seq<u8>,
    v: Seq<char>,
)
    requires
        scope_frame(o0, cur, g, t),
        stored(cur, new, g, t, k, key, v),
    ensures
        scope_frame(o0, new, g, t),
        scope_entries(new, g, t).dom() == scope_entries(cur, g, t).dom().insert(k),
        forall|j: Seq<char>| #![trigger scope_entries(new, g, t)[j]]
            j != k && scope_entries(cur, g, t).contains_key(j) ==> scope_entries(new, g, t)[j]
                == scope_entries(cur, g, t)[j],
        seals(scope_entries(new, g, t)[k], key, v),
{
    let ng = new.entries@[g];
    let cg = cur.entries@[g];
    let og = o0.entries@[g];
    assert(new.entries@.dom() =~= o0.entries@.dom());
    if t != base_tag() {
        assert forall|u: Seq<char>| #[trigger] ng.tags@.contains_key(u) <==> (og.tags@.contains_key(u) || (u
            == t && ng.tags@.contains_key(t))) by {}
        assert(scope_entries(new, g, t).dom() =~= scope_entries(cur, g, t).dom().insert(k));
    } else {
        assert(scope_entries(new, g, t).dom() =~= scope_entries(cur, g, t).dom().insert(k));
    }
}

/// Removing a name from the scope keeps the frame and drops that name only.
pub(crate) proof fn lemma_remove_step(
    o0: Vault,
    cur: Vault,
    new: Vault,
    group: Option<Seq<char>>,
    g: Seq<char>,
    tag: Option<Seq<char>>,
    k: Seq<char>,
)
    requires
        scope_frame(o0, cur, g, tag_or_base(tag)),
        cur.group_for(group) == Ok::<Seq<char>, ErrorModel>(g),
        tag matches Some(tt) ==> tt != base_tag(),
        k.len() > 0,
        scope_entries(cur, g, tag_or_base(tag)).contains_key(k),
        entry_removed(cur, new, group, tag, k),
    ensures
        scope_frame(o0, new, g, tag_or_base(tag)),
        scope_entries(new, g, tag_or_base(tag)) == scope_entries(cur, g, tag_or_base(tag)).remove(k),
{
    let t = tag_or_base(tag);
    let ng = new.entries@[g];
    let og = o0.entries@[g];
    assert(new.entries@.dom() =~= o0.entries@.dom());
    if t != base_tag() {
        assert forall|u: Seq<char>| #[trigger] ng.tags@.contains_key(u) <==> (og.tags@.contains_key(u) || (u
            == t && ng.tags@.contains_key(t))) by {}
    }
}

/// The value a read map gives for a name, if any.
pub open spec fn opt_val(m: Map<Seq<char>, String>, k: Seq<char>) -> Option<Seq<char>> {
    if m.contains_key(k) {
        Some(m[k]@)
    } else {
        None
    }
}

/// A resolution that leaves a value.
pub open spec fn keeps_value(r: Option<Option<Seq<char>>>) -> bool {
    r matches Some(Some(_))
}

/// The resolution of one name of a scope from its three readings.
pub open spec fn merged_value(
    be: Map<Seq<char>, String>,
    oe: Map<Seq<char>, String>,
    te: Map<Seq<char>, String>,
    strategy: MergeStrategy,
    k: Seq<char>,
) -> Option<Option<Seq<char>>> {
    resolution(opt_val(be, k), opt_val(oe, k), opt_val(te, k), strategy)
}

/// After merging scope `t` of group `g`: it holds exactly the names whose
/// resolution keeps a value, each sealing that value under the scope's
/// entry key (derived from the master data key).
pub open spec fn scope_merged(
    old: Vault,
    new: Vault,
    master_dek: Seq<u8>,
    g: Seq<char>,
    t: Seq<char>,
    be: Map<Seq<char>, String>,
    oe: Map<Seq<char>, String>,
    te: Map<Seq<char>, String>,
    strategy: MergeStrategy,
) -> bool {
    let s = scope_entries(new, g, t);
    &&& scope_frame(old, new, g, t)
    &&& forall|k: Seq<char>| #[trigger] s.contains_key(k) <==> ((be.contains_key(k) || oe.contains_key(k)
        || te.contains_key(k)) && keeps_value(merged_value(be, oe, te, strategy, k)))
    &&& forall|k: Seq<char>| #[trigger] s.contains_key(k) ==> seals(
        s[k],
        entry_key(scope_dek(master_dek, g, t), k),
        merged_value(be, oe, te, strategy, k)->Some_0->Some_0,
    )
}

/// The conflict report for a name of a scope.
pub open spec fn conflict_text(k: Seq<char>, g: Seq<char>, t: Seq<char>) -> Seq<char> {
    "Key '"@ + k + "' in group '"@ + g + "' [tag: '"@ + t + "'] (conflicting modifications)"@
}

fn conflict_message(k: &str, g: &str, t: &str) -> (s: String)
    ensures
        s@ == conflict_text(k@, g@, t@),
{
    let mut out = crate::text::chars_of("Key '");
    crate::crypto::append_chars(&mut out, crate::text::chars_of(k).as_slice());
    crate::crypto::append_chars(&mut out, crate::text::chars_of("' in group '").as_slice());
    crate::crypto::append_chars(&mut out, crate::text::chars_of(g).as_slice());
    crate::crypto::append_chars(&mut out, crate::text::chars_of("' [tag: '").as_slice());
    crate::crypto::append_chars(&mut out, crate::text::chars_of(t).as_slice());
    crate::crypto::append_chars(&mut out, crate::text::chars_of("'] (conflicting modifications)").as_slice());
    crate::text::string_from_chars(out.as_slice())
}

fn opt_ref<'a>(m: &'a StrMap<String>, k: &str) -> (r: Option<&'a str>)
    ensures
        match r {
            Some(s) => m@.contains_key(k@) && s@ == m@[k@]@,
            None => !m@.contains_key(k@),
        },
{
    match m.get(k) {
        Some(s) => Some(s.as_str()),
        None => None,
    }
}


/// The conflict reports of the names of a scope, in order: one for each
/// name whose resolution is a conflict.
pub open spec fn scope_conflicts(
    ks: Seq<Seq<char>>,
    be: Map<Seq<char>, String>,
    oe: Map<Seq<char>, String>,
    te: Map<Seq<char>, String>,
    strategy: MergeStrategy,
    g: Seq<char>,
    t: Seq<char>,
) -> Seq<Seq<char>>
    decreases ks.len(),
{
    if ks.len() == 0 {
        seq![]
    } else {
        let prev = scope_conflicts(ks.drop_last(), be, oe, te, strategy, g, t);
        if merged_value(be, oe, te, strategy, ks.last()) is None {
            prev.push(conflict_text(ks.last(), g, t))
        } else {
            prev
        }
    }
}

/// The names read in a scope, on any side, in ascending order.
pub open spec fn scope_names(
    be: Map<Seq<char>, String>,
    oe: Map<Seq<char>, String>,
    te: Map<Seq<char>, String>,
) -> Seq<Seq<char>> {
    crate::strmap::sorted_set(be.dom() + oe.dom() + te.dom())
}

/// The progress of merging a scope once the names in `done` were handled.
spec fn scope_progress(
    o0: Vault,
    cur: Vault,
    master_dek: Seq<u8>,
    g: Seq<char>,
    t: Seq<char>,
    be: Map<Seq<char>, String>,
    oe: Map<Seq<char>, String>,
    te: Map<Seq<char>, String>,
    strategy: MergeStrategy,
    done: Seq<Seq<char>>,
) -> bool {
    let s = scope_entries(cur, g, t);
    &&& scope_frame(o0, cur, g, t)
    &&& forall|k: Seq<char>| #[trigger] s.contains_key(k) <==> (if done.contains(k) {
        keeps_value(merged_value(be, oe, te, strategy, k))
    } else {
        scope_entries(o0, g, t).contains_key(k)
    })
    &&& forall|k: Seq<char>| #[trigger] s.contains_key(k) && done.contains(k) ==> seals(
        s[k],
        entry_key(scope_dek(master_dek, g, t), k),
        merged_value(be, oe, te, strategy, k)->Some_0->Some_0,
    )
}

pub(crate) proof fn lemma_group_for_named(v: Vault, x: Seq<char>)
    ensures
        v.group_for(Some(x)) matches Ok(y) ==> y == x,
{
}

/// Handling one more name adds its report, if its resolution is a conflict.
proof fn lemma_conflicts_step(
    ks: Seq<Seq<char>>,
    be: Map<Seq<char>, String>,
    oe: Map<Seq<char>, String>,
    te: Map<Seq<char>, String>,
    strategy: MergeStrategy,
    g: Seq<char>,
    t: Seq<char>,
    i: int,
)
    requires
        0 <= i < ks.len(),
    ensures
        scope_conflicts(ks.take(i + 1), be, oe, te, strategy, g, t) == if merged_value(
            be,
            oe,
            te,
            strategy,
            ks[i],
        ) is None {
            scope_conflicts(ks.take(i), be, oe, te, strategy, g, t).push(conflict_text(ks[i], g, t))
        } else {
            scope_conflicts(ks.take(i), be, oe, te, strategy, g, t)
        },
{
    assert(ks.take(i + 1).drop_last() =~= ks.take(i));
    assert(ks.take(i + 1).last() == ks[i]);
}

/// Handling one more name `k` (not handled before) keeps the progress: the
/// scope now holds `k` exactly when its resolution keeps a value, sealed
/// as resolved, and is unchanged at every other name.
proof fn lemma_progress_step(
    o0: Vault,
    before: Vault,
    after: Vault,
    master_dek: Seq<u8>,
    g: Seq<char>,
    t: Seq<char>,
    be: Map<Seq<char>, String>,
    oe: Map<Seq<char>, String>,
    te: Map<Seq<char>, String>,
    strategy: MergeStrategy,
    done: Seq<Seq<char>>,
    k: Seq<char>,
)
    requires
        scope_progress(o0, before, master_dek, g, t, be, oe, te, strategy, done),
        !done.contains(k),
        scope_frame(o0, after, g, t),
        keeps_value(merged_value(be, oe, te, strategy, k)) ==> {
            &&& scope_entries(after, g, t).dom() == scope_entries(before, g, t).dom().insert(k)
            &&& forall|j: Seq<char>| #![trigger scope_entries(after, g, t)[j]]
                j != k && scope_entries(before, g, t).contains_key(j) ==> scope_entries(after, g, t)[j]
                    == scope_entries(before, g, t)[j]
            &&& seals(
                scope_entries(after, g, t)[k],
                entry_key(scope_dek(master_dek, g, t), k),
                merged_value(be, oe, te, strategy, k)->Some_0->Some_0,
            )
        },
        !keeps_value(merged_value(be, oe, te, strategy, k)) ==> scope_entries(after, g, t)
            == scope_entries(before, g, t).remove(k),
    ensures
        scope_progress(o0, after, master_dek, g, t, be, oe, te, strategy, done.push(k)),
{
    let s = scope_entries(after, g, t);
    let sb = scope_entries(before, g, t);
    let d2 = done.push(k);
    assert forall|j: Seq<char>| #[trigger] s.contains_key(j) <==> (if d2.contains(j) {
        keeps_value(merged_value(be, oe, te, strategy, j))
    } else {
        scope_entries(o0, g, t).contains_key(j)
    }) by {
        if j != k {
            assert(d2.contains(j) == done.contains(j)) by {
                if done.contains(j) {
                    let n = choose|n: int| 0 <= n < done.len() && done[n] == j;
                    assert(d2[n] == j);
                }
            }
            assert(s.contains_key(j) == sb.contains_key(j));
        } else {
            assert(d2[done.len() as int] == k);
        }
    }
    assert forall|j: Seq<char>| #[trigger] s.contains_key(j) && d2.contains(j) implies seals(
        s[j],
        entry_key(scope_dek(master_dek, g, t), j),
        merged_value(be, oe, te, strategy, j)->Some_0->Some_0,
    ) by {
        if j != k {
            let n = choose|n: int| 0 <= n < d2.len() && d2[n] == j;
            assert(done[n] == j);
            assert(sb.contains_key(j));
            assert(s[j] == sb[j]);
        }
    }
}

/// Once every name read on some side was handled, the scope is merged.
proof fn lemma_progress_done(
    o0: Vault,
    cur: Vault,
    master_dek: Seq<u8>,
    g: Seq<char>,
    t: Seq<char>,
    be: Map<Seq<char>, String>,
    oe: Map<Seq<char>, String>,
    te: Map<Seq<char>, String>,
    strategy: MergeStrategy,
    ks: Seq<Seq<char>>,
)
    requires
        scope_progress(o0, cur, master_dek, g, t, be, oe, te, strategy, ks),
        ks.to_set() == be.dom() + oe.dom() + te.dom(),
        oe.dom() == scope_entries(o0, g, t).dom(),
    ensures
        scope_merged(o0, cur, master_dek, g, t, be, oe, te, strategy),
{
    let s = scope_entries(cur, g, t);
    assert forall|k: Seq<char>| #[trigger] s.contains_key(k) <==> ((be.contains_key(k) || oe.contains_key(k)
        || te.contains_key(k)) && keeps_value(merged_value(be, oe, te, strategy, k))) by {
        assert(ks.contains(k) == ks.to_set().contains(k));
        if !ks.contains(k) {
            assert(!oe.dom().contains(k));
        }
    }
    assert forall|k: Seq<char>| #[trigger] s.contains_key(k) implies seals(
        s[k],
        entry_key(scope_dek(master_dek, g, t), k),
        merged_value(be, oe, te, strategy, k)->Some_0->Some_0,
    ) by {
        assert(ks.contains(k) == ks.to_set().contains(k));
        if !ks.contains(k) {
            assert(!oe.dom().contains(k));
        }
    }
}

/// Every write a merge of scope `t` of group `g` into `v` can make is
/// taken: the group exists and can be addressed by name, the tag (other
/// than the base tag) is not protected, the current branch's names are
/// not empty, and every value of the current and incoming branch is short
/// enough to be sealed.
pub open spec fn scope_writable(
    v: Vault,
    g: Seq<char>,
    t: Seq<char>,
    oe: Map<Seq<char>, String>,
    te: Map<Seq<char>, String>,
) -> bool {
    &&& v.group_for(Some(g)) is Ok
    &&& v.entries@.contains_key(g)
    &&& t != base_tag() ==> !v.tag_is_protected(g, t)
    &&& forall|k: Seq<char>| #[trigger] oe.contains_key(k) ==> k.len() > 0 && encode_utf8(oe[k]@).len() <= AES_GCM_P_MAX
    &&& forall|k: Seq<char>| #[trigger] te.contains_key(k) ==> encode_utf8(te[k]@).len() <= AES_GCM_P_MAX
}

/// Merges one scope of group `g` (tag `tag`, the base tag for none) of the
/// current branch's vault from the values read on the three sides: each
/// name (in ascending order) gets its resolution, stored with `set_entry`
/// or removed with `remove_entry`; conflicts are reported, and once one is,
/// nothing more is written.
#[verifier::rlimit(40)]
fn merge_scope(
    ours: &mut Vault,
    keys: &VaultKeys,
    g: &str,
    tag: Option<&str>,
    tname: &str,
    be: &StrMap<String>,
    oe: &StrMap<String>,
    te: &StrMap<String>,
    strategy: MergeStrategy,
    conflicts: &mut Vec<String>,
) -> (r: Result<(), VaultError>)
    requires
        tag matches Some(tt) ==> tt@ != base_tag(),
        tname@ == tag_or_base(opt_view(tag)),
        oe@.dom() == scope_entries(*old(ours), g@, tname@).dom(),
    ensures
        scope_names(be@, oe@, te@).to_set() == be@.dom() + oe@.dom() + te@.dom(),
        r is Ok ==> final(conflicts)@.len() == old(conflicts)@.len() + scope_conflicts(
            scope_names(be@, oe@, te@),
            be@,
            oe@,
            te@,
            strategy,
            g@,
            tname@,
        ).len(),
        r is Ok ==> final(conflicts)@.map_values(|s: String| s@) == old(conflicts)@.map_values(
            |s: String| s@,
        ) + scope_conflicts(scope_names(be@, oe@, te@), be@, oe@, te@, strategy, g@, tname@),
        old(conflicts)@.len() > 0 ==> r is Ok && *final(ours) == *old(ours),
        r is Ok && old(ours).entries@.contains_key(g@) && !scope_names(be@, oe@, te@).contains(
            Seq::<char>::empty(),
        ) ==> scope_frame(
            *old(ours),
            *final(ours),
            g@,
            tname@,
        ),
        r is Ok && final(conflicts)@.len() == 0 && old(ours).entries@.contains_key(g@) && !scope_names(be@, oe@, te@).contains(
            Seq::<char>::empty(),
        ) ==> scope_merged(*old(ours), *final(ours), keys.master_dek@, g@, tname@, be@, oe@, te@, strategy),
        scope_writable(*old(ours), g@, tname@, oe@, te@) ==> r is Ok,
{
    let ghost o0 = *ours;
    let ghost c0 = conflicts@.map_values(|s: String| s@);
    let ghost t = tname@;
    let ghost mk = keys.master_dek@;
    let mut acc: StrMap<bool> = StrMap::new();
    add_keys(&mut acc, be);
    add_keys(&mut acc, oe);
    add_keys(&mut acc, te);
    let ks = acc.keys();
    let ghost kseq = acc.key_seq();
    proof {
        acc.lemma_key_set();
        assert(acc@.dom() =~= be@.dom() + oe@.dom() + te@.dom());
        crate::strmap::lemma_sorted_set(kseq, be@.dom() + oe@.dom() + te@.dom());
        if o0.entries@.contains_key(g@) {
            lemma_scope_frame_refl(o0, g@, t);
        }
        assert(kseq.take(0) =~= Seq::<Seq<char>>::empty());
        assert(c0 + scope_conflicts(kseq.take(0), be@, oe@, te@, strategy, g@, t) =~= c0);
    }
    let ghost no_empty = !kseq.contains(Seq::<char>::empty()) && o0.entries@.contains_key(g@);
    let ghost sw = scope_writable(o0, g@, t, oe@, te@);
    proof {
        if sw {
            assert forall|j: int| 0 <= j < kseq.len() && oe@.contains_key(#[trigger] kseq[j]) implies scope_entries(
                o0,
                g@,
                t,
            ).contains_key(kseq[j]) by {}
        }
    }
    assert(scope_names(be@, oe@, te@).to_set() == be@.dom() + oe@.dom() + te@.dom());
    let mut i: usize = 0;
    while i < ks.len()
        invariant
            i <= ks.len(),
            ks@.map_values(|s: String| s@) == kseq,
            kseq == scope_names(be@, oe@, te@),
            kseq.to_set() == be@.dom() + oe@.dom() + te@.dom(),
            crate::strmap::sorted_keys(kseq),
            no_empty == (!kseq.contains(Seq::<char>::empty()) && o0.entries@.contains_key(g@)),
            tag matches Some(tt) ==> tt@ != base_tag(),
            t == tag_or_base(opt_view(tag)),
            t == tname@,
            mk == keys.master_dek@,
            oe@.dom() == scope_entries(o0, g@, t).dom(),
            conflicts@.map_values(|s: String| s@) == c0 + scope_conflicts(
                kseq.take(i as int),
                be@,
                oe@,
                te@,
                strategy,
                g@,
                t,
            ),
            conflicts@.len() >= c0.len(),
            c0.len() == old(conflicts)@.len(),
            c0.len() > 0 ==> *ours == o0,
            no_empty ==> scope_frame(o0, *ours, g@, t),
            sw == scope_writable(*old(ours), g@, tname@, oe@, te@),
            sw ==> scope_writable(o0, g@, t, oe@, te@),
            sw ==> ours.group_for(Some(g@)) == o0.group_for(Some(g@)),
            sw ==> ours.entries@.contains_key(g@),
            sw ==> (t != base_tag() ==> !ours.tag_is_protected(g@, t)),
            sw ==> forall|j: int| i <= j < kseq.len() && oe@.contains_key(#[trigger] kseq[j]) ==> scope_entries(
                *ours,
                g@,
                t,
            ).contains_key(kseq[j]),
            c0.len() == 0 && conflicts@.len() == 0 && no_empty ==> scope_progress(
                o0,
                *ours,
                mk,
                g@,
                t,
                be@,
                oe@,
                te@,
                strategy,
                kseq.take(i as int),
            ),
        decreases ks.len() - i,
    {
        let k = &ks[i];
        let ghost kv = k@;
        let ghost done = kseq.take(i as int);
        proof {
            assert(kseq[i as int] == kv);
            assert(kseq.take(i + 1) =~= done.push(kv));
            assert(!done.contains(kv)) by {
                if done.contains(kv) {
                    let j = choose|j: int| 0 <= j < i && done[j] == kv;
                    crate::strmap::lemma_sorted_distinct(kseq, j, i as int);
                }
            }
            assert(kseq.contains(kv));
            lemma_conflicts_step(kseq, be@, oe@, te@, strategy, g@, t, i as int);
        }
        let res = resolve_value(
            opt_ref(be, k.as_str()),
            opt_ref(oe, k.as_str()),
            opt_ref(te, k.as_str()),
            strategy,
        );
        let ghost mv = merged_value(be@, oe@, te@, strategy, kv);
        assert(crate::merge::resolution_view(res) == mv);
        let ghost before = *ours;
        let ghost cb = conflicts@.map_values(|s: String| s@);
        let ghost sc = scope_conflicts(done, be@, oe@, te@, strategy, g@, t);
        match res {
            Resolution::Conflict => {
                conflicts.push(conflict_message(k.as_str(), g, tname));
                proof {
                    assert(conflicts@.map_values(|s: String| s@) =~= cb.push(conflict_text(kv, g@, t)));
                    assert((c0 + sc).push(conflict_text(kv, g@, t)) =~= c0 + sc.push(conflict_text(kv, g@, t)));
                }
            },
            Resolution::Value(v) => {
                if conflicts.len() == 0 {
                    match v {
                        Some(val) => {
                            proof {
                                if sw {
                                    lemma_group_for_named(before, g@);
                                    assert(mv == Some(Some(val@)));
                                    crate::merge::lemma_resolution_keeps_side(
                                        opt_val(be@, kv),
                                        opt_val(oe@, kv),
                                        opt_val(te@, kv),
                                        strategy,
                                    );
                                    assert(oe@.contains_key(kv) || te@.contains_key(kv));
                                    assert(encode_utf8(val@).len() <= AES_GCM_P_MAX);
                                    assert(set_refusal(before, Some(g@), opt_view(tag), val@, false) is None);
                                }
                            }
                            let sr = ours.set_entry(keys, Some(g), tag, k.as_str(), val.as_str(), None);
                            match sr {
                                Err(e) => {
                                    assert(scope_names(be@, oe@, te@).to_set() == be@.dom() + oe@.dom() + te@.dom());
                                    return Err(e);
                                },
                                Ok(()) => {},
                            }
                            proof {
                                lemma_group_for_named(before, g@);
                                if sw {
                                    lemma_scope_frame_refl(before, g@, t);
                                    lemma_set_step(
                                        before,
                                        before,
                                        *ours,
                                        g@,
                                        t,
                                        kv,
                                        entry_key(scope_dek(mk, g@, t), kv),
                                        val@,
                                    );
                                    assert(ours.group_for(Some(g@)) == before.group_for(Some(g@)));
                                    assert forall|j: int| i + 1 <= j < kseq.len() && oe@.contains_key(#[trigger] kseq[j]) implies scope_entries(
                                        *ours,
                                        g@,
                                        t,
                                    ).contains_key(kseq[j]) by {
                                        assert(scope_entries(before, g@, t).contains_key(kseq[j]));
                                    }
                                }
                                if no_empty {
                                    lemma_set_step(
                                        o0,
                                        before,
                                        *ours,
                                        g@,
                                        t,
                                        kv,
                                        entry_key(scope_dek(mk, g@, t), kv),
                                        val@,
                                    );
                                    lemma_progress_step(o0, before, *ours, mk, g@, t, be@, oe@, te@, strategy, done, kv);
                                }
                            }
                        },
                        None => {
                            if oe.contains_key(k.as_str()) {
                                proof {
                                    if sw {
                                        lemma_group_for_named(before, g@);
                                        assert(scope_entries(before, g@, t).contains_key(kv));
                                        assert(remove_refusal(before, Some(g@), opt_view(tag), kv, false) is None);
                                    }
                                }
                                let rr = ours.remove_entry(&keys.signing_key, Some(g), tag, Some(k.as_str()), None);
                                match rr {
                                    Err(e) => {
                                        assert(scope_names(be@, oe@, te@).to_set() == be@.dom() + oe@.dom() + te@.dom());
                                        return Err(e);
                                    },
                                    Ok(()) => {},
                                }
                                proof {
                                    lemma_group_for_named(before, g@);
                                    if sw {
                                        lemma_scope_frame_refl(before, g@, t);
                                        lemma_remove_step(before, before, *ours, Some(g@), g@, opt_view(tag), kv);
                                        assert(ours.group_for(Some(g@)) == before.group_for(Some(g@)));
                                        assert forall|j: int| i + 1 <= j < kseq.len() && oe@.contains_key(#[trigger] kseq[j]) implies scope_entries(
                                            *ours,
                                            g@,
                                            t,
                                        ).contains_key(kseq[j]) by {
                                            assert(scope_entries(before, g@, t).contains_key(kseq[j]));
                                            crate::strmap::lemma_sorted_distinct(kseq, i as int, j);
                                        }
                                    }
                                    if no_empty {
                                        assert(kv.len() > 0) by {
                                            if kv.len() == 0 {
                                                assert(kv =~= Seq::<char>::empty());
                                            }
                                        }
                                        lemma_remove_step(o0, before, *ours, Some(g@), g@, opt_view(tag), kv);
                                        lemma_progress_step(o0, before, *ours, mk, g@, t, be@, oe@, te@, strategy, done, kv);
                                    }
                                }
                            } else {
                                proof {
                                    if no_empty {
                                        assert(!scope_entries(before, g@, t).contains_key(kv));
                                        assert(scope_entries(before, g@, t).remove(kv) =~= scope_entries(before, g@, t));
                                        lemma_progress_step(o0, before, *ours, mk, g@, t, be@, oe@, te@, strategy, done, kv);
                                    }
                                }
                            }
                        },
                    }
                }
            },
        }
        i = i + 1;
    }
    proof {
        assert(kseq.take(ks.len() as int) =~= kseq);
        assert(conflicts@.len() == conflicts@.map_values(|s: String| s@).len());
        if c0.len() == 0 && conflicts@.len() == 0 && no_empty {
            lemma_progress_done(o0, *ours, mk, g@, t, be@, oe@, te@, strategy, kseq);
        }
    }
    Ok(())
}


/// The tag argument that addresses scope `t`: none for the base tag.
pub open spec fn tag_arg(t: Seq<char>) -> Option<Seq<char>> {
    if t == base_tag() {
        None
    } else {
        Some(t)
    }
}

/// What reading scope `t` of group `g` gives: each name of the scope with
/// the value `get_entry` finds for it (without a tag key).
pub open spec fn scope_reading(v: Vault, mk: Seq<u8>, g: Seq<char>, t: Seq<char>) -> Map<Seq<char>, Seq<char>> {
    Map::new(
        |k: Seq<char>| scope_entries(v, g, t).contains_key(k),
        |k: Seq<char>| v.lookup(mk, Some(g), tag_arg(t), k, None)->Ok_0,
    )
}

/// Every name of scope `t` of group `g` can be read.
pub open spec fn reads_ok(v: Vault, mk: Seq<u8>, g: Seq<char>, t: Seq<char>) -> bool {
    forall|k: Seq<char>| #[trigger] scope_entries(v, g, t).contains_key(k) ==> v.lookup(
        mk,
        Some(g),
        tag_arg(t),
        k,
        None,
    ) is Ok
}

/// The value a reading gives for a name, if any.
pub open spec fn ropt(m: Map<Seq<char>, Seq<char>>, k: Seq<char>) -> Option<Seq<char>> {
    if m.contains_key(k) {
        Some(m[k])
    } else {
        None
    }
}

/// The resolution of name `k` of scope `t` of group `g` from the readings
/// of the ancestor, the current branch and the incoming branch.
pub open spec fn key_merge(
    base: Vault,
    bd: Seq<u8>,
    ours: Vault,
    od: Seq<u8>,
    theirs: Vault,
    td: Seq<u8>,
    g: Seq<char>,
    t: Seq<char>,
    k: Seq<char>,
    strategy: MergeStrategy,
) -> Option<Option<Seq<char>>> {
    resolution(
        ropt(scope_reading(base, bd, g, t), k),
        ropt(scope_reading(ours, od, g, t), k),
        ropt(scope_reading(theirs, td, g, t), k),
        strategy,
    )
}

/// Name `k` is in scope `t` of group `g` on some side.
pub open spec fn read_somewhere(base: Vault, ours: Vault, theirs: Vault, g: Seq<char>, t: Seq<char>, k: Seq<char>) -> bool {
    scope_entries(base, g, t).contains_key(k) || scope_entries(ours, g, t).contains_key(k) || scope_entries(
        theirs,
        g,
        t,
    ).contains_key(k)
}

/// The tags of group `g` on any side, and the base tag.
pub open spec fn tag_union(base: Vault, ours: Vault, theirs: Vault, g: Seq<char>) -> Set<Seq<char>> {
    set![base_tag()] + group_tags(base, g).dom() + group_tags(ours, g).dom() + group_tags(theirs, g).dom()
}

/// No scope of group `g` on any side holds an empty name.
pub open spec fn group_names_ok(base: Vault, ours: Vault, theirs: Vault, g: Seq<char>) -> bool {
    forall|t: Seq<char>, k: Seq<char>| #[trigger] read_somewhere(base, ours, theirs, g, t, k) ==> k.len() > 0
}

/// No name of any scope of group `g` on any side resolves to a conflict.
pub open spec fn group_clean(
    base: Vault,
    bd: Seq<u8>,
    ours: Vault,
    od: Seq<u8>,
    theirs: Vault,
    td: Seq<u8>,
    g: Seq<char>,
    strategy: MergeStrategy,
) -> bool {
    forall|t: Seq<char>, k: Seq<char>|
        tag_union(base, ours, theirs, g).contains(t) && #[trigger] read_somewhere(base, ours, theirs, g, t, k)
            ==> key_merge(base, bd, ours, od, theirs, td, g, t, k, strategy) is Some
}

/// Scope `t` of group `g` of `new` holds exactly the names whose resolution
/// keeps a value, each sealing that value under the scope's entry key.
pub open spec fn tag_merged(
    new: Vault,
    base: Vault,
    bd: Seq<u8>,
    ours: Vault,
    od: Seq<u8>,
    theirs: Vault,
    td: Seq<u8>,
    g: Seq<char>,
    t: Seq<char>,
    strategy: MergeStrategy,
) -> bool {
    let s = scope_entries(new, g, t);
    &&& forall|k: Seq<char>| #[trigger] s.contains_key(k) <==> (read_somewhere(base, ours, theirs, g, t, k)
        && keeps_value(key_merge(base, bd, ours, od, theirs, td, g, t, k, strategy)))
    &&& forall|k: Seq<char>| #[trigger] s.contains_key(k) ==> seals(
        s[k],
        entry_key(scope_dek(od, g, t), k),
        key_merge(base, bd, ours, od, theirs, td, g, t, k, strategy)->Some_0->Some_0,
    )
}

/// The outcome of merging group `g` into `old` (the current branch):
/// every scope of the group on any side was read; `clean` tells whether
/// no name resolves to a conflict; where none does, each of those scopes
/// holds its merged names, the group exists, and nothing else changed.
pub open spec fn group_merged(
    old: Vault,
    new: Vault,
    od: Seq<u8>,
    base: Vault,
    bd: Seq<u8>,
    theirs: Vault,
    td: Seq<u8>,
    g: Seq<char>,
    strategy: MergeStrategy,
    clean: bool,
) -> bool {
    &&& clean == group_clean(base, bd, old, od, theirs, td, g, strategy)
    &&& forall|t: Seq<char>| #[trigger] tag_union(base, old, theirs, g).contains(t) ==> {
        &&& reads_ok(base, bd, g, t)
        &&& reads_ok(old, od, g, t)
        &&& reads_ok(theirs, td, g, t)
    }
    &&& clean ==> {
        &&& same_frame(old, new)
        &&& new.entries@.dom() == old.entries@.dom().insert(g)
        &&& forall|h: Seq<char>| #![trigger new.entries@[h]]
            h != g && old.entries@.contains_key(h) ==> new.entries@[h] == old.entries@[h]
        &&& new.entries@[g].link@ == (if old.entries@.contains_key(g) {
            old.entries@[g].link@
        } else {
            Seq::<char>::empty()
        })
        &&& new.entries@[g].tags@.dom().subset_of(tag_union(base, old, theirs, g))
        &&& forall|t: Seq<char>| #[trigger] tag_union(base, old, theirs, g).contains(t) ==> tag_merged(
            new,
            base,
            bd,
            old,
            od,
            theirs,
            td,
            g,
            t,
            strategy,
        )
    }
}

/// Reading a scope gives what each of its names reads as.
proof fn lemma_reading(v: Vault, mk: Seq<u8>, g: Seq<char>, t: Seq<char>, vals: Map<Seq<char>, String>)
    requires
        vals.dom() == scope_entries(v, g, t).dom(),
        forall|k: Seq<char>| #[trigger] vals.contains_key(k) ==> v.lookup(mk, Some(g), tag_arg(t), k, None)
            == Ok::<Seq<char>, ErrorModel>(vals[k]@),
    ensures
        forall|k: Seq<char>| #[trigger] opt_val(vals, k) == ropt(scope_reading(v, mk, g, t), k),
        reads_ok(v, mk, g, t),
{
    assert forall|k: Seq<char>| #[trigger] opt_val(vals, k) == ropt(scope_reading(v, mk, g, t), k) by {
        if vals.contains_key(k) {
            assert(scope_entries(v, g, t).contains_key(k));
        }
    }
    assert forall|k: Seq<char>| #[trigger] scope_entries(v, g, t).contains_key(k) implies v.lookup(
        mk,
        Some(g),
        tag_arg(t),
        k,
        None,
    ) is Ok by {
        assert(vals.contains_key(k));
    }
}

/// A scope that holds the same entries (under the same tag protection) in
/// the same group reads the same.
proof fn lemma_reading_same(a: Vault, b: Vault, mk: Seq<u8>, g: Seq<char>, t: Seq<char>)
    requires
        a.file_path == b.file_path,
        scope_entries(a, g, t) == scope_entries(b, g, t),
        scope_entries(a, g, t).dom() != Set::<Seq<char>>::empty() ==> {
            &&& a.entries@.contains_key(g)
            &&& b.entries@.contains_key(g)
            &&& t != base_tag() ==> (a.entries@[g].tags@.contains_key(t) == b.entries@[g].tags@.contains_key(t))
                && (a.entries@[g].tags@.contains_key(t) ==> a.entries@[g].tags@[t].salt
                == b.entries@[g].tags@[t].salt)
        },
    ensures
        scope_reading(a, mk, g, t) == scope_reading(b, mk, g, t),
        reads_ok(a, mk, g, t) == reads_ok(b, mk, g, t),
{
    assert forall|k: Seq<char>| #[trigger] scope_entries(a, g, t).contains_key(k) implies a.lookup(
        mk,
        Some(g),
        tag_arg(t),
        k,
        None,
    ) == b.lookup(mk, Some(g), tag_arg(t), k, None) by {
        assert(scope_entries(a, g, t).dom().contains(k));
        assert(a.local() == b.local());
        lemma_group_for_named(a, g);
        lemma_group_for_named(b, g);
    }
    assert(scope_reading(a, mk, g, t) =~= scope_reading(b, mk, g, t));
}


/// `m` is what reading scope `t` of group `g` gives: its names, each with
/// the value `get_entry` finds for it.
pub open spec fn read_as(v: Vault, mk: Seq<u8>, g: Seq<char>, t: Seq<char>, m: Map<Seq<char>, String>) -> bool {
    &&& m.dom() == scope_entries(v, g, t).dom()
    &&& forall|k: Seq<char>| #[trigger] m.contains_key(k) ==> v.lookup(mk, Some(g), tag_arg(t), k, None)
        == Ok::<Seq<char>, ErrorModel>(m[k]@)
}

/// Some name of scope `t` of group `g` reads as error `e`.
pub open spec fn read_error_in(v: Vault, mk: Seq<u8>, g: Seq<char>, t: Seq<char>, e: ErrorModel) -> bool {
    exists|k: Seq<char>| #[trigger] scope_entries(v, g, t).contains_key(k) && v.lookup(mk, Some(g), tag_arg(t), k, None)
        == Err::<Seq<char>, ErrorModel>(e)
}

/// Scanning the names of a scope for read errors finds none exactly when
/// every name reads, and what it finds is the error of some name.
proof fn lemma_scope_scan(v: Vault, mk: Seq<u8>, g: Seq<char>, t: Seq<char>, ks: Seq<Seq<char>>)
    requires
        ks.to_set() == scope_entries(v, g, t).dom(),
    ensures
        first_error(ks, read_fail(v, mk, Some(g), tag_arg(t), None)) is None <==> reads_ok(v, mk, g, t),
        first_error(ks, read_fail(v, mk, Some(g), tag_arg(t), None)) matches Some(e) ==> read_error_in(v, mk, g, t, e),
{
    let f = read_fail(v, mk, Some(g), tag_arg(t), None);
    lemma_first_error_items(ks, f);
    assert forall|i: int| 0 <= i < ks.len() implies #[trigger] scope_entries(v, g, t).contains_key(ks[i]) by {
        assert(ks.to_set().contains(ks[i]));
    }
    if first_error(ks, f) is None {
        assert forall|k: Seq<char>| #[trigger] scope_entries(v, g, t).contains_key(k) implies v.lookup(
            mk,
            Some(g),
            tag_arg(t),
            k,
            None,
        ) is Ok by {
            assert(ks.to_set().contains(k));
            let i = choose|i: int| 0 <= i < ks.len() && ks[i] == k;
            assert(f(ks[i]) is None);
        }
    } else {
        let e = first_error(ks, f)->Some_0;
        let i = choose|i: int| 0 <= i < ks.len() && #[trigger] f(ks[i]) == Some(e);
        assert(scope_entries(v, g, t).contains_key(ks[i]));
        assert(v.lookup(mk, Some(g), tag_arg(t), ks[i], None) == Err::<Seq<char>, ErrorModel>(e));
        assert(!reads_ok(v, mk, g, t));
    }
}

/// Reads every name of one scope of group `g` (tag `tag`, the base tag for
/// none); a missing group or tag reads as empty. Fails exactly where some
/// name of the scope cannot be read, with that name's error.
fn fetch_scope(v: &Vault, mk: &[u8; 32], g: &str, tag: Option<&str>) -> (r: Result<StrMap<String>, VaultError>)
    requires
        tag matches Some(tt) ==> tt@ != base_tag(),
    ensures
        r is Ok <==> reads_ok(*v, mk@, g@, tag_or_base(opt_view(tag))),
        r matches Ok(m) ==> read_as(*v, mk@, g@, tag_or_base(opt_view(tag)), m@),
        r matches Err(e) ==> read_error_in(*v, mk@, g@, tag_or_base(opt_view(tag)), e@),
{
    let ghost t = tag_or_base(opt_view(tag));
    assert(tag_arg(t) == opt_view(tag));
    match v.entries.get(g) {
        None => {
            let m: StrMap<String> = StrMap::new();
            assert(m@.dom() =~= scope_entries(*v, g@, t).dom());
            Ok(m)
        },
        Some(grp) => {
            match tag {
                None => {
                    proof {
                        grp.base.lemma_key_set();
                        lemma_scope_scan(*v, mk@, g@, t, grp.base.key_seq());
                    }
                    let (vals, _fit) = read_scope(v, mk, Some(g), None, &grp.base, None)?;
                    Ok(vals)
                },
                Some(tn) => {
                    match grp.tags.get(tn) {
                        None => {
                            let m: StrMap<String> = StrMap::new();
                            assert(m@.dom() =~= scope_entries(*v, g@, t).dom());
                            Ok(m)
                        },
                        Some(tg) => {
                            proof {
                                tg.entries.lemma_key_set();
                                lemma_scope_scan(*v, mk@, g@, t, tg.entries.key_seq());
                            }
                            let (vals, _fit) = read_scope(v, mk, Some(g), Some(tn), &tg.entries, None)?;
                            Ok(vals)
                        },
                    }
                },
            }
        },
    }
}

/// A merge of scope `t` leaves every other scope of the group as it was,
/// with the same tag protection.
pub(crate) proof fn lemma_scope_frame_other(a: Vault, b: Vault, g: Seq<char>, t: Seq<char>, u: Seq<char>)
    requires
        scope_frame(a, b, g, t),
        u != t,
    ensures
        scope_entries(b, g, u) == scope_entries(a, g, u),
        u != base_tag() ==> (b.entries@[g].tags@.contains_key(u) == a.entries@[g].tags@.contains_key(u)),
        u != base_tag() && a.entries@[g].tags@.contains_key(u) ==> b.entries@[g].tags@[u] == a.entries@[g].tags@[u],
        b.entries@.contains_key(g),
{
    if t != base_tag() && u != base_tag() {
        assert(b.entries@[g].tags@.contains_key(u) == a.entries@[g].tags@.contains_key(u));
    }
}

/// The names handled in a scope are conflict-free exactly when none of
/// them resolves to a conflict.
proof fn lemma_scope_conflicts_empty(
    ks: Seq<Seq<char>>,
    be: Map<Seq<char>, String>,
    oe: Map<Seq<char>, String>,
    te: Map<Seq<char>, String>,
    strategy: MergeStrategy,
    g: Seq<char>,
    t: Seq<char>,
)
    ensures
        scope_conflicts(ks, be, oe, te, strategy, g, t).len() == 0 <==> forall|i: int|
            0 <= i < ks.len() ==> #[trigger] merged_value(be, oe, te, strategy, ks[i]) is Some,
    decreases ks.len(),
{
    if ks.len() > 0 {
        lemma_scope_conflicts_empty(ks.drop_last(), be, oe, te, strategy, g, t);
        assert forall|i: int| 0 <= i < ks.len() - 1 implies ks.drop_last()[i] == ks[i] by {}
        if scope_conflicts(ks, be, oe, te, strategy, g, t).len() == 0 {
            assert forall|i: int| 0 <= i < ks.len() implies #[trigger] merged_value(be, oe, te, strategy, ks[i]) is Some by {
                if i < ks.len() - 1 {
                    assert(merged_value(be, oe, te, strategy, ks.drop_last()[i]) is Some);
                }
            }
        } else {
            if merged_value(be, oe, te, strategy, ks.last()) is Some {
                let i = choose|i: int| 0 <= i < ks.len() - 1 && !(merged_value(be, oe, te, strategy, #[trigger] ks.drop_last()[i]) is Some);
                assert(!(merged_value(be, oe, te, strategy, ks[i]) is Some));
            }
        }
    }
}

/// With the three readings of a scope in hand (the current branch read
/// from a vault whose scope is as in `o0`), the per-name resolution is
/// `key_merge`, and every name of the three scopes was read.
proof fn lemma_merged_views(
    base: Vault,
    bd: Seq<u8>,
    o0: Vault,
    cur: Vault,
    od: Seq<u8>,
    theirs: Vault,
    td: Seq<u8>,
    g: Seq<char>,
    t: Seq<char>,
    be: Map<Seq<char>, String>,
    oe: Map<Seq<char>, String>,
    te: Map<Seq<char>, String>,
    strategy: MergeStrategy,
)
    requires
        read_as(base, bd, g, t, be),
        read_as(cur, od, g, t, oe),
        read_as(theirs, td, g, t, te),
        scope_reading(cur, od, g, t) == scope_reading(o0, od, g, t),
        reads_ok(cur, od, g, t) == reads_ok(o0, od, g, t),
        scope_entries(cur, g, t) == scope_entries(o0, g, t),
    ensures
        forall|k: Seq<char>| #[trigger] merged_value(be, oe, te, strategy, k) == key_merge(
            base,
            bd,
            o0,
            od,
            theirs,
            td,
            g,
            t,
            k,
            strategy,
        ),
        forall|k: Seq<char>| (be.contains_key(k) || oe.contains_key(k) || te.contains_key(k)) == #[trigger] read_somewhere(
            base,
            o0,
            theirs,
            g,
            t,
            k,
        ),
        reads_ok(base, bd, g, t),
        reads_ok(o0, od, g, t),
        reads_ok(theirs, td, g, t),
{
    lemma_reading(base, bd, g, t, be);
    lemma_reading(cur, od, g, t, oe);
    lemma_reading(theirs, td, g, t, te);
    assert forall|k: Seq<char>| #[trigger] merged_value(be, oe, te, strategy, k) == key_merge(
        base,
        bd,
        o0,
        od,
        theirs,
        td,
        g,
        t,
        k,
        strategy,
    ) by {
        assert(opt_val(be, k) == ropt(scope_reading(base, bd, g, t), k));
        assert(opt_val(oe, k) == ropt(scope_reading(cur, od, g, t), k));
        assert(opt_val(te, k) == ropt(scope_reading(theirs, td, g, t), k));
    }
    assert forall|k: Seq<char>| (be.contains_key(k) || oe.contains_key(k) || te.contains_key(k)) == #[trigger] read_somewhere(
        base,
        o0,
        theirs,
        g,
        t,
        k,
    ) by {
        assert(be.contains_key(k) == be.dom().contains(k));
        assert(oe.contains_key(k) == oe.dom().contains(k));
        assert(te.contains_key(k) == te.dom().contains(k));
    }
}


/// `o1` is `o0` with group `g` present (added empty where it was missing).
pub open spec fn grown(o0: Vault, o1: Vault, g: Seq<char>) -> bool {
    &&& same_frame(o0, o1)
    &&& o1.entries@.dom() == o0.entries@.dom().insert(g)
    &&& forall|h: Seq<char>| #![trigger o1.entries@[h]]
        h != g && o0.entries@.contains_key(h) ==> o1.entries@[h] == o0.entries@[h]
    &&& if o0.entries@.contains_key(g) {
        o1.entries@[g] == o0.entries@[g]
    } else {
        &&& o1.entries@[g].link@ == Seq::<char>::empty()
        &&& o1.entries@[g].base@ == Map::<Seq<char>, Entry>::empty()
        &&& o1.entries@[g].tags@ == Map::<Seq<char>, Tag>::empty()
    }
}

/// While merging group `g` of `o1` scope by scope: nothing outside the
/// group changed, and every scope not yet merged is as it was.
pub open spec fn group_frame(o1: Vault, cur: Vault, g: Seq<char>, done: Seq<Seq<char>>) -> bool {
    let cg = cur.entries@[g];
    let og = o1.entries@[g];
    &&& same_frame(o1, cur)
    &&& cur.entries@.dom() == o1.entries@.dom()
    &&& forall|h: Seq<char>| #![trigger cur.entries@[h]]
        h != g && o1.entries@.contains_key(h) ==> cur.entries@[h] == o1.entries@[h]
    &&& cg.link@ == og.link@
    &&& forall|u: Seq<char>| #![trigger scope_entries(cur, g, u)]
        !done.contains(u) ==> scope_entries(cur, g, u) == scope_entries(o1, g, u)
    &&& forall|u: Seq<char>| #![trigger cg.tags@.contains_key(u)]
        !done.contains(u) && u != base_tag() ==> (cg.tags@.contains_key(u) == og.tags@.contains_key(u) && (
        og.tags@.contains_key(u) ==> cg.tags@[u] == og.tags@[u]))
    &&& forall|u: Seq<char>| #[trigger] cg.tags@.contains_key(u) ==> og.tags@.contains_key(u) || done.contains(
        u,
    )
}

/// A scope not yet merged reads as in `o0`.
proof fn lemma_unmerged_reading(o0: Vault, o1: Vault, cur: Vault, od: Seq<u8>, g: Seq<char>, done: Seq<Seq<char>>, t: Seq<char>)
    requires
        grown(o0, o1, g),
        group_frame(o1, cur, g, done),
        !done.contains(t),
    ensures
        scope_reading(cur, od, g, t) == scope_reading(o0, od, g, t),
        reads_ok(cur, od, g, t) == reads_ok(o0, od, g, t),
        scope_entries(cur, g, t) == scope_entries(o0, g, t),
{
    assert(scope_entries(cur, g, t) == scope_entries(o1, g, t));
    if o0.entries@.contains_key(g) {
        assert(scope_entries(o1, g, t) == scope_entries(o0, g, t));
        if t != base_tag() {
            assert(cur.entries@[g].tags@.contains_key(t) == o1.entries@[g].tags@.contains_key(t));
        }
    } else {
        assert(scope_entries(o1, g, t) =~= scope_entries(o0, g, t));
    }
    lemma_reading_same(cur, o0, od, g, t);
}

/// Merging one more scope keeps the frame, and that scope is then merged.
proof fn lemma_tag_step(
    base: Vault,
    bd: Seq<u8>,
    o0: Vault,
    o1: Vault,
    od: Seq<u8>,
    theirs: Vault,
    td: Seq<u8>,
    g: Seq<char>,
    strategy: MergeStrategy,
    done: Seq<Seq<char>>,
    t: Seq<char>,
    cur: Vault,
    new: Vault,
    be: Map<Seq<char>, String>,
    oe: Map<Seq<char>, String>,
    te: Map<Seq<char>, String>,
)
    requires
        grown(o0, o1, g),
        group_frame(o1, cur, g, done),
        !done.contains(t),
        read_as(base, bd, g, t, be),
        read_as(cur, od, g, t, oe),
        read_as(theirs, td, g, t, te),
        scope_frame(cur, new, g, t),
    ensures
        group_frame(o1, new, g, done.push(t)),
        scope_merged(cur, new, od, g, t, be, oe, te, strategy) ==> tag_merged(
            new,
            base,
            bd,
            o0,
            od,
            theirs,
            td,
            g,
            t,
            strategy,
        ),
        forall|u: Seq<char>| #![trigger scope_entries(new, g, u)] u != t ==> scope_entries(new, g, u) == scope_entries(cur, g, u),
{
    let d2 = done.push(t);
    let ng = new.entries@[g];
    let cg = cur.entries@[g];
    let og = o1.entries@[g];
    assert forall|u: Seq<char>| #![trigger scope_entries(new, g, u)] u != t implies scope_entries(new, g, u) == scope_entries(cur, g, u) by {
        lemma_scope_frame_other(cur, new, g, t, u);
    }
    assert forall|u: Seq<char>| !d2.contains(u) implies #[trigger] scope_entries(new, g, u) == scope_entries(o1, g, u) by {
        assert(d2[done.len() as int] == t);
        assert(!done.contains(u)) by {
            if done.contains(u) {
                let n = choose|n: int| 0 <= n < done.len() && done[n] == u;
                assert(d2[n] == u);
            }
        }
        lemma_scope_frame_other(cur, new, g, t, u);
    }
    assert forall|u: Seq<char>| !d2.contains(u) && u != base_tag() implies (#[trigger] ng.tags@.contains_key(u)
        == og.tags@.contains_key(u) && (og.tags@.contains_key(u) ==> ng.tags@[u] == og.tags@[u])) by {
        assert(d2[done.len() as int] == t);
        assert(!done.contains(u)) by {
            if done.contains(u) {
                let n = choose|n: int| 0 <= n < done.len() && done[n] == u;
                assert(d2[n] == u);
            }
        }
        lemma_scope_frame_other(cur, new, g, t, u);
    }
    assert forall|u: Seq<char>| #[trigger] ng.tags@.contains_key(u) implies og.tags@.contains_key(u) || d2.contains(u) by {
        assert(d2[done.len() as int] == t);
        if u != t {
            lemma_scope_frame_other(cur, new, g, t, u);
            if done.contains(u) {
                let n = choose|n: int| 0 <= n < done.len() && done[n] == u;
                assert(d2[n] == u);
            }
        }
    }
    if scope_merged(cur, new, od, g, t, be, oe, te, strategy) {
        lemma_unmerged_reading(o0, o1, cur, od, g, done, t);
        lemma_merged_views(base, bd, o0, cur, od, theirs, td, g, t, be, oe, te, strategy);
        let sn = scope_entries(new, g, t);
        assert forall|k: Seq<char>| #[trigger] sn.contains_key(k) <==> (read_somewhere(base, o0, theirs, g, t, k)
            && keeps_value(key_merge(base, bd, o0, od, theirs, td, g, t, k, strategy))) by {
            assert(merged_value(be, oe, te, strategy, k) == key_merge(base, bd, o0, od, theirs, td, g, t, k, strategy));
            assert((be.contains_key(k) || oe.contains_key(k) || te.contains_key(k)) == read_somewhere(base, o0, theirs, g, t, k));
        }
        assert forall|k: Seq<char>| #[trigger] sn.contains_key(k) implies seals(
            sn[k],
            entry_key(scope_dek(od, g, t), k),
            key_merge(base, bd, o0, od, theirs, td, g, t, k, strategy)->Some_0->Some_0,
        ) by {
            assert(merged_value(be, oe, te, strategy, k) == key_merge(base, bd, o0, od, theirs, td, g, t, k, strategy));
        }
    }
}


/// Whether the names of one scope are conflict-free, in terms of the
/// readings of the three sides.
proof fn lemma_scope_clean(
    base: Vault,
    bd: Seq<u8>,
    o0: Vault,
    od: Seq<u8>,
    theirs: Vault,
    td: Seq<u8>,
    g: Seq<char>,
    t: Seq<char>,
    be: Map<Seq<char>, String>,
    oe: Map<Seq<char>, String>,
    te: Map<Seq<char>, String>,
    strategy: MergeStrategy,
)
    requires
        scope_names(be, oe, te).to_set() == be.dom() + oe.dom() + te.dom(),
        forall|k: Seq<char>| #[trigger] merged_value(be, oe, te, strategy, k) == key_merge(
            base,
            bd,
            o0,
            od,
            theirs,
            td,
            g,
            t,
            k,
            strategy,
        ),
        forall|k: Seq<char>| (be.contains_key(k) || oe.contains_key(k) || te.contains_key(k)) == #[trigger] read_somewhere(
            base,
            o0,
            theirs,
            g,
            t,
            k,
        ),
    ensures
        scope_conflicts(scope_names(be, oe, te), be, oe, te, strategy, g, t).len() == 0 <==> forall|k: Seq<char>|
            #[trigger] read_somewhere(base, o0, theirs, g, t, k) ==> key_merge(base, bd, o0, od, theirs, td, g, t, k, strategy) is Some,
{
    let ks = scope_names(be, oe, te);
    lemma_scope_conflicts_empty(ks, be, oe, te, strategy, g, t);
    if scope_conflicts(ks, be, oe, te, strategy, g, t).len() == 0 {
        assert forall|k: Seq<char>| #[trigger] read_somewhere(base, o0, theirs, g, t, k) implies key_merge(
            base,
            bd,
            o0,
            od,
            theirs,
            td,
            g,
            t,
            k,
            strategy,
        ) is Some by {
            assert(ks.to_set().contains(k));
            let i = choose|i: int| 0 <= i < ks.len() && ks[i] == k;
            assert(merged_value(be, oe, te, strategy, ks[i]) is Some);
        }
    } else {
        let i = choose|i: int| 0 <= i < ks.len() && !(#[trigger] merged_value(be, oe, te, strategy, ks[i]) is Some);
        let k = ks[i];
        assert(ks.to_set().contains(k));
        assert(read_somewhere(base, o0, theirs, g, t, k));
    }
}

/// The progress of merging group `g` once the tags in `done` were merged,
/// with `nconf` conflict reports so far.
pub open spec fn group_progress(
    base: Vault,
    bd: Seq<u8>,
    o0: Vault,
    o1: Vault,
    od: Seq<u8>,
    theirs: Vault,
    td: Seq<u8>,
    g: Seq<char>,
    strategy: MergeStrategy,
    done: Seq<Seq<char>>,
    cur: Vault,
    nconf: nat,
) -> bool {
    group_names_ok(base, o0, theirs, g) ==> {
        &&& group_frame(o1, cur, g, done)
        &&& forall|u: Seq<char>| #[trigger] done.contains(u) ==> {
            &&& reads_ok(base, bd, g, u)
            &&& reads_ok(o0, od, g, u)
            &&& reads_ok(theirs, td, g, u)
        }
        &&& (nconf == 0 <==> forall|u: Seq<char>, k: Seq<char>|
            done.contains(u) && #[trigger] read_somewhere(base, o0, theirs, g, u, k) ==> key_merge(
                base,
                bd,
                o0,
                od,
                theirs,
                td,
                g,
                u,
                k,
                strategy,
            ) is Some)
        &&& nconf == 0 ==> forall|u: Seq<char>| #[trigger] done.contains(u) ==> tag_merged(
            cur,
            base,
            bd,
            o0,
            od,
            theirs,
            td,
            g,
            u,
            strategy,
        )
    }
}

/// Merging the scope of one more tag keeps the progress.
proof fn lemma_group_step(
    base: Vault,
    bd: Seq<u8>,
    o0: Vault,
    o1: Vault,
    od: Seq<u8>,
    theirs: Vault,
    td: Seq<u8>,
    g: Seq<char>,
    strategy: MergeStrategy,
    done: Seq<Seq<char>>,
    t: Seq<char>,
    cur: Vault,
    new: Vault,
    be: Map<Seq<char>, String>,
    oe: Map<Seq<char>, String>,
    te: Map<Seq<char>, String>,
    nb: nat,
    na: nat,
)
    requires
        grown(o0, o1, g),
        group_progress(base, bd, o0, o1, od, theirs, td, g, strategy, done, cur, nb),
        !done.contains(t),
        read_as(base, bd, g, t, be),
        read_as(cur, od, g, t, oe),
        read_as(theirs, td, g, t, te),
        scope_names(be, oe, te).to_set() == be.dom() + oe.dom() + te.dom(),
        na == nb + scope_conflicts(scope_names(be, oe, te), be, oe, te, strategy, g, t).len(),
        nb > 0 ==> new == cur,
        cur.entries@.contains_key(g) && !scope_names(be, oe, te).contains(Seq::<char>::empty()) ==> scope_frame(
            cur,
            new,
            g,
            t,
        ),
        na == 0 && cur.entries@.contains_key(g) && !scope_names(be, oe, te).contains(Seq::<char>::empty())
            ==> scope_merged(cur, new, od, g, t, be, oe, te, strategy),
    ensures
        group_progress(base, bd, o0, o1, od, theirs, td, g, strategy, done.push(t), new, na),
{
    if group_names_ok(base, o0, theirs, g) {
        let d2 = done.push(t);
        assert(cur.entries@.contains_key(g));
        lemma_unmerged_reading(o0, o1, cur, od, g, done, t);
        lemma_merged_views(base, bd, o0, cur, od, theirs, td, g, t, be, oe, te, strategy);
        assert(!scope_names(be, oe, te).contains(Seq::<char>::empty())) by {
            if scope_names(be, oe, te).contains(Seq::<char>::empty()) {
                assert(scope_names(be, oe, te).to_set().contains(Seq::<char>::empty()));
                assert(read_somewhere(base, o0, theirs, g, t, Seq::<char>::empty()));
            }
        }
        lemma_tag_step(base, bd, o0, o1, od, theirs, td, g, strategy, done, t, cur, new, be, oe, te);
        assert(d2[done.len() as int] == t);
        assert forall|u: Seq<char>| #[trigger] d2.contains(u) && u != t implies done.contains(u) by {
            let n = choose|n: int| 0 <= n < d2.len() && d2[n] == u;
            assert(done[n] == u);
        }
        assert forall|u: Seq<char>| #[trigger] done.contains(u) implies d2.contains(u) by {
            let n = choose|n: int| 0 <= n < done.len() && done[n] == u;
            assert(d2[n] == u);
        }
        assert forall|u: Seq<char>| #[trigger] d2.contains(u) implies {
            &&& reads_ok(base, bd, g, u)
            &&& reads_ok(o0, od, g, u)
            &&& reads_ok(theirs, td, g, u)
        } by {
            if u != t {
                assert(done.contains(u));
            }
        }
        if nb == 0 {
            lemma_scope_clean(base, bd, o0, od, theirs, td, g, t, be, oe, te, strategy);
            if na == 0 {
                assert forall|u: Seq<char>, k: Seq<char>|
                    d2.contains(u) && #[trigger] read_somewhere(base, o0, theirs, g, u, k) implies key_merge(
                    base,
                    bd,
                    o0,
                    od,
                    theirs,
                    td,
                    g,
                    u,
                    k,
                    strategy,
                ) is Some by {
                    if u != t {
                        assert(done.contains(u));
                    }
                }
                assert forall|u: Seq<char>| #[trigger] d2.contains(u) implies tag_merged(
                    new,
                    base,
                    bd,
                    o0,
                    od,
                    theirs,
                    td,
                    g,
                    u,
                    strategy,
                ) by {
                    if u != t {
                        assert(done.contains(u));
                        assert(scope_entries(new, g, u) == scope_entries(cur, g, u));
                    }
                }
            } else {
                let k = choose|k: Seq<char>| #[trigger] read_somewhere(base, o0, theirs, g, t, k) && !(key_merge(
                    base,
                    bd,
                    o0,
                    od,
                    theirs,
                    td,
                    g,
                    t,
                    k,
                    strategy,
                ) is Some);
                assert(d2.contains(t));
            }
        } else {
            let (u, k) = choose|u: Seq<char>, k: Seq<char>|
                done.contains(u) && #[trigger] read_somewhere(base, o0, theirs, g, u, k) && !(key_merge(
                    base,
                    bd,
                    o0,
                    od,
                    theirs,
                    td,
                    g,
                    u,
                    k,
                    strategy,
                ) is Some);
            assert(d2.contains(u));
        }
    }
}

/// Every value scope `t` of group `g` of `v` reads is short enough to be
/// sealed.
pub open spec fn reads_fit(v: Vault, mk: Seq<u8>, g: Seq<char>, t: Seq<char>) -> bool {
    forall|k: Seq<char>| #[trigger] scope_entries(v, g, t).contains_key(k) ==> encode_utf8(
        scope_reading(v, mk, g, t)[k],
    ).len() <= AES_GCM_P_MAX
}

/// A merge of group `g` that nothing stops: no scope of the group on any
/// side holds an empty name, the group can be addressed by name in the
/// current branch, and for every tag of the group on any side (and the base
/// tag) every name reads on all three sides, every value read on the current
/// and incoming side is short enough to be sealed, and the current branch
/// does not protect the tag.
pub open spec fn group_mergeable(
    base: Vault,
    bd: Seq<u8>,
    ours: Vault,
    od: Seq<u8>,
    theirs: Vault,
    td: Seq<u8>,
    g: Seq<char>,
) -> bool {
    &&& group_names_ok(base, ours, theirs, g)
    &&& ours.group_for(Some(g)) is Ok
    &&& forall|t: Seq<char>| #[trigger] tag_union(base, ours, theirs, g).contains(t) ==> {
        &&& reads_ok(base, bd, g, t)
        &&& reads_ok(ours, od, g, t)
        &&& reads_ok(theirs, td, g, t)
        &&& reads_fit(ours, od, g, t)
        &&& reads_fit(theirs, td, g, t)
        &&& (t != base_tag() ==> !ours.tag_is_protected(g, t))
    }
}

/// In a merge that nothing stops, every write into a scope not yet merged
/// is taken.
proof fn lemma_scope_writable(
    base: Vault,
    bd: Seq<u8>,
    o0: Vault,
    o1: Vault,
    cur: Vault,
    od: Seq<u8>,
    theirs: Vault,
    td: Seq<u8>,
    g: Seq<char>,
    done: Seq<Seq<char>>,
    t: Seq<char>,
    oe: Map<Seq<char>, String>,
    te: Map<Seq<char>, String>,
)
    requires
        group_mergeable(base, bd, o0, od, theirs, td, g),
        grown(o0, o1, g),
        group_frame(o1, cur, g, done),
        !done.contains(t),
        tag_union(base, o0, theirs, g).contains(t),
        read_as(cur, od, g, t, oe),
        read_as(theirs, td, g, t, te),
    ensures
        scope_writable(cur, g, t, oe, te),
{
    lemma_unmerged_reading(o0, o1, cur, od, g, done, t);
    assert(cur.group_for(Some(g)) == o0.group_for(Some(g)));
    assert(cur.entries@.contains_key(g));
    if t != base_tag() {
        assert(!o0.tag_is_protected(g, t));
        if cur.tag_is_protected(g, t) {
            assert(o1.entries@[g].tags@.contains_key(t));
            assert(o0.entries@.contains_key(g));
            assert(o0.tag_is_protected(g, t));
        }
    }
    assert forall|k: Seq<char>| #[trigger] oe.contains_key(k) implies k.len() > 0 && encode_utf8(oe[k]@).len()
        <= AES_GCM_P_MAX by {
        assert(scope_entries(o0, g, t).contains_key(k));
        assert(read_somewhere(base, o0, theirs, g, t, k));
        assert(scope_reading(cur, od, g, t)[k] == oe[k]@);
        assert(scope_reading(o0, od, g, t)[k] == oe[k]@);
    }
    assert forall|k: Seq<char>| #[trigger] te.contains_key(k) implies encode_utf8(te[k]@).len() <= AES_GCM_P_MAX by {
        assert(scope_entries(theirs, g, t).contains_key(k));
        assert(scope_reading(theirs, td, g, t)[k] == te[k]@);
    }
}

/// Merges group `g` of the current branch's vault (adding it, empty, where
/// missing) from the ancestor and the incoming branch: every tag of the
/// group on any side, and the base tag, in ascending order, is merged
/// scope by scope, reading each side with its own master data key.
/// Conflict reports are added to `conflicts`, which must be empty at the
/// start.
#[verifier::rlimit(60)]
pub fn merge_group(
    ours: &mut Vault,
    ours_keys: &VaultKeys,
    base: &Vault,
    base_dek: &[u8; 32],
    theirs: &Vault,
    theirs_dek: &[u8; 32],
    g: &str,
    strategy: MergeStrategy,
    conflicts: &mut Vec<String>,
) -> (r: Result<(), VaultError>)
    requires
        old(conflicts)@.len() == 0,
    ensures
        r is Ok && group_names_ok(*base, *old(ours), *theirs, g@) ==> group_merged(
            *old(ours),
            *final(ours),
            ours_keys.master_dek@,
            *base,
            base_dek@,
            *theirs,
            theirs_dek@,
            g@,
            strategy,
            final(conflicts)@.len() == 0,
        ),
        group_mergeable(*base, base_dek@, *old(ours), ours_keys.master_dek@, *theirs, theirs_dek@, g@) ==> r is Ok,
{
    let ghost o0 = *ours;
    let ghost od = ours_keys.master_dek@;
    let ghost bd = base_dek@;
    let ghost td = theirs_dek@;
    if !ours.entries.contains_key(g) {
        ours.entries.insert(String::from_str(g), Group::new_empty());
    }
    let ghost o1 = *ours;
    proof {
        assert(o1.entries@.dom() =~= o0.entries@.dom().insert(g@));
    }
    let mut acc: StrMap<bool> = StrMap::new();
    acc.insert(base_tag_string(), true);
    match base.entries.get(g) {
        Some(bg) => add_keys(&mut acc, &bg.tags),
        None => {},
    }
    match ours.entries.get(g) {
        Some(og) => add_keys(&mut acc, &og.tags),
        None => {},
    }
    match theirs.entries.get(g) {
        Some(tg) => add_keys(&mut acc, &tg.tags),
        None => {},
    }
    let tl = acc.keys();
    let ghost tseq = acc.key_seq();
    let ghost names_ok = group_names_ok(*base, o0, *theirs, g@);
    proof {
        acc.lemma_key_set();
        assert(group_tags(o1, g@) =~= group_tags(o0, g@));
        assert(tseq.to_set() =~= tag_union(*base, o0, *theirs, g@));
        assert(tseq.take(0) =~= Seq::<Seq<char>>::empty());
        assert forall|u: Seq<char>| #![trigger scope_entries(o1, g@, u)] true implies scope_entries(o1, g@, u) == scope_entries(o1, g@, u) by {}
    }
    proof {
        assert(group_progress(*base, bd, o0, o1, od, *theirs, td, g@, strategy, tseq.take(0), *ours, 0));
    }
    let ghost gm = group_mergeable(*base, bd, o0, od, *theirs, td, g@);
    let mut j: usize = 0;
    while j < tl.len()
        invariant
            j <= tl.len(),
            tl@.map_values(|s: String| s@) == tseq,
            sorted_keys(tseq),
            tseq.to_set() == tag_union(*base, o0, *theirs, g@),
            grown(o0, o1, g@),
            od == ours_keys.master_dek@,
            bd == base_dek@,
            td == theirs_dek@,
            group_progress(*base, bd, o0, o1, od, *theirs, td, g@, strategy, tseq.take(j as int), *ours, conflicts@.len()),
            gm == group_mergeable(*base, base_dek@, *old(ours), ours_keys.master_dek@, *theirs, theirs_dek@, g@),
            gm ==> group_mergeable(*base, bd, o0, od, *theirs, td, g@),
        decreases tl.len() - j,
    {
        let tname = &tl[j];
        let ghost t = tname@;
        let ghost done = tseq.take(j as int);
        proof {
            assert(tseq[j as int] == t);
            assert(tseq.take(j + 1) =~= done.push(t));
            assert(!done.contains(t)) by {
                if done.contains(t) {
                    let n = choose|n: int| 0 <= n < j && done[n] == t;
                    crate::strmap::lemma_sorted_distinct(tseq, n, j as int);
                }
            }
        }
        let is_base = crate::vault::is_base_tag(tname.as_str());
        let tag: Option<&str> = if is_base {
            None
        } else {
            Some(tname.as_str())
        };
        assert(tag_or_base(opt_view(tag)) == t);
        proof {
            if gm {
                assert(tseq.to_set().contains(t));
                lemma_unmerged_reading(o0, o1, *ours, od, g@, done, t);
            }
        }
        let be = fetch_scope(base, base_dek, g, tag)?;
        let oe = fetch_scope(ours, &ours_keys.master_dek, g, tag)?;
        let te = fetch_scope(theirs, theirs_dek, g, tag)?;
        let ghost cur = *ours;
        let ghost cb = conflicts@.len();
        proof {
            if gm {
                lemma_scope_writable(*base, bd, o0, o1, cur, od, *theirs, td, g@, done, t, oe@, te@);
            }
        }
        let mr = merge_scope(ours, ours_keys, g, tag, tname.as_str(), &be, &oe, &te, strategy, conflicts);
        match mr {
            Err(e) => {
                return Err(e);
            },
            Ok(()) => {},
        }
        proof {
            lemma_group_step(
                *base,
                bd,
                o0,
                o1,
                od,
                *theirs,
                td,
                g@,
                strategy,
                done,
                t,
                cur,
                *ours,
                be@,
                oe@,
                te@,
                cb,
                conflicts@.len(),
            );
        }
        j = j + 1;
    }
    proof {
        assert(tseq.take(tl.len() as int) =~= tseq);
        if group_names_ok(*base, o0, *theirs, g@) {
            assert forall|u: Seq<char>| tseq.contains(u) == #[trigger] tag_union(*base, o0, *theirs, g@).contains(u) by {
                assert(tseq.contains(u) == tseq.to_set().contains(u));
            }
            let nv = *ours;
            if conflicts@.len() == 0 {
                assert(same_frame(o0, nv));
                assert(nv.entries@.dom() =~= o0.entries@.dom().insert(g@));
                assert forall|u: Seq<char>| #[trigger] nv.entries@[g@].tags@.dom().contains(u) implies tag_union(
                    *base,
                    o0,
                    *theirs,
                    g@,
                ).contains(u) by {
                    assert(nv.entries@[g@].tags@.contains_key(u));
                    if o1.entries@[g@].tags@.contains_key(u) {
                        assert(group_tags(o0, g@).contains_key(u));
                    }
                }
            }
        }
    }
    Ok(())
}


/// A tag that holds at least one entry.
pub open spec fn tag_kept(t: Tag) -> bool {
    t.entries@.dom() != Set::<Seq<char>>::empty()
}

/// A group with a base entry or a tag that holds one.
pub open spec fn group_kept(g: Group) -> bool {
    ||| g.base@.dom() != Set::<Seq<char>>::empty()
    ||| exists|u: Seq<char>| #[trigger] g.tags@.contains_key(u) && tag_kept(g.tags@[u])
}

/// `new` is `old` without the tags that hold no entry.
pub open spec fn tags_pruned(old: Map<Seq<char>, Tag>, new: Map<Seq<char>, Tag>) -> bool {
    &&& forall|u: Seq<char>| #[trigger] new.contains_key(u) <==> (old.contains_key(u) && tag_kept(old[u]))
    &&& forall|u: Seq<char>| #[trigger] new.contains_key(u) ==> new[u] == old[u]
}

/// `new` is `old` without empty tags, and without the groups left empty.
pub open spec fn vault_pruned(old: Vault, new: Vault) -> bool {
    &&& same_frame(old, new)
    &&& new.signature == old.signature
    &&& forall|g: Seq<char>| #[trigger] new.entries@.contains_key(g) <==> (old.entries@.contains_key(g)
        && group_kept(old.entries@[g]))
    &&& forall|g: Seq<char>| #[trigger] new.entries@.contains_key(g) ==> {
        &&& new.entries@[g].link == old.entries@[g].link
        &&& new.entries@[g].base == old.entries@[g].base
        &&& tags_pruned(old.entries@[g].tags@, new.entries@[g].tags@)
    }
}

/// Taking one more element of a list adds exactly that element.
pub(crate) proof fn lemma_take_one_more<A>(s: Seq<A>, i: int)
    requires
        0 <= i < s.len(),
    ensures
        forall|u: A| #[trigger] s.take(i + 1).contains(u) == (s.take(i).contains(u) || u == s[i]),
{
    let d0 = s.take(i);
    let d1 = s.take(i + 1);
    assert forall|u: A| #[trigger] d1.contains(u) == (d0.contains(u) || u == s[i]) by {
        assert(d1[i] == s[i]);
        if d1.contains(u) && u != s[i] {
            let j = choose|j: int| 0 <= j < d1.len() && d1[j] == u;
            assert(d0[j] == u);
        }
        if d0.contains(u) {
            let j = choose|j: int| 0 <= j < d0.len() && d0[j] == u;
            assert(d1[j] == u);
        }
    }
}

/// Drops the tags that hold no entry.
fn prune_tags(tags: StrMap<Tag>) -> (r: StrMap<Tag>)
    ensures
        tags_pruned(tags@, r@),
{
    let ghost t0 = tags@;
    let ks = tags.keys();
    let ghost kseq = tags.key_seq();
    proof {
        tags.lemma_key_set();
    }
    let mut rest = tags;
    let mut out: StrMap<Tag> = StrMap::new();
    let mut i: usize = 0;
    while i < ks.len()
        invariant
            i <= ks.len(),
            ks@.map_values(|s: String| s@) == kseq,
            sorted_keys(kseq),
            kseq.to_set() == t0.dom(),
            forall|u: Seq<char>| #[trigger] rest@.contains_key(u) <==> (t0.contains_key(u) && !kseq.take(i as int).contains(u)),
            forall|u: Seq<char>| #[trigger] rest@.contains_key(u) ==> rest@[u] == t0[u],
            forall|u: Seq<char>| #[trigger] out@.contains_key(u) <==> (t0.contains_key(u) && kseq.take(i as int).contains(u)
                && tag_kept(t0[u])),
            forall|u: Seq<char>| #[trigger] out@.contains_key(u) ==> out@[u] == t0[u],
        decreases ks.len() - i,
    {
        let k = &ks[i];
        let ghost kv = k@;
        proof {
            assert(kseq[i as int] == kv);
            assert(kseq.take(i + 1) =~= kseq.take(i as int).push(kv));
            assert(!kseq.take(i as int).contains(kv)) by {
                if kseq.take(i as int).contains(kv) {
                    let j = choose|j: int| 0 <= j < i && kseq.take(i as int)[j] == kv;
                    crate::strmap::lemma_sorted_distinct(kseq, j, i as int);
                }
            }
            assert(kseq.contains(kv));
            assert(kseq.to_set().contains(kv));
        }
        let removed = rest.remove(k.as_str());
        match removed {
            Some(tg) => {
                if !tg.entries.is_empty() {
                    out.insert(k.clone(), tg);
                }
            },
            None => {},
        }
        proof {
            lemma_take_one_more(kseq, i as int);
        }
        i = i + 1;
    }
    proof {
        assert(kseq.take(ks.len() as int) =~= kseq);
        assert forall|u: Seq<char>| #[trigger] out@.contains_key(u) <==> (t0.contains_key(u) && tag_kept(t0[u])) by {
            assert(kseq.contains(u) == kseq.to_set().contains(u));
        }
    }
    out
}

impl Vault {
    /// Drops every tag that holds no entry, then every group left with no
    /// base entry and no tag.
    pub fn prune_empty(&mut self)
        ensures
            vault_pruned(*old(self), *final(self)),
    {
        let ghost v0 = *self;
        let mut rest: StrMap<Group> = StrMap::new();
        std::mem::swap(&mut rest, &mut self.entries);
        let ghost e0 = rest@;
        let ks = rest.keys();
        let ghost kseq = rest.key_seq();
        proof {
            rest.lemma_key_set();
        }
        let mut out: StrMap<Group> = StrMap::new();
        let mut i: usize = 0;
        while i < ks.len()
            invariant
                i <= ks.len(),
                e0 == v0.entries@,
                ks@.map_values(|s: String| s@) == kseq,
                sorted_keys(kseq),
                kseq.to_set() == e0.dom(),
                forall|u: Seq<char>| #[trigger] rest@.contains_key(u) <==> (e0.contains_key(u) && !kseq.take(i as int).contains(u)),
                forall|u: Seq<char>| #[trigger] rest@.contains_key(u) ==> rest@[u] == e0[u],
                forall|u: Seq<char>| #[trigger] out@.contains_key(u) <==> (e0.contains_key(u) && kseq.take(i as int).contains(u)
                    && group_kept(e0[u])),
                forall|u: Seq<char>| #[trigger] out@.contains_key(u) ==> {
                    &&& out@[u].link == e0[u].link
                    &&& out@[u].base == e0[u].base
                    &&& tags_pruned(e0[u].tags@, out@[u].tags@)
                },
            decreases ks.len() - i,
        {
            let k = &ks[i];
            let ghost kv = k@;
            proof {
                assert(kseq[i as int] == kv);
                assert(kseq.take(i + 1) =~= kseq.take(i as int).push(kv));
                assert(!kseq.take(i as int).contains(kv)) by {
                    if kseq.take(i as int).contains(kv) {
                        let j = choose|j: int| 0 <= j < i && kseq.take(i as int)[j] == kv;
                        crate::strmap::lemma_sorted_distinct(kseq, j, i as int);
                    }
                }
                assert(kseq.contains(kv));
                assert(kseq.to_set().contains(kv));
            }
            let removed = rest.remove(k.as_str());
            match removed {
                Some(grp) => {
                    let ghost g0 = grp;
                    let Group { link, base, tags } = grp;
                    let kept_tags = prune_tags(tags);
                    let has_base = !base.is_empty();
                    let has_tags = !kept_tags.is_empty();
                    proof {
                        if has_tags {
                            assert(exists|u: Seq<char>| kept_tags@.dom().contains(u)) by {
                                if !(exists|u: Seq<char>| kept_tags@.dom().contains(u)) {
                                    assert(kept_tags@.dom() =~= Set::<Seq<char>>::empty());
                                }
                            }
                            let u = choose|u: Seq<char>| kept_tags@.dom().contains(u);
                            assert(kept_tags@.contains_key(u));
                            assert(g0.tags@.contains_key(u) && tag_kept(g0.tags@[u]));
                        }
                        if group_kept(g0) && !has_base {
                            let u = choose|u: Seq<char>| #[trigger] g0.tags@.contains_key(u) && tag_kept(g0.tags@[u]);
                            assert(kept_tags@.contains_key(u));
                            assert(kept_tags@.dom().contains(u));
                        }
                    }
                    if has_base || has_tags {
                        out.insert(k.clone(), Group { link, base, tags: kept_tags });
                    }
                },
                None => {},
            }
            proof {
                lemma_take_one_more(kseq, i as int);
            }
            i = i + 1;
        }
        proof {
            assert(kseq.take(ks.len() as int) =~= kseq);
            assert forall|u: Seq<char>| #[trigger] out@.contains_key(u) <==> (e0.contains_key(u) && group_kept(e0[u])) by {
                assert(kseq.contains(u) == kseq.to_set().contains(u));
            }
        }
        self.entries = out;
    }
}


/// Whether vault `v` has group `g`.
pub open spec fn has_group(v: Vault, g: Seq<char>) -> bool {
    v.entries@.contains_key(g)
}

/// Group `g` exists in `v` and in the ancestor, and is the same in both.
pub open spec fn group_unchanged(v: Vault, base: Vault, g: Seq<char>) -> bool {
    has_group(v, g) && has_group(base, g) && crate::merge::group_same(v.entries@[g], base.entries@[g])
}

/// What becomes of group `g`; see `group_action`.
pub open spec fn outcome(base: Vault, ours: Vault, theirs: Vault, g: Seq<char>, strategy: MergeStrategy) -> GroupAction {
    group_action(
        has_group(base, g),
        has_group(ours, g),
        has_group(theirs, g),
        group_unchanged(ours, base, g),
        group_unchanged(theirs, base, g),
        strategy,
    )
}

/// The groups of the three sides.
pub open spec fn all_groups(base: Vault, ours: Vault, theirs: Vault) -> Set<Seq<char>> {
    base.entries@.dom() + ours.entries@.dom() + theirs.entries@.dom()
}

/// Group `g` merges without conflict.
pub open spec fn group_ok(
    base: Vault,
    bd: Seq<u8>,
    ours: Vault,
    od: Seq<u8>,
    theirs: Vault,
    td: Seq<u8>,
    g: Seq<char>,
    strategy: MergeStrategy,
) -> bool {
    match outcome(base, ours, theirs, g, strategy) {
        GroupAction::ConflictDeletedIncoming => false,
        GroupAction::ConflictDeletedLocal => false,
        GroupAction::MergeSecrets => group_clean(base, bd, ours, od, theirs, td, g, strategy),
        _ => true,
    }
}

/// Every group merges without conflict.
pub open spec fn merge_clean(
    base: Vault,
    bd: Seq<u8>,
    ours: Vault,
    od: Seq<u8>,
    theirs: Vault,
    td: Seq<u8>,
    strategy: MergeStrategy,
) -> bool {
    forall|g: Seq<char>| #[trigger] all_groups(base, ours, theirs).contains(g) ==> group_ok(
        base,
        bd,
        ours,
        od,
        theirs,
        td,
        g,
        strategy,
    )
}

/// No scope of any side holds an empty name.
pub open spec fn names_ok(base: Vault, ours: Vault, theirs: Vault) -> bool {
    forall|g: Seq<char>| #[trigger] group_names_ok(base, ours, theirs, g)
}

/// Group `g` of `pre` (the current branch once its groups were handled,
/// before empty ones are dropped) is what its outcome asks for.
pub open spec fn group_done(
    pre: Vault,
    base: Vault,
    bd: Seq<u8>,
    ours: Vault,
    od: Seq<u8>,
    theirs: Vault,
    td: Seq<u8>,
    g: Seq<char>,
    strategy: MergeStrategy,
) -> bool {
    match outcome(base, ours, theirs, g, strategy) {
        GroupAction::Remove => !has_group(pre, g),
        GroupAction::Keep => has_group(pre, g) == has_group(ours, g) && (has_group(ours, g) ==> pre.entries@[g]
            == ours.entries@[g]),
        GroupAction::TakeTheirs => has_group(pre, g) && pre.entries@[g] == theirs.entries@[g],
        GroupAction::MergeSecrets => {
            &&& has_group(pre, g)
            &&& pre.entries@[g].link@ == (if has_group(ours, g) {
                ours.entries@[g].link@
            } else {
                Seq::<char>::empty()
            })
            &&& pre.entries@[g].tags@.dom().subset_of(tag_union(base, ours, theirs, g))
            &&& forall|t: Seq<char>| #[trigger] tag_union(base, ours, theirs, g).contains(t) ==> tag_merged(
                pre,
                base,
                bd,
                ours,
                od,
                theirs,
                td,
                g,
                t,
                strategy,
            )
        },
        _ => true,
    }
}

/// Group `g` of `nv` is that of `src` without its empty tags, or missing
/// where that left it empty.
pub open spec fn group_pruned_from(src: Vault, nv: Vault, g: Seq<char>) -> bool {
    &&& has_group(nv, g) <==> (has_group(src, g) && group_kept(src.entries@[g]))
    &&& has_group(nv, g) ==> {
        &&& nv.entries@[g].link == src.entries@[g].link
        &&& nv.entries@[g].base == src.entries@[g].base
        &&& tags_pruned(src.entries@[g].tags@, nv.entries@[g].tags@)
    }
}

/// The merged vault `nv`, group by group: a removed group is gone; a kept
/// one is the current branch's and a taken one the incoming branch's (each
/// without empty tags); a merged one holds in each scope exactly the names
/// whose resolution keeps a value, sealing that value. No group and no tag
/// of it is empty, and it is signed.
pub open spec fn merge_result(
    nv: Vault,
    base: Vault,
    bd: Seq<u8>,
    ours: Vault,
    od: Seq<u8>,
    theirs: Vault,
    td: Seq<u8>,
    strategy: MergeStrategy,
    seed: Seq<u8>,
) -> bool {
    &&& same_frame(ours, nv)
    &&& sealed_by(nv, seed)
    &&& ours.public_key@ == crate::crypto::ed25519_public_key(seed) ==> crate::seal::integrity(nv) is Ok
    &&& forall|g: Seq<char>| #[trigger] has_group(nv, g) ==> {
        &&& all_groups(base, ours, theirs).contains(g)
        &&& group_kept(nv.entries@[g])
        &&& forall|u: Seq<char>| #[trigger] nv.entries@[g].tags@.contains_key(u) ==> tag_kept(nv.entries@[g].tags@[u])
    }
    &&& forall|g: Seq<char>| #[trigger] all_groups(base, ours, theirs).contains(g) ==> match outcome(
        base,
        ours,
        theirs,
        g,
        strategy,
    ) {
        GroupAction::Remove => !has_group(nv, g),
        GroupAction::Keep => group_pruned_from(ours, nv, g),
        GroupAction::TakeTheirs => group_pruned_from(theirs, nv, g),
        GroupAction::MergeSecrets => {
            &&& has_group(nv, g) ==> nv.entries@[g].link@ == (if has_group(ours, g) {
                ours.entries@[g].link@
            } else {
                Seq::<char>::empty()
            })
            &&& has_group(nv, g) ==> nv.entries@[g].tags@.dom().subset_of(tag_union(base, ours, theirs, g))
            &&& forall|t: Seq<char>| #[trigger] tag_union(base, ours, theirs, g).contains(t) ==> tag_merged(
                nv,
                base,
                bd,
                ours,
                od,
                theirs,
                td,
                g,
                t,
                strategy,
            )
        },
        _ => true,
    }
}

/// Dropping empty tags and groups leaves every scope as it was.
proof fn lemma_pruned_scopes(pre: Vault, nv: Vault)
    requires
        vault_pruned(pre, nv),
    ensures
        forall|g: Seq<char>, t: Seq<char>| #[trigger] scope_entries(nv, g, t) == scope_entries(pre, g, t),
{
    assert forall|g: Seq<char>, t: Seq<char>| #[trigger] scope_entries(nv, g, t) == scope_entries(pre, g, t) by {
        if has_group(nv, g) {
            if t != base_tag() {
                let nt = nv.entries@[g].tags@;
                let pt = pre.entries@[g].tags@;
                if !nt.contains_key(t) && pt.contains_key(t) {
                    assert(pt[t].entries@ =~= Map::<Seq<char>, Entry>::empty());
                }
            }
        } else if has_group(pre, g) {
            let pg = pre.entries@[g];
            assert(!group_kept(pg));
            if t == base_tag() {
                assert(pg.base@ =~= Map::<Seq<char>, Entry>::empty());
            } else if pg.tags@.contains_key(t) {
                assert(!tag_kept(pg.tags@[t]));
                assert(pg.tags@[t].entries@ =~= Map::<Seq<char>, Entry>::empty());
            }
        }
    }
}

/// Two vaults whose group `g` is the same (or missing in both), under the
/// same file path, read the same in every scope of it.
proof fn lemma_group_views(a: Vault, b: Vault, g: Seq<char>)
    requires
        a.file_path == b.file_path,
        has_group(a, g) == has_group(b, g),
        has_group(a, g) ==> a.entries@[g] == b.entries@[g],
    ensures
        group_tags(a, g) == group_tags(b, g),
        forall|t: Seq<char>| #[trigger] scope_entries(a, g, t) == scope_entries(b, g, t),
        forall|mk: Seq<u8>, t: Seq<char>| #[trigger] scope_reading(a, mk, g, t) == scope_reading(b, mk, g, t),
        forall|mk: Seq<u8>, t: Seq<char>| #[trigger] reads_ok(a, mk, g, t) == reads_ok(b, mk, g, t),
{
    assert forall|mk: Seq<u8>, t: Seq<char>| #[trigger] scope_reading(a, mk, g, t) == scope_reading(b, mk, g, t) by {
        lemma_reading_same(a, b, mk, g, t);
    }
    assert forall|mk: Seq<u8>, t: Seq<char>| #[trigger] reads_ok(a, mk, g, t) == reads_ok(b, mk, g, t) by {
        lemma_reading_same(a, b, mk, g, t);
    }
}

/// The readings, resolutions and outcome of group `g` are the same for
/// sides whose group `g` is the same.
proof fn lemma_same_sides(
    base: Vault,
    bd: Seq<u8>,
    o0: Vault,
    cur: Vault,
    od: Seq<u8>,
    t0: Vault,
    th: Vault,
    td: Seq<u8>,
    g: Seq<char>,
    strategy: MergeStrategy,
)
    requires
        cur.file_path == o0.file_path,
        has_group(cur, g) == has_group(o0, g),
        has_group(o0, g) ==> cur.entries@[g] == o0.entries@[g],
        th.file_path == t0.file_path,
        has_group(th, g) == has_group(t0, g),
        has_group(t0, g) ==> th.entries@[g] == t0.entries@[g],
    ensures
        tag_union(base, cur, th, g) == tag_union(base, o0, t0, g),
        forall|t: Seq<char>, k: Seq<char>| #[trigger] read_somewhere(base, cur, th, g, t, k) == read_somewhere(base, o0, t0, g, t, k),
        forall|t: Seq<char>, k: Seq<char>| #[trigger] key_merge(base, bd, cur, od, th, td, g, t, k, strategy) == key_merge(
            base,
            bd,
            o0,
            od,
            t0,
            td,
            g,
            t,
            k,
            strategy,
        ),
        forall|t: Seq<char>| #[trigger] reads_ok(cur, od, g, t) == reads_ok(o0, od, g, t),
        forall|t: Seq<char>| #[trigger] reads_ok(th, td, g, t) == reads_ok(t0, td, g, t),
        outcome(base, cur, th, g, strategy) == outcome(base, o0, t0, g, strategy),
{
    lemma_group_views(cur, o0, g);
    lemma_group_views(th, t0, g);
    assert(tag_union(base, cur, th, g) =~= tag_union(base, o0, t0, g));
    assert forall|t: Seq<char>, k: Seq<char>| #[trigger] key_merge(base, bd, cur, od, th, td, g, t, k, strategy) == key_merge(
        base,
        bd,
        o0,
        od,
        t0,
        td,
        g,
        t,
        k,
        strategy,
    ) by {
        assert(scope_reading(cur, od, g, t) == scope_reading(o0, od, g, t));
        assert(scope_reading(th, td, g, t) == scope_reading(t0, td, g, t));
    }
    assert forall|t: Seq<char>, k: Seq<char>| #[trigger] read_somewhere(base, cur, th, g, t, k) == read_somewhere(base, o0, t0, g, t, k) by {
        assert(scope_entries(cur, g, t) == scope_entries(o0, g, t));
        assert(scope_entries(th, g, t) == scope_entries(t0, g, t));
    }
    assert forall|t: Seq<char>| #[trigger] reads_ok(cur, od, g, t) == reads_ok(o0, od, g, t) by {
        assert(reads_ok(cur, od, g, t) == reads_ok(o0, od, g, t));
    }
    assert forall|t: Seq<char>| #[trigger] reads_ok(th, td, g, t) == reads_ok(t0, td, g, t) by {
        assert(reads_ok(th, td, g, t) == reads_ok(t0, td, g, t));
    }
    assert(group_unchanged(cur, base, g) == group_unchanged(o0, base, g));
    assert(group_unchanged(th, base, g) == group_unchanged(t0, base, g));
}

/// Sides that read the same agree on the names and on conflicts.
proof fn lemma_same_clean(
    base: Vault,
    bd: Seq<u8>,
    o0: Vault,
    cur: Vault,
    od: Seq<u8>,
    t0: Vault,
    th: Vault,
    td: Seq<u8>,
    g: Seq<char>,
    strategy: MergeStrategy,
)
    requires
        tag_union(base, cur, th, g) == tag_union(base, o0, t0, g),
        forall|t: Seq<char>, k: Seq<char>| #[trigger] read_somewhere(base, cur, th, g, t, k) == read_somewhere(base, o0, t0, g, t, k),
        forall|t: Seq<char>, k: Seq<char>| #[trigger] key_merge(base, bd, cur, od, th, td, g, t, k, strategy) == key_merge(
            base,
            bd,
            o0,
            od,
            t0,
            td,
            g,
            t,
            k,
            strategy,
        ),
    ensures
        group_names_ok(base, cur, th, g) == group_names_ok(base, o0, t0, g),
        group_clean(base, bd, cur, od, th, td, g, strategy) == group_clean(base, bd, o0, od, t0, td, g, strategy),
{
    if group_names_ok(base, o0, t0, g) {
        assert forall|t: Seq<char>, k: Seq<char>| #[trigger] read_somewhere(base, cur, th, g, t, k) implies k.len() > 0 by {
            assert(read_somewhere(base, o0, t0, g, t, k));
        }
    }
    if group_names_ok(base, cur, th, g) {
        assert forall|t: Seq<char>, k: Seq<char>| #[trigger] read_somewhere(base, o0, t0, g, t, k) implies k.len() > 0 by {
            assert(read_somewhere(base, cur, th, g, t, k));
        }
    }
    if group_clean(base, bd, o0, od, t0, td, g, strategy) {
        assert forall|t: Seq<char>, k: Seq<char>|
            tag_union(base, cur, th, g).contains(t) && #[trigger] read_somewhere(base, cur, th, g, t, k)
                implies key_merge(base, bd, cur, od, th, td, g, t, k, strategy) is Some by {
            assert(read_somewhere(base, o0, t0, g, t, k));
        }
    }
    if group_clean(base, bd, cur, od, th, td, g, strategy) {
        assert forall|t: Seq<char>, k: Seq<char>|
            tag_union(base, o0, t0, g).contains(t) && #[trigger] read_somewhere(base, o0, t0, g, t, k)
                implies key_merge(base, bd, o0, od, t0, td, g, t, k, strategy) is Some by {
            assert(read_somewhere(base, cur, th, g, t, k));
        }
    }
}

/// Sides that read the same agree on what a merged scope holds.
proof fn lemma_same_tag_merged(
    nv: Vault,
    base: Vault,
    bd: Seq<u8>,
    o0: Vault,
    cur: Vault,
    od: Seq<u8>,
    t0: Vault,
    th: Vault,
    td: Seq<u8>,
    g: Seq<char>,
    t: Seq<char>,
    strategy: MergeStrategy,
)
    requires
        forall|t: Seq<char>, k: Seq<char>| #[trigger] read_somewhere(base, cur, th, g, t, k) == read_somewhere(base, o0, t0, g, t, k),
        forall|t: Seq<char>, k: Seq<char>| #[trigger] key_merge(base, bd, cur, od, th, td, g, t, k, strategy) == key_merge(
            base,
            bd,
            o0,
            od,
            t0,
            td,
            g,
            t,
            k,
            strategy,
        ),
        tag_merged(nv, base, bd, cur, od, th, td, g, t, strategy),
    ensures
        tag_merged(nv, base, bd, o0, od, t0, td, g, t, strategy),
{
    let s = scope_entries(nv, g, t);
    assert forall|k: Seq<char>| #[trigger] s.contains_key(k) <==> (read_somewhere(base, o0, t0, g, t, k)
        && keeps_value(key_merge(base, bd, o0, od, t0, td, g, t, k, strategy))) by {
        assert(read_somewhere(base, cur, th, g, t, k) == read_somewhere(base, o0, t0, g, t, k));
        assert(key_merge(base, bd, cur, od, th, td, g, t, k, strategy) == key_merge(base, bd, o0, od, t0, td, g, t, k, strategy));
    }
    assert forall|k: Seq<char>| #[trigger] s.contains_key(k) implies seals(
        s[k],
        entry_key(scope_dek(od, g, t), k),
        key_merge(base, bd, o0, od, t0, td, g, t, k, strategy)->Some_0->Some_0,
    ) by {
        assert(key_merge(base, bd, cur, od, th, td, g, t, k, strategy) == key_merge(base, bd, o0, od, t0, td, g, t, k, strategy));
    }
}

/// Whether a group is done depends only on that group.
proof fn lemma_group_done_frame(
    a: Vault,
    b: Vault,
    base: Vault,
    bd: Seq<u8>,
    ours: Vault,
    od: Seq<u8>,
    theirs: Vault,
    td: Seq<u8>,
    g: Seq<char>,
    strategy: MergeStrategy,
)
    requires
        has_group(a, g) == has_group(b, g),
        has_group(a, g) ==> a.entries@[g] == b.entries@[g],
        group_done(a, base, bd, ours, od, theirs, td, g, strategy),
    ensures
        group_done(b, base, bd, ours, od, theirs, td, g, strategy),
{
    assert forall|t: Seq<char>| #[trigger] scope_entries(b, g, t) == scope_entries(a, g, t) by {}
    if outcome(base, ours, theirs, g, strategy) == GroupAction::MergeSecrets {
        assert forall|t: Seq<char>| #[trigger] tag_union(base, ours, theirs, g).contains(t) implies tag_merged(
            b,
            base,
            bd,
            ours,
            od,
            theirs,
            td,
            g,
            t,
            strategy,
        ) by {
            assert(scope_entries(b, g, t) == scope_entries(a, g, t));
            assert(tag_merged(a, base, bd, ours, od, theirs, td, g, t, strategy));
        }
    }
}


/// The progress of merging vaults once the groups in `done` were handled,
/// with `nconf` conflict reports so far: `cur` is the current branch's
/// vault being merged, `th` what is left of the incoming one.
pub open spec fn vault_progress(
    base: Vault,
    bd: Seq<u8>,
    o0: Vault,
    od: Seq<u8>,
    t0: Vault,
    td: Seq<u8>,
    strategy: MergeStrategy,
    done: Seq<Seq<char>>,
    cur: Vault,
    th: Vault,
    nconf: nat,
) -> bool {
    &&& same_frame(t0, th)
    &&& forall|h: Seq<char>| #![trigger has_group(th, h)]
        !done.contains(h) ==> has_group(th, h) == has_group(t0, h) && (has_group(t0, h) ==> th.entries@[h]
            == t0.entries@[h])
    &&& names_ok(base, o0, t0) ==> {
        &&& (nconf == 0 <==> forall|h: Seq<char>| #[trigger] done.contains(h) ==> group_ok(
            base,
            bd,
            o0,
            od,
            t0,
            td,
            h,
            strategy,
        ))
        &&& nconf == 0 ==> {
            &&& same_frame(o0, cur)
            &&& forall|h: Seq<char>| #![trigger has_group(cur, h)]
                !done.contains(h) ==> has_group(cur, h) == has_group(o0, h) && (has_group(o0, h)
                    ==> cur.entries@[h] == o0.entries@[h])
            &&& forall|h: Seq<char>| #[trigger] done.contains(h) ==> group_done(
                cur,
                base,
                bd,
                o0,
                od,
                t0,
                td,
                h,
                strategy,
            )
            &&& forall|h: Seq<char>| #[trigger] has_group(cur, h) ==> has_group(o0, h) || done.contains(h)
        }
    }
}

/// A list with one more element contains exactly that element more.
proof fn lemma_push_contains<A>(s: Seq<A>, x: A)
    ensures
        forall|h: A| #[trigger] s.push(x).contains(h) == (s.contains(h) || h == x),
{
    let d2 = s.push(x);
    assert(d2[s.len() as int] == x);
    assert forall|h: A| #[trigger] d2.contains(h) == (s.contains(h) || h == x) by {
        if d2.contains(h) && h != x {
            let n = choose|n: int| 0 <= n < d2.len() && d2[n] == h;
            assert(s[n] == h);
        }
        if s.contains(h) {
            let n = choose|n: int| 0 <= n < s.len() && s[n] == h;
            assert(d2[n] == h);
        }
    }
}

/// What handling group `g` does to the current branch's vault, by its
/// outcome.
pub open spec fn step_effect(
    base: Vault,
    bd: Seq<u8>,
    od: Seq<u8>,
    td: Seq<u8>,
    strategy: MergeStrategy,
    g: Seq<char>,
    cur: Vault,
    th: Vault,
    nb: nat,
    cur2: Vault,
    th2: Vault,
    na: nat,
) -> bool {
    match outcome(base, cur, th, g, strategy) {
        GroupAction::Remove => same_frame(cur, cur2) && cur2.entries@ == cur.entries@.remove(g) && th2 == th && na
            == nb,
        GroupAction::Keep => cur2 == cur && th2 == th && na == nb,
        GroupAction::TakeTheirs => {
            &&& has_group(th, g)
            &&& same_frame(cur, cur2)
            &&& cur2.entries@ == cur.entries@.insert(g, th.entries@[g])
            &&& th2.entries@ == th.entries@.remove(g)
            &&& na == nb
        },
        GroupAction::MergeSecrets => {
            &&& nb == 0
            &&& th2 == th
            &&& group_names_ok(base, cur, th, g) ==> group_merged(cur, cur2, od, base, bd, th, td, g, strategy, na == 0)
        },
        _ => cur2 == cur && th2 == th && na > 0,
    }
}

/// Handling group `g` with no conflict so far: groups other than `g` stay.
proof fn lemma_step_others(
    base: Vault,
    bd: Seq<u8>,
    od: Seq<u8>,
    td: Seq<u8>,
    strategy: MergeStrategy,
    g: Seq<char>,
    cur: Vault,
    th: Vault,
    cur2: Vault,
    th2: Vault,
    na: nat,
)
    requires
        step_effect(base, bd, od, td, strategy, g, cur, th, 0, cur2, th2, na),
        group_names_ok(base, cur, th, g),
        na == 0,
    ensures
        same_frame(cur, cur2),
        forall|h: Seq<char>| h != g ==> (#[trigger] has_group(cur2, h) == has_group(cur, h)) && (has_group(cur, h)
            ==> cur2.entries@[h] == cur.entries@[h]),
{
    assert forall|h: Seq<char>| h != g implies (#[trigger] has_group(cur2, h) == has_group(cur, h)) && (has_group(
        cur,
        h,
    ) ==> cur2.entries@[h] == cur.entries@[h]) by {
        assert(cur2.entries@.dom().contains(h) == cur.entries@.dom().contains(h));
    }
}

/// Handling group `g` with no conflict so far keeps the progress.
#[verifier::rlimit(30)]
proof fn lemma_vault_step_clean(
    base: Vault,
    bd: Seq<u8>,
    o0: Vault,
    od: Seq<u8>,
    t0: Vault,
    td: Seq<u8>,
    strategy: MergeStrategy,
    done: Seq<Seq<char>>,
    g: Seq<char>,
    cur: Vault,
    th: Vault,
    cur2: Vault,
    th2: Vault,
    na: nat,
)
    requires
        names_ok(base, o0, t0),
        vault_progress(base, bd, o0, od, t0, td, strategy, done, cur, th, 0),
        !done.contains(g),
        step_effect(base, bd, od, td, strategy, g, cur, th, 0, cur2, th2, na),
    ensures
        (na == 0 <==> forall|h: Seq<char>| #[trigger] done.push(g).contains(h) ==> group_ok(
            base,
            bd,
            o0,
            od,
            t0,
            td,
            h,
            strategy,
        )),
        na == 0 ==> {
            &&& same_frame(o0, cur2)
            &&& forall|h: Seq<char>| #![trigger has_group(cur2, h)]
                !done.push(g).contains(h) ==> has_group(cur2, h) == has_group(o0, h) && (has_group(o0, h)
                    ==> cur2.entries@[h] == o0.entries@[h])
            &&& forall|h: Seq<char>| #[trigger] done.push(g).contains(h) ==> group_done(
                cur2,
                base,
                bd,
                o0,
                od,
                t0,
                td,
                h,
                strategy,
            )
            &&& forall|h: Seq<char>| #[trigger] has_group(cur2, h) ==> has_group(o0, h) || done.push(g).contains(h)
        },
{
    let d2 = done.push(g);
    lemma_push_contains(done, g);
    lemma_same_sides(base, bd, o0, cur, od, t0, th, td, g, strategy);
    lemma_same_clean(base, bd, o0, cur, od, t0, th, td, g, strategy);
    assert(group_names_ok(base, o0, t0, g));
    let act = outcome(base, cur, th, g, strategy);
    assert(act == outcome(base, o0, t0, g, strategy));
    if na == 0 {
        lemma_step_others(base, bd, od, td, strategy, g, cur, th, cur2, th2, na);
        assert forall|h: Seq<char>| #[trigger] d2.contains(h) implies group_done(
            cur2,
            base,
            bd,
            o0,
            od,
            t0,
            td,
            h,
            strategy,
        ) by {
            if h != g {
                assert(done.contains(h));
                lemma_group_done_frame(cur, cur2, base, bd, o0, od, t0, td, h, strategy);
            } else if act == GroupAction::MergeSecrets {
                assert forall|t: Seq<char>| #[trigger] tag_union(base, o0, t0, g).contains(t) implies tag_merged(
                    cur2,
                    base,
                    bd,
                    o0,
                    od,
                    t0,
                    td,
                    g,
                    t,
                    strategy,
                ) by {
                    assert(tag_union(base, cur, th, g).contains(t));
                    lemma_same_tag_merged(cur2, base, bd, o0, cur, od, t0, th, td, g, t, strategy);
                }
                assert(cur2.entries@.dom().contains(g));
            } else if act == GroupAction::TakeTheirs {
                assert(cur2.entries@.dom().contains(g));
            } else if act == GroupAction::Remove {
                assert(!cur2.entries@.dom().contains(g));
            }
        }
        assert forall|h: Seq<char>| #[trigger] has_group(cur2, h) implies has_group(o0, h) || d2.contains(h) by {
            if h != g {
                assert(has_group(cur, h));
            }
        }
        assert(same_frame(o0, cur2));
        assert forall|h: Seq<char>| !d2.contains(h) implies #[trigger] has_group(cur2, h) == has_group(o0, h) && (has_group(o0, h)
            ==> cur2.entries@[h] == o0.entries@[h]) by {
            assert(h != g);
            assert(has_group(cur, h) == has_group(o0, h));
        }
    }
    if na != 0 {
        assert(!group_ok(base, bd, o0, od, t0, td, g, strategy));
        assert(d2.contains(g));
    }
}

/// Handling one more group keeps the progress.
proof fn lemma_vault_step(
    base: Vault,
    bd: Seq<u8>,
    o0: Vault,
    od: Seq<u8>,
    t0: Vault,
    td: Seq<u8>,
    strategy: MergeStrategy,
    done: Seq<Seq<char>>,
    g: Seq<char>,
    cur: Vault,
    th: Vault,
    nb: nat,
    cur2: Vault,
    th2: Vault,
    na: nat,
)
    requires
        vault_progress(base, bd, o0, od, t0, td, strategy, done, cur, th, nb),
        !done.contains(g),
        na >= nb,
        same_frame(th, th2),
        step_effect(base, bd, od, td, strategy, g, cur, th, nb, cur2, th2, na),
    ensures
        vault_progress(base, bd, o0, od, t0, td, strategy, done.push(g), cur2, th2, na),
{
    let d2 = done.push(g);
    lemma_push_contains(done, g);
    assert forall|h: Seq<char>| !d2.contains(h) implies #[trigger] has_group(th2, h) == has_group(t0, h) && (has_group(
        t0,
        h,
    ) ==> th2.entries@[h] == t0.entries@[h]) by {
        assert(has_group(th, h) == has_group(t0, h));
        assert(th2.entries@.dom().contains(h) == th.entries@.dom().contains(h));
    }
    if names_ok(base, o0, t0) && nb == 0 {
        lemma_vault_step_clean(base, bd, o0, od, t0, td, strategy, done, g, cur, th, cur2, th2, na);
    }
    if names_ok(base, o0, t0) && nb > 0 {
        let h = choose|h: Seq<char>| #[trigger] done.contains(h) && !group_ok(base, bd, o0, od, t0, td, h, strategy);
        assert(d2.contains(h));
    }
}

/// The current branch's vault once every group was handled, pruned and
/// signed, is the merge result.
proof fn lemma_final_result(
    base: Vault,
    bd: Seq<u8>,
    o0: Vault,
    od: Seq<u8>,
    t0: Vault,
    td: Seq<u8>,
    strategy: MergeStrategy,
    gseq: Seq<Seq<char>>,
    cur: Vault,
    th: Vault,
    nv1: Vault,
    nv: Vault,
    seed: Seq<u8>,
)
    requires
        names_ok(base, o0, t0),
        gseq.to_set() == all_groups(base, o0, t0),
        vault_progress(base, bd, o0, od, t0, td, strategy, gseq, cur, th, 0),
        vault_pruned(cur, nv1),
        crate::seal::same_contents(nv, nv1),
        nv.signature@ == crate::crypto::ed25519_signature(seed, crate::seal::signable_bytes(nv1)),
        nv1.public_key@ == crate::crypto::ed25519_public_key(seed) ==> crate::seal::integrity(nv) is Ok,
    ensures
        merge_clean(base, bd, o0, od, t0, td, strategy),
        merge_result(nv, base, bd, o0, od, t0, td, strategy, seed),
{
    lemma_pruned_scopes(cur, nv1);
    assert forall|g: Seq<char>| gseq.contains(g) == #[trigger] all_groups(base, o0, t0).contains(g) by {
        assert(gseq.contains(g) == gseq.to_set().contains(g));
    }
    assert(crate::seal::signable_bytes(nv) == crate::seal::signable_bytes(nv1));
    assert forall|g: Seq<char>| #[trigger] has_group(nv, g) implies {
        &&& all_groups(base, o0, t0).contains(g)
        &&& group_kept(nv.entries@[g])
        &&& forall|u: Seq<char>| #[trigger] nv.entries@[g].tags@.contains_key(u) ==> tag_kept(nv.entries@[g].tags@[u])
    } by {
        assert(has_group(nv1, g));
        assert(has_group(cur, g));
        let cg = cur.entries@[g];
        let ng = nv.entries@[g];
        assert(group_kept(cg));
        if !(cg.base@.dom() != Set::<Seq<char>>::empty()) {
            let u = choose|u: Seq<char>| #[trigger] cg.tags@.contains_key(u) && tag_kept(cg.tags@[u]);
            assert(ng.tags@.contains_key(u));
        }
        if has_group(o0, g) {
            assert(o0.entries@.dom().contains(g));
        }
    }
    assert forall|g: Seq<char>| #[trigger] all_groups(base, o0, t0).contains(g) implies match outcome(
        base,
        o0,
        t0,
        g,
        strategy,
    ) {
        GroupAction::Remove => !has_group(nv, g),
        GroupAction::Keep => group_pruned_from(o0, nv, g),
        GroupAction::TakeTheirs => group_pruned_from(t0, nv, g),
        GroupAction::MergeSecrets => {
            &&& has_group(nv, g) ==> nv.entries@[g].link@ == (if has_group(o0, g) {
                o0.entries@[g].link@
            } else {
                Seq::<char>::empty()
            })
            &&& has_group(nv, g) ==> nv.entries@[g].tags@.dom().subset_of(tag_union(base, o0, t0, g))
            &&& forall|t: Seq<char>| #[trigger] tag_union(base, o0, t0, g).contains(t) ==> tag_merged(
                nv,
                base,
                bd,
                o0,
                od,
                t0,
                td,
                g,
                t,
                strategy,
            )
        },
        _ => true,
    } by {
        assert(gseq.contains(g));
        assert(group_done(cur, base, bd, o0, od, t0, td, g, strategy));
        if outcome(base, o0, t0, g, strategy) == GroupAction::MergeSecrets {
            assert forall|t: Seq<char>| #[trigger] tag_union(base, o0, t0, g).contains(t) implies tag_merged(
                nv,
                base,
                bd,
                o0,
                od,
                t0,
                td,
                g,
                t,
                strategy,
            ) by {
                assert(scope_entries(nv, g, t) == scope_entries(nv1, g, t));
                assert(scope_entries(nv1, g, t) == scope_entries(cur, g, t));
                assert(tag_merged(cur, base, bd, o0, od, t0, td, g, t, strategy));
            }
            if has_group(nv, g) {
                assert forall|u: Seq<char>| nv.entries@[g].tags@.dom().contains(u) implies #[trigger] tag_union(
                    base,
                    o0,
                    t0,
                    g,
                ).contains(u) by {
                    assert(nv.entries@[g].tags@.contains_key(u));
                    assert(cur.entries@[g].tags@.dom().contains(u));
                }
            }
        }
    }
    assert forall|g: Seq<char>| #[trigger] all_groups(base, o0, t0).contains(g) implies group_ok(
        base,
        bd,
        o0,
        od,
        t0,
        td,
        g,
        strategy,
    ) by {
        assert(gseq.contains(g));
    }
}


/// A secret changed on the current branch only keeps that change through a
/// merge: where the incoming branch reads a name of a merged scope as the
/// ancestor does, the merged vault holds the name exactly where the current
/// branch does, sealing its value.
pub proof fn lemma_merge_keeps_local_change(
    nv: Vault,
    base: Vault,
    bd: Seq<u8>,
    ours: Vault,
    od: Seq<u8>,
    theirs: Vault,
    td: Seq<u8>,
    strategy: MergeStrategy,
    seed: Seq<u8>,
    g: Seq<char>,
    t: Seq<char>,
    k: Seq<char>,
)
    requires
        merge_result(nv, base, bd, ours, od, theirs, td, strategy, seed),
        all_groups(base, ours, theirs).contains(g),
        outcome(base, ours, theirs, g, strategy) == GroupAction::MergeSecrets,
        tag_union(base, ours, theirs, g).contains(t),
        ropt(scope_reading(theirs, td, g, t), k) == ropt(scope_reading(base, bd, g, t), k),
    ensures
        scope_entries(nv, g, t).contains_key(k) == ropt(scope_reading(ours, od, g, t), k) is Some,
        ropt(scope_reading(ours, od, g, t), k) matches Some(v) ==> seals(
            scope_entries(nv, g, t)[k],
            entry_key(scope_dek(od, g, t), k),
            v,
        ),
{
    let o = ropt(scope_reading(ours, od, g, t), k);
    let b = ropt(scope_reading(base, bd, g, t), k);
    crate::merge::lemma_one_sided_change(b, o, strategy);
    assert(key_merge(base, bd, ours, od, theirs, td, g, t, k, strategy) == Some(o));
    assert(tag_merged(nv, base, bd, ours, od, theirs, td, g, t, strategy));
    if o is Some {
        assert(scope_entries(ours, g, t).contains_key(k));
    }
}

/// A secret changed on the incoming branch only is taken by a merge: where
/// the current branch reads a name of a merged scope as the ancestor does,
/// the merged vault holds the name exactly where the incoming branch does,
/// sealing its value.
pub proof fn lemma_merge_takes_incoming_change(
    nv: Vault,
    base: Vault,
    bd: Seq<u8>,
    ours: Vault,
    od: Seq<u8>,
    theirs: Vault,
    td: Seq<u8>,
    strategy: MergeStrategy,
    seed: Seq<u8>,
    g: Seq<char>,
    t: Seq<char>,
    k: Seq<char>,
)
    requires
        merge_result(nv, base, bd, ours, od, theirs, td, strategy, seed),
        all_groups(base, ours, theirs).contains(g),
        outcome(base, ours, theirs, g, strategy) == GroupAction::MergeSecrets,
        tag_union(base, ours, theirs, g).contains(t),
        ropt(scope_reading(ours, od, g, t), k) == ropt(scope_reading(base, bd, g, t), k),
    ensures
        scope_entries(nv, g, t).contains_key(k) == ropt(scope_reading(theirs, td, g, t), k) is Some,
        ropt(scope_reading(theirs, td, g, t), k) matches Some(v) ==> seals(
            scope_entries(nv, g, t)[k],
            entry_key(scope_dek(od, g, t), k),
            v,
        ),
{
    let th = ropt(scope_reading(theirs, td, g, t), k);
    let b = ropt(scope_reading(base, bd, g, t), k);
    crate::merge::lemma_one_sided_change(b, th, strategy);
    assert(key_merge(base, bd, ours, od, theirs, td, g, t, k, strategy) == Some(th));
    assert(tag_merged(nv, base, bd, ours, od, theirs, td, g, t, strategy));
    if th is Some {
        assert(scope_entries(theirs, g, t).contains_key(k));
    }
}

/// Why a merge stopped.
#[derive(Debug)]
pub enum MergeError {
    /// Changes on both sides that no strategy decides: one report each.
    Conflicts(Vec<String>),
    /// Reading or writing one of the vaults failed.
    Vault(VaultError),
}

/// The three strings one after the other.
fn join3(a: &str, b: &str, c: &str) -> (s: String)
    ensures
        s@ == a@ + b@ + c@,
{
    let mut out = crate::text::chars_of(a);
    let bc = crate::text::chars_of(b);
    crate::crypto::append_chars(&mut out, bc.as_slice());
    let cc = crate::text::chars_of(c);
    crate::crypto::append_chars(&mut out, cc.as_slice());
    crate::text::string_from_chars(out.as_slice())
}

/// Whether group `g` of `a` exists, exists in `b` too, and is the same there.
fn group_unchanged_in(a: &Vault, b: &Vault, g: &str) -> (r: bool)
    ensures
        r == group_unchanged(*a, *b, g@),
{
    match (a.entries.get(g), b.entries.get(g)) {
        (Some(x), Some(y)) => crate::merge::group_eq(x, y),
        _ => false,
    }
}

/// A merge of whole vaults that no read or write stops: no scope holds an
/// empty name, and every group whose secrets are merged is mergeable (see
/// `group_mergeable`).
pub open spec fn vault_mergeable(
    base: Vault,
    bd: Seq<u8>,
    ours: Vault,
    od: Seq<u8>,
    theirs: Vault,
    td: Seq<u8>,
    strategy: MergeStrategy,
) -> bool {
    &&& names_ok(base, ours, theirs)
    &&& forall|g: Seq<char>| #[trigger] outcome(base, ours, theirs, g, strategy) is MergeSecrets ==> group_mergeable(
        base,
        bd,
        ours,
        od,
        theirs,
        td,
        g,
    )
}

/// Whether a group merges, and how, depends only on that group in each
/// vault and on the vaults' frames.
proof fn lemma_group_mergeable_frame(
    base: Vault,
    bd: Seq<u8>,
    a: Vault,
    a2: Vault,
    od: Seq<u8>,
    b: Vault,
    b2: Vault,
    td: Seq<u8>,
    g: Seq<char>,
    strategy: MergeStrategy,
)
    requires
        same_frame(a, a2),
        same_frame(b, b2),
        has_group(a, g) == has_group(a2, g),
        has_group(a, g) ==> a.entries@[g] == a2.entries@[g],
        has_group(b, g) == has_group(b2, g),
        has_group(b, g) ==> b.entries@[g] == b2.entries@[g],
    ensures
        outcome(base, a, b, g, strategy) == outcome(base, a2, b2, g, strategy),
        group_mergeable(base, bd, a, od, b, td, g) ==> group_mergeable(base, bd, a2, od, b2, td, g),
{
    assert(a.group_for(Some(g)) == a2.group_for(Some(g)));
    assert(b.group_for(Some(g)) == b2.group_for(Some(g)));
    assert(group_tags(a, g) == group_tags(a2, g));
    assert(group_tags(b, g) == group_tags(b2, g));
    assert forall|t: Seq<char>| #![trigger scope_entries(a2, g, t)]
        scope_entries(a, g, t) == scope_entries(a2, g, t) && scope_entries(b, g, t) == scope_entries(b2, g, t) by {}
    assert forall|t: Seq<char>, k: Seq<char>|
        #![trigger a2.lookup(od, Some(g), tag_arg(t), k, None)]
        a.lookup(od, Some(g), tag_arg(t), k, None) == a2.lookup(od, Some(g), tag_arg(t), k, None) by {}
    assert forall|t: Seq<char>, k: Seq<char>|
        #![trigger b2.lookup(td, Some(g), tag_arg(t), k, None)]
        b.lookup(td, Some(g), tag_arg(t), k, None) == b2.lookup(td, Some(g), tag_arg(t), k, None) by {}
    assert(tag_union(base, a, b, g) =~= tag_union(base, a2, b2, g));
    if group_mergeable(base, bd, a, od, b, td, g) {
        assert forall|t: Seq<char>, k: Seq<char>| #[trigger] read_somewhere(base, a2, b2, g, t, k) implies k.len() > 0 by {
            assert(read_somewhere(base, a, b, g, t, k));
        }
        assert forall|t: Seq<char>| #[trigger] tag_union(base, a2, b2, g).contains(t) implies {
            &&& reads_ok(base, bd, g, t)
            &&& reads_ok(a2, od, g, t)
            &&& reads_ok(b2, td, g, t)
            &&& reads_fit(a2, od, g, t)
            &&& reads_fit(b2, td, g, t)
            &&& (t != base_tag() ==> !a2.tag_is_protected(g, t))
        } by {
            assert(tag_union(base, a, b, g).contains(t));
            assert(scope_reading(a, od, g, t) =~= scope_reading(a2, od, g, t));
            assert(scope_reading(b, td, g, t) =~= scope_reading(b2, td, g, t));
            assert forall|k: Seq<char>| #[trigger] scope_entries(a2, g, t).contains_key(k) implies a2.lookup(
                od,
                Some(g),
                tag_arg(t),
                k,
                None,
            ) is Ok by {
                assert(scope_entries(a, g, t).contains_key(k));
            }
            assert forall|k: Seq<char>| #[trigger] scope_entries(b2, g, t).contains_key(k) implies b2.lookup(
                td,
                Some(g),
                tag_arg(t),
                k,
                None,
            ) is Ok by {
                assert(scope_entries(b, g, t).contains_key(k));
            }
            assert forall|k: Seq<char>| #[trigger] scope_entries(a2, g, t).contains_key(k) implies encode_utf8(
                scope_reading(a2, od, g, t)[k],
            ).len() <= AES_GCM_P_MAX by {
                assert(scope_entries(a, g, t).contains_key(k));
            }
            assert forall|k: Seq<char>| #[trigger] scope_entries(b2, g, t).contains_key(k) implies encode_utf8(
                scope_reading(b2, td, g, t)[k],
            ).len() <= AES_GCM_P_MAX by {
                assert(scope_entries(b, g, t).contains_key(k));
            }
        }
    }
}

/// Merges the incoming branch's vault (`theirs`) into the current branch's
/// (`ours`) against their common ancestor (`base`), each read with its own
/// master data key; `ours_keys` are the current branch's keys, used to
/// write and sign the result. Groups are handled in ascending order, each
/// by its outcome (`outcome`); a conflict stops the writing, and merging
/// secrets stops at the first group to merge once one was reported. On
/// success the empty tags and groups are dropped and the vault is signed.
/// A merge that no read or write stops (`vault_mergeable`) succeeds exactly
/// when it is clean, and otherwise reports its conflicts.
#[verifier::rlimit(40)]
pub fn merge_vaults(
    base: &Vault,
    base_dek: &[u8; 32],
    ours: Vault,
    ours_keys: &VaultKeys,
    theirs: Vault,
    theirs_dek: &[u8; 32],
    strategy: MergeStrategy,
) -> (r: Result<Vault, MergeError>)
    ensures
        match r {
            Ok(nv) => names_ok(*base, ours, theirs) ==> {
                &&& merge_clean(*base, base_dek@, ours, ours_keys.master_dek@, theirs, theirs_dek@, strategy)
                &&& merge_result(
                    nv,
                    *base,
                    base_dek@,
                    ours,
                    ours_keys.master_dek@,
                    theirs,
                    theirs_dek@,
                    strategy,
                    ours_keys.signing_key.seed@,
                )
            },
            Err(MergeError::Conflicts(c)) => c.len() > 0 && (names_ok(*base, ours, theirs) ==> !merge_clean(
                *base,
                base_dek@,
                ours,
                ours_keys.master_dek@,
                theirs,
                theirs_dek@,
                strategy,
            )),
            Err(MergeError::Vault(_)) => !vault_mergeable(
                *base,
                base_dek@,
                ours,
                ours_keys.master_dek@,
                theirs,
                theirs_dek@,
                strategy,
            ),
        },
        r matches Ok(nv) ==> sealed_by(nv, ours_keys.signing_key.seed@),
        vault_mergeable(*base, base_dek@, ours, ours_keys.master_dek@, theirs, theirs_dek@, strategy) ==> {
            &&& (r is Ok <==> merge_clean(*base, base_dek@, ours, ours_keys.master_dek@, theirs, theirs_dek@, strategy))
            &&& (r is Err ==> r matches Err(MergeError::Conflicts(_)))
        },
{
    let ghost o0 = ours;
    let ghost t0 = theirs;
    let ghost od = ours_keys.master_dek@;
    let ghost bd = base_dek@;
    let ghost td = theirs_dek@;
    let mut cur = ours;
    let mut th = theirs;
    let mut acc: StrMap<bool> = StrMap::new();
    add_keys(&mut acc, &base.entries);
    add_keys(&mut acc, &cur.entries);
    add_keys(&mut acc, &th.entries);
    let gl = acc.keys();
    let ghost gseq = acc.key_seq();
    proof {
        acc.lemma_key_set();
        assert(gseq.to_set() =~= all_groups(*base, o0, t0));
        assert(gseq.take(0) =~= Seq::<Seq<char>>::empty());
    }
    let ghost vm = vault_mergeable(*base, bd, o0, od, t0, td, strategy);
    let mut conflicts: Vec<String> = Vec::new();
    let mut halted = false;
    let mut j: usize = 0;
    while j < gl.len() && !halted
        invariant
            j <= gl.len(),
            gl@.map_values(|s: String| s@) == gseq,
            sorted_keys(gseq),
            gseq.to_set() == all_groups(*base, o0, t0),
            od == ours_keys.master_dek@,
            bd == base_dek@,
            td == theirs_dek@,
            vault_progress(*base, bd, o0, od, t0, td, strategy, gseq.take(j as int), cur, th, conflicts@.len()),
            halted ==> conflicts@.len() > 0,
            vm == vault_mergeable(*base, base_dek@, ours, ours_keys.master_dek@, theirs, theirs_dek@, strategy),
            vm ==> vault_mergeable(*base, bd, o0, od, t0, td, strategy),
        decreases gl.len() - j + (if halted {
            0int
        } else {
            1int
        }),
    {
        let gname = &gl[j];
        let g = gname.as_str();
        let ghost done = gseq.take(j as int);
        proof {
            assert(gseq[j as int] == g@);
            assert(gseq.take(j + 1) =~= done.push(g@));
            assert(!done.contains(g@)) by {
                if done.contains(g@) {
                    let n = choose|n: int| 0 <= n < j && done[n] == g@;
                    crate::strmap::lemma_sorted_distinct(gseq, n, j as int);
                }
            }
        }
        let in_base = base.entries.contains_key(g);
        let in_ours = cur.entries.contains_key(g);
        let in_theirs = th.entries.contains_key(g);
        let ours_unchanged = group_unchanged_in(&cur, base, g);
        let theirs_unchanged = group_unchanged_in(&th, base, g);
        let act = crate::merge::decide_group(in_base, in_ours, in_theirs, ours_unchanged, theirs_unchanged, strategy);
        let ghost cur0 = cur;
        let ghost th0 = th;
        let ghost nb = conflicts@.len();
        assert(act == outcome(*base, cur0, th0, g@, strategy));
        match act {
            GroupAction::Remove => {
                cur.entries.remove(g);
            },
            GroupAction::Keep => {},
            GroupAction::TakeTheirs => {
                match th.entries.remove(g) {
                    Some(grp) => {
                        cur.entries.insert(String::from_str(g), grp);
                    },
                    None => {},
                }
            },
            GroupAction::ConflictDeletedIncoming => {
                conflicts.push(join3("Group '", g, "' modified locally but deleted on incoming branch."));
            },
            GroupAction::ConflictDeletedLocal => {
                conflicts.push(join3("Group '", g, "' deleted locally but modified on incoming branch."));
            },
            GroupAction::MergeSecrets => {
                if conflicts.len() > 0 {
                    halted = true;
                } else {
                    proof {
                        if vm {
                            assert(!done.contains(g@));
                            lemma_group_mergeable_frame(*base, bd, o0, cur, od, t0, th, td, g@, strategy);
                            assert(outcome(*base, o0, t0, g@, strategy) is MergeSecrets);
                        }
                    }
                    let mr = merge_group(&mut cur, ours_keys, base, base_dek, &th, theirs_dek, g, strategy, &mut conflicts);
                    match mr {
                        Err(e) => {
                            return Err(MergeError::Vault(e));
                        },
                        Ok(()) => {},
                    }
                }
            },
        }
        if !halted {
            proof {
                lemma_vault_step(
                    *base,
                    bd,
                    o0,
                    od,
                    t0,
                    td,
                    strategy,
                    done,
                    g@,
                    cur0,
                    th0,
                    nb,
                    cur,
                    th,
                    conflicts@.len(),
                );
            }
            j = j + 1;
        }
    }
    if conflicts.len() > 0 {
        proof {
            if names_ok(*base, o0, t0) {
                let done = gseq.take(j as int);
                let h = choose|h: Seq<char>| #[trigger] done.contains(h) && !group_ok(*base, bd, o0, od, t0, td, h, strategy);
                let n = choose|n: int| 0 <= n < done.len() && done[n] == h;
                assert(gseq[n] == h);
                assert(gseq.to_set().contains(h));
                assert(all_groups(*base, o0, t0).contains(h));
            }
        }
        return Err(MergeError::Conflicts(conflicts));
    }
    proof {
        assert(gseq.take(j as int) =~= gseq);
    }
    let ghost pre = cur;
    cur.prune_empty();
    let ghost nv1 = cur;
    cur.seal_integrity(&ours_keys.signing_key);
    proof {
        assert(signable_bytes(cur) == signable_bytes(nv1));
        if names_ok(*base, o0, t0) {
            lemma_final_result(
                *base,
                bd,
                o0,
                od,
                t0,
                td,
                strategy,
                gseq,
                pre,
                th,
                nv1,
                cur,
                ours_keys.signing_key.seed@,
            );
        }
    }
    Ok(cur)
}


/// Two vaults hold the same groups, each the same in both.
pub open spec fn entries_match(a: Vault, b: Vault) -> bool {
    &&& a.entries@.dom() == b.entries@.dom()
    &&& forall|g: Seq<char>| #[trigger] a.entries@.contains_key(g) ==> crate::merge::group_same(
        a.entries@[g],
        b.entries@[g],
    )
}

/// Whether two vaults hold the same groups; see `entries_match`.
pub fn same_entries(a: &Vault, b: &Vault) -> (r: bool)
    ensures
        r == entries_match(*a, *b),
{
    let ka = a.entries.keys();
    let ghost sa = a.entries.key_seq();
    let kb = b.entries.keys();
    let ghost sb = b.entries.key_seq();
    proof {
        a.entries.lemma_key_set();
        b.entries.lemma_key_set();
    }
    let mut i: usize = 0;
    while i < ka.len()
        invariant
            i <= ka.len(),
            ka@.map_values(|s: String| s@) == sa,
            sa.to_set() == a.entries@.dom(),
            forall|n: int| #![trigger sa[n]] 0 <= n < i ==> b.entries@.contains_key(sa[n]) && crate::merge::group_same(
                a.entries@[sa[n]],
                b.entries@[sa[n]],
            ),
        decreases ka.len() - i,
    {
        let k = ka[i].as_str();
        assert(sa[i as int] == k@);
        assert(sa.to_set().contains(k@));
        match (a.entries.get(k), b.entries.get(k)) {
            (Some(x), Some(y)) => {
                if !crate::merge::group_eq(x, y) {
                    return false;
                }
            },
            _ => {
                return false;
            },
        }
        i = i + 1;
    }
    let mut j: usize = 0;
    while j < kb.len()
        invariant
            j <= kb.len(),
            kb@.map_values(|s: String| s@) == sb,
            sb.to_set() == b.entries@.dom(),
            forall|n: int| #![trigger sb[n]] 0 <= n < j ==> a.entries@.contains_key(sb[n]),
        decreases kb.len() - j,
    {
        let k = kb[j].as_str();
        assert(sb[j as int] == k@);
        if !a.entries.contains_key(k) {
            assert(sb.to_set().contains(k@));
            return false;
        }
        j = j + 1;
    }
    proof {
        assert forall|g: Seq<char>| #[trigger] a.entries@.contains_key(g) implies b.entries@.contains_key(g)
            && crate::merge::group_same(a.entries@[g], b.entries@[g]) by {
            assert(sa.to_set().contains(g));
            let n = choose|n: int| 0 <= n < sa.len() && sa[n] == g;
        }
        assert forall|g: Seq<char>| #[trigger] b.entries@.contains_key(g) implies a.entries@.contains_key(g) by {
            assert(sb.to_set().contains(g));
            let n = choose|n: int| 0 <= n < sb.len() && sb[n] == g;
        }
        assert(a.entries@.dom() =~= b.entries@.dom());
    }
    true
}

} // verus!
