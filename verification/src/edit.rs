//! Editing one scope as dotenv text: the text offered, and applying what
//! came back (names dropped from the text are removed, every name in it is
//! stored).
use crate::crypto::{append_chars, entry_key, scope_dek};
use crate::env_file::{
    edit_keeps, env_pairs, format_env_value, lemma_edit_line_roundtrip, lemma_lines_add_line, line_assignment, lines,
    lines_state, pairs_view,
    shell_value, strings_view, strip_cr, valid_env_key,
};
use crate::error::{ErrorModel, VaultError};
use crate::merging::{
    grown, lemma_group_for_named, lemma_remove_step, lemma_scope_frame_refl, lemma_set_step, scope_entries, scope_frame,
    tag_arg,
};
use crate::ops::{remove_refusal, same_frame, seals, set_refusal, tag_or_base};
use crate::rotate::{first_error, lemma_first_error_prefix, lemma_first_error_step};
use crate::strmap::StrMap;
use crate::text::{chars_of, string_from_chars};
use crate::vault::{base_tag, opt_view, Entry, Group, Vault, VaultKeys};
use vstd::prelude::*;

verus! {

/// One line of the edit text: `KEY=value`, the value as a shell reads it.
pub open spec fn edit_line(k: Seq<char>, v: Seq<char>) -> Seq<char> {
    k + seq!['='] + shell_value(v) + seq!['\n']
}

/// The lines for the pairs, in order.
pub open spec fn edit_body(p: Seq<(Seq<char>, Seq<char>)>) -> Seq<char>
    decreases p.len(),
{
    if p.len() == 0 {
        seq![]
    } else {
        edit_body(p.drop_last()) + edit_line(p.last().0, p.last().1)
    }
}

/// The text offered for editing scope `t` of group `g`: a comment line
/// naming them, then one line per pair.
pub open spec fn edit_text(g: Seq<char>, t: Seq<char>, p: Seq<(Seq<char>, Seq<char>)>) -> Seq<char> {
    "# envseal edit: group='"@ + g + "', tag='"@ + t + "'\n"@ + edit_body(p)
}

/// The lines of the edit text after its comment line, without line endings.
pub open spec fn edit_lines(p: Seq<(Seq<char>, Seq<char>)>) -> Seq<Seq<char>>
    decreases p.len(),
{
    if p.len() == 0 {
        seq![]
    } else {
        edit_lines(p.drop_last()).push(p.last().0 + seq!['='] + shell_value(p.last().1))
    }
}

/// Pairs the edit text gives back as they are: valid names, and values
/// without a line break that the text keeps (see `edit_keeps`).
pub open spec fn pairs_editable(p: Seq<(Seq<char>, Seq<char>)>) -> bool {
    forall|i: int| 0 <= i < p.len() ==> {
        &&& valid_env_key(#[trigger] p[i].0)
        &&& edit_keeps(p[i].1)
        &&& !p[i].1.contains('\n')
    }
}

/// The body of the edit text, after text that ends a line, adds its lines.
proof fn lemma_edit_body_lines(h: Seq<char>, p: Seq<(Seq<char>, Seq<char>)>)
    requires
        lines_state(h).1 == Seq::<char>::empty(),
        pairs_editable(p),
    ensures
        lines_state(h + edit_body(p)) == (lines_state(h).0 + edit_lines(p), Seq::<char>::empty()),
    decreases p.len(),
{
    if p.len() == 0 {
        assert(h + edit_body(p) =~= h);
        assert(lines_state(h).0 + edit_lines(p) =~= lines_state(h).0);
    } else {
        let q = p.drop_last();
        assert(pairs_editable(q)) by {
            assert forall|i: int| 0 <= i < q.len() implies {
                &&& valid_env_key(#[trigger] q[i].0)
                &&& edit_keeps(q[i].1)
                &&& !q[i].1.contains('\n')
            } by {
                assert(q[i] == p[i]);
            }
        }
        lemma_edit_body_lines(h, q);
        let (k, v) = p.last();
        assert(p.last() == p[p.len() - 1]);
        let l = k + seq!['='] + shell_value(v);
        let sv = shell_value(v);
        crate::env_file::lemma_edit_value_roundtrip(v);
        assert(!sv.contains('\n')) by {
            if sv.contains('\n') {
                let i = choose|i: int| 0 <= i < sv.len() && sv[i] == '\n';
                if crate::env_file::needs_quoting(v) {
                    crate::env_file::lemma_escape_no_break(v);
                } else {
                    assert(v[i] == '\n');
                }
            }
        }
        assert(!l.contains('\n')) by {
            if l.contains('\n') {
                let i = choose|i: int| 0 <= i < l.len() && l[i] == '\n';
                if i < k.len() {
                    assert(k[i] == '\n');
                } else if i > k.len() {
                    assert(sv[i - k.len() - 1] == '\n');
                }
            }
        }
        let hb = h + edit_body(q);
        assert(h + edit_body(p) =~= hb + l + seq!['\n']);
        lemma_lines_add_line(hb, l);
        assert(strip_cr(l) == l) by {
            assert(l.last() != '\r') by {
                if sv.len() > 0 {
                    assert(l.last() == sv.last());
                    if !crate::env_file::needs_quoting(v) {
                        assert(v.last() == v[v.len() - 1]);
                    }
                } else {
                    assert(l.last() == '=');
                }
            }
        }
        assert(lines_state(h).0 + edit_lines(q) + seq![l] =~= (lines_state(h).0 + edit_lines(q)).push(l));
        assert(lines_state(h).0 + edit_lines(p) =~= (lines_state(h).0 + edit_lines(q)).push(l));
    }
}

/// The pairs read back from the comment line and the edit lines.
proof fn lemma_edit_lines_pairs(hdr: Seq<char>, p: Seq<(Seq<char>, Seq<char>)>)
    requires
        line_assignment(hdr, true) is None,
        pairs_editable(p),
    ensures
        env_pairs(seq![hdr] + edit_lines(p), true) == p,
    decreases p.len(),
{
    if p.len() == 0 {
        assert(seq![hdr] + edit_lines(p) =~= seq![hdr]);
        assert(seq![hdr].drop_last() =~= Seq::<Seq<char>>::empty());
        assert(seq![hdr].last() == hdr);
        assert(env_pairs(Seq::<Seq<char>>::empty(), true) =~= Seq::<(Seq<char>, Seq<char>)>::empty());
        assert(env_pairs(seq![hdr], true) =~= Seq::<(Seq<char>, Seq<char>)>::empty());
        assert(p =~= Seq::<(Seq<char>, Seq<char>)>::empty());
    } else {
        let q = p.drop_last();
        assert(pairs_editable(q)) by {
            assert forall|i: int| 0 <= i < q.len() implies {
                &&& valid_env_key(#[trigger] q[i].0)
                &&& edit_keeps(q[i].1)
                &&& !q[i].1.contains('\n')
            } by {
                assert(q[i] == p[i]);
            }
        }
        lemma_edit_lines_pairs(hdr, q);
        let ls = seq![hdr] + edit_lines(p);
        assert(ls.drop_last() =~= seq![hdr] + edit_lines(q));
        assert(p.last() == p[p.len() - 1]);
        let (k, v) = p.last();
        assert(ls.last() == k + seq!['='] + shell_value(v));
        assert(valid_env_key(p[p.len() - 1].0));
        assert(edit_keeps(p[p.len() - 1].1));
        lemma_edit_line_roundtrip(k, v);
        assert(line_assignment(ls.last(), true) == Some((k, v)));
        assert(env_pairs(ls, true) == env_pairs(ls.drop_last(), true).push((k, v)));
        assert(q.push(p.last()) =~= p);
    }
}

/// Reading back the text offered for editing, left as it is, gives the
/// pairs it was written from: the edit changes only what is changed in it.
/// (Names and tags without line breaks, pairs as `pairs_editable` says.)
pub proof fn lemma_edit_text_roundtrip(g: Seq<char>, t: Seq<char>, p: Seq<(Seq<char>, Seq<char>)>)
    requires
        !g.contains('\n'),
        !t.contains('\n'),
        pairs_editable(p),
    ensures
        env_pairs(lines(edit_text(g, t, p)), true) == p,
{
    let hdr = "# envseal edit: group='"@ + g + "', tag='"@ + t + "'"@;
    reveal_strlit("# envseal edit: group='");
    reveal_strlit("', tag='");
    reveal_strlit("'");
    reveal_strlit("'\n");
    assert("'\n"@ =~= "'"@ + seq!['\n']);
    assert(!hdr.contains('\n')) by {
        if hdr.contains('\n') {
            let i = choose|i: int| 0 <= i < hdr.len() && hdr[i] == '\n';
            let a = "# envseal edit: group='"@;
            let b = "', tag='"@;
            if i < a.len() {
            } else if i < a.len() + g.len() {
                assert(g[i - a.len()] == '\n');
            } else if i < a.len() + g.len() + b.len() {
            } else if i < a.len() + g.len() + b.len() + t.len() {
                assert(t[i - a.len() - g.len() - b.len()] == '\n');
            }
        }
    }
    let e = Seq::<char>::empty();
    assert(lines_state(e) == (Seq::<Seq<char>>::empty(), e));
    assert(e + hdr + seq!['\n'] =~= "# envseal edit: group='"@ + g + "', tag='"@ + t + "'\n"@);
    lemma_lines_add_line(e, hdr);
    assert(e + hdr =~= hdr);
    assert(strip_cr(hdr) == hdr) by {
        assert(hdr.last() == '\'');
    }
    let h = "# envseal edit: group='"@ + g + "', tag='"@ + t + "'\n"@;
    lemma_edit_body_lines(h, p);
    assert(edit_text(g, t, p) == h + edit_body(p));
    assert(seq![hdr] =~= Seq::<Seq<char>>::empty().push(hdr));
    assert(line_assignment(hdr, true) is None) by {
        assert(hdr[0] == '#');
        assert(!crate::text::is_space(hdr[0]));
        assert(!crate::text::is_space(hdr.last()));
        crate::text::lemma_trim_by_range(hdr, |c: char| crate::text::is_space(c), 0, hdr.len() as int);
        assert(hdr.subrange(0, hdr.len() as int) =~= hdr);
    }
    lemma_edit_lines_pairs(hdr, p);
}

/// Builds the text offered for editing; see `edit_text`.
pub fn edit_template(group: &str, tag: &str, pairs: &[(String, String)]) -> (s: String)
    ensures
        s@ == edit_text(group@, tag@, pairs_view(pairs@)),
{
    let mut out = chars_of("# envseal edit: group='");
    append_chars(&mut out, chars_of(group).as_slice());
    append_chars(&mut out, chars_of("', tag='").as_slice());
    append_chars(&mut out, chars_of(tag).as_slice());
    append_chars(&mut out, chars_of("'\n").as_slice());
    let ghost head = out@;
    let mut i: usize = 0;
    while i < pairs.len()
        invariant
            i <= pairs.len(),
            out@ == head + edit_body(pairs_view(pairs@).take(i as int)),
        decreases pairs.len() - i,
    {
        let (k, v) = (&pairs[i].0, &pairs[i].1);
        append_chars(&mut out, chars_of(k.as_str()).as_slice());
        out.push('=');
        let fv = format_env_value(v.as_str());
        append_chars(&mut out, chars_of(fv.as_str()).as_slice());
        out.push('\n');
        proof {
            let pv = pairs_view(pairs@);
            assert(pv.take(i + 1).drop_last() =~= pv.take(i as int));
            assert(pv.take(i + 1).last() == (k@, v@));
        }
        i = i + 1;
    }
    proof {
        assert(pairs_view(pairs@).take(pairs.len() as int) =~= pairs_view(pairs@));
    }
    string_from_chars(out.as_slice())
}

/// The names of scope `t` of group `g`, in ascending order (none where the
/// group or the tag is missing).
pub open spec fn scope_names_of(v: Vault, g: Seq<char>, t: Seq<char>) -> Seq<Seq<char>> {
    if !v.entries@.contains_key(g) {
        seq![]
    } else if t == base_tag() {
        v.entries@[g].base.key_seq()
    } else if v.entries@[g].tags@.contains_key(t) {
        v.entries@[g].tags@[t].entries.key_seq()
    } else {
        seq![]
    }
}

/// The names that read back, each with its value, in order.
pub open spec fn readable(
    v: Vault,
    mk: Seq<u8>,
    g: Seq<char>,
    tag: Option<Seq<char>>,
    names: Seq<Seq<char>>,
) -> Seq<(Seq<char>, Seq<char>)>
    decreases names.len(),
{
    if names.len() == 0 {
        seq![]
    } else {
        let prev = readable(v, mk, g, tag, names.drop_last());
        match v.lookup(mk, Some(g), tag, names.last(), None) {
            Ok(val) => prev.push((names.last(), val)),
            Err(_) => prev,
        }
    }
}

/// The names of one scope of group `g` (tag `tag`, the base tag for none)
/// and, for those that read back, their values.
pub fn edit_listing(v: &Vault, master_dek: &[u8; 32], group: &str, tag: Option<&str>) -> (r: (
    Vec<String>,
    Vec<(String, String)>,
))
    ensures
        strings_view(r.0@) == scope_names_of(*v, group@, tag_or_base(opt_view(tag))),
        pairs_view(r.1@) == readable(*v, master_dek@, group@, opt_view(tag), strings_view(r.0@)),
{
    let names: Vec<String> = match v.entries.get(group) {
        None => Vec::new(),
        Some(grp) => match tag {
            None => grp.base.keys(),
            Some(t) => {
                if crate::vault::is_base_tag(t) {
                    grp.base.keys()
                } else {
                    match grp.tags.get(t) {
                        Some(tg) => tg.entries.keys(),
                        None => Vec::new(),
                    }
                }
            },
        },
    };
    proof {
        assert(strings_view(names@) =~= scope_names_of(*v, group@, tag_or_base(opt_view(tag))));
    }
    let mut pairs: Vec<(String, String)> = Vec::new();
    let mut i: usize = 0;
    while i < names.len()
        invariant
            i <= names.len(),
            pairs_view(pairs@) == readable(*v, master_dek@, group@, opt_view(tag), strings_view(names@).take(i as int)),
        decreases names.len() - i,
    {
        let k = names[i].as_str();
        let got = v.get_entry(master_dek, Some(group), tag, k, None);
        proof {
            let sv = strings_view(names@);
            assert(sv.take(i + 1).drop_last() =~= sv.take(i as int));
            assert(sv.take(i + 1).last() == k@);
        }
        match got {
            Ok(val) => {
                pairs.push((names[i].clone(), val));
                proof {
                    assert(pairs_view(pairs@) =~= pairs_view(pairs@.drop_last()).push((k@, pairs@.last().1@)));
                }
            },
            Err(_) => {},
        }
        i = i + 1;
    }
    proof {
        assert(strings_view(names@).take(names.len() as int) =~= strings_view(names@));
    }
    (names, pairs)
}

/// The map the edited pairs give: a later pair of a name wins.
pub open spec fn pairs_map(p: Seq<(Seq<char>, Seq<char>)>) -> Map<Seq<char>, Seq<char>>
    decreases p.len(),
{
    if p.len() == 0 {
        Map::empty()
    } else {
        pairs_map(p.drop_last()).insert(p.last().0, p.last().1)
    }
}

/// Collects the edited pairs by name; see `pairs_map`.
pub fn edited_map(pairs: &[(String, String)]) -> (m: StrMap<String>)
    ensures
        m@.dom() == pairs_map(pairs_view(pairs@)).dom(),
        forall|k: Seq<char>| #[trigger] m@.contains_key(k) ==> m@[k]@ == pairs_map(pairs_view(pairs@))[k],
{
    let mut m: StrMap<String> = StrMap::new();
    let mut i: usize = 0;
    while i < pairs.len()
        invariant
            i <= pairs.len(),
            m@.dom() == pairs_map(pairs_view(pairs@).take(i as int)).dom(),
            forall|k: Seq<char>| #[trigger] m@.contains_key(k) ==> m@[k]@ == pairs_map(
                pairs_view(pairs@).take(i as int),
            )[k],
        decreases pairs.len() - i,
    {
        m.insert(pairs[i].0.clone(), pairs[i].1.clone());
        proof {
            let pv = pairs_view(pairs@);
            assert(pv.take(i + 1).drop_last() =~= pv.take(i as int));
            assert(pv.take(i + 1).last() == (pairs@[i as int].0@, pairs@[i as int].1@));
            assert(m@.dom() =~= pairs_map(pv.take(i + 1)).dom());
        }
        i = i + 1;
    }
    proof {
        assert(pairs_view(pairs@).take(pairs.len() as int) =~= pairs_view(pairs@));
    }
    m
}


/// After applying an edit of scope `t` of group `g`: the scope holds the
/// edited names, each sealing its edited value, and the names it held
/// that the edit did not list; nothing else changed.
pub open spec fn edit_applied(
    old: Vault,
    new: Vault,
    mk: Seq<u8>,
    g: Seq<char>,
    t: Seq<char>,
    existing: Seq<Seq<char>>,
    m: Map<Seq<char>, String>,
) -> bool {
    let s = scope_entries(new, g, t);
    let s0 = scope_entries(old, g, t);
    &&& scope_frame(old, new, g, t)
    &&& forall|k: Seq<char>| #[trigger] s.contains_key(k) <==> (m.contains_key(k) || (s0.contains_key(k)
        && !existing.contains(k)))
    &&& forall|k: Seq<char>| #[trigger] m.contains_key(k) ==> seals(s[k], entry_key(scope_dek(mk, g, t), k), m[k]@)
    &&& forall|k: Seq<char>| #![trigger s[k]] s.contains_key(k) && !m.contains_key(k) ==> s[k] == s0[k]
}

/// After an edit created group `g`: the group is new (no link), scope `t`
/// holds exactly the edited names, each sealing its edited value, its other
/// scopes are empty, and nothing else changed.
pub open spec fn edit_created(
    old: Vault,
    new: Vault,
    mk: Seq<u8>,
    g: Seq<char>,
    t: Seq<char>,
    m: Map<Seq<char>, String>,
) -> bool {
    let s = scope_entries(new, g, t);
    &&& same_frame(old, new)
    &&& new.entries@.dom() == old.entries@.dom().insert(g)
    &&& forall|h: Seq<char>| #![trigger new.entries@[h]]
        h != g && old.entries@.contains_key(h) ==> new.entries@[h] == old.entries@[h]
    &&& new.entries@[g].link@ == Seq::<char>::empty()
    &&& forall|k: Seq<char>| #[trigger] s.contains_key(k) <==> m.contains_key(k)
    &&& forall|k: Seq<char>| #[trigger] m.contains_key(k) ==> seals(s[k], entry_key(scope_dek(mk, g, t), k), m[k]@)
    &&& forall|u: Seq<char>| u != t ==> #[trigger] scope_entries(new, g, u) == Map::<Seq<char>, Entry>::empty()
}

/// An edit applied to the group added empty is the group's creation.
proof fn lemma_edit_created(
    o0: Vault,
    o1: Vault,
    new: Vault,
    mk: Seq<u8>,
    g: Seq<char>,
    t: Seq<char>,
    m: Map<Seq<char>, String>,
)
    requires
        !o0.entries@.contains_key(g),
        grown(o0, o1, g),
        edit_applied(o1, new, mk, g, t, Seq::<Seq<char>>::empty(), m),
    ensures
        edit_created(o0, new, mk, g, t, m),
{
    assert forall|u: Seq<char>| u != t implies #[trigger] scope_entries(new, g, u) == Map::<Seq<char>, Entry>::empty() by {
        crate::merging::lemma_scope_frame_other(o1, new, g, t, u);
        assert(scope_entries(o1, g, u) =~= Map::<Seq<char>, Entry>::empty());
    }
    assert forall|k: Seq<char>| #[trigger] scope_entries(new, g, t).contains_key(k) <==> m.contains_key(k) by {
        assert(!scope_entries(o1, g, t).contains_key(k));
    }
    assert(new.entries@.dom() =~= o0.entries@.dom().insert(g));
}

/// The names offered for editing are distinct and none is empty.
pub open spec fn names_plain(ex: Seq<Seq<char>>) -> bool {
    &&& ex.no_duplicates()
    &&& forall|i: int| 0 <= i < ex.len() ==> #[trigger] ex[i].len() > 0
}

/// Why dropping name `k` from scope `t` of group `g` of `v` is refused, if
/// it is (no name of the edited map `m` is dropped).
pub open spec fn drop_refusal(v: Vault, g: Seq<char>, t: Seq<char>, m: Map<Seq<char>, String>) -> spec_fn(
    Seq<char>,
) -> Option<ErrorModel> {
    |k: Seq<char>|
        if m.contains_key(k) {
            None
        } else {
            remove_refusal(v, Some(g), tag_arg(t), k, false)
        }
}

/// Why storing the edited value of name `k` in scope `t` of group `g` of
/// `v` is refused, if it is.
pub open spec fn store_refusal(v: Vault, g: Seq<char>, t: Seq<char>, m: Map<Seq<char>, String>) -> spec_fn(
    Seq<char>,
) -> Option<ErrorModel> {
    |k: Seq<char>| set_refusal(v, Some(g), tag_arg(t), m[k]@, false)
}

/// The first refusal an edit meets: dropping the offered names in order,
/// then storing the edited names in the order `ks`.
pub open spec fn edit_refusal(
    v: Vault,
    g: Seq<char>,
    t: Seq<char>,
    ex: Seq<Seq<char>>,
    ks: Seq<Seq<char>>,
    m: Map<Seq<char>, String>,
) -> Option<ErrorModel> {
    match first_error(ex, drop_refusal(v, g, t, m)) {
        Some(e) => Some(e),
        None => first_error(ks, store_refusal(v, g, t, m)),
    }
}

/// Dropping a name that a scope still holds as it did meets the same
/// refusal, if any, while the scope keeps its tag and frame.
proof fn lemma_same_drop(o0: Vault, cur: Vault, g: Seq<char>, t: Seq<char>, k: Seq<char>)
    requires
        scope_frame(o0, cur, g, t),
        k.len() > 0,
        scope_entries(cur, g, t).contains_key(k) == scope_entries(o0, g, t).contains_key(k),
        t != base_tag() ==> (cur.entries@[g].tags@.contains_key(t) <==> o0.entries@[g].tags@.contains_key(t)),
    ensures
        remove_refusal(cur, Some(g), tag_arg(t), k, false) == remove_refusal(o0, Some(g), tag_arg(t), k, false),
{
    assert(cur.group_for(Some(g)) == o0.group_for(Some(g)));
    lemma_group_for_named(o0, g);
}

/// Applies an edit of one scope of group `g` (tag `tag`, the base tag for
/// none): every name in `existing` (the names offered) that the edited map
/// lacks is removed, then every name of the edited map is stored, in
/// ascending order. Stops at the first refusal: where the names offered are
/// distinct and not empty, that is `edit_refusal`.
#[verifier::rlimit(60)]
pub fn apply_edit(
    v: &mut Vault,
    keys: &VaultKeys,
    group: &str,
    tag: Option<&str>,
    existing: &[String],
    edited: &StrMap<String>,
) -> (r: Result<(), VaultError>)
    ensures
        r is Ok && old(v).entries@.contains_key(group@) && (forall|i: int|
            0 <= i < existing@.len() ==> (#[trigger] existing@[i])@.len() > 0) ==> edit_applied(
            *old(v),
            *final(v),
            keys.master_dek@,
            group@,
            tag_or_base(opt_view(tag)),
            strings_view(existing@),
            edited@,
        ),
        r is Ok && !old(v).entries@.contains_key(group@) && existing@.len() == 0 && edited@.dom()
            != Set::<Seq<char>>::empty() ==> edit_created(
            *old(v),
            *final(v),
            keys.master_dek@,
            group@,
            tag_or_base(opt_view(tag)),
            edited@,
        ),
        r is Ok && existing@.len() == 0 && edited@.dom() == Set::<Seq<char>>::empty() ==> *final(v) == *old(
            v,
        ),
        names_plain(strings_view(existing@)) ==> {
            &&& (r is Ok <==> edit_refusal(
                *old(v),
                group@,
                tag_or_base(opt_view(tag)),
                strings_view(existing@),
                edited.key_seq(),
                edited@,
            ) is None)
            &&& (r matches Err(e) ==> edit_refusal(
                *old(v),
                group@,
                tag_or_base(opt_view(tag)),
                strings_view(existing@),
                edited.key_seq(),
                edited@,
            ) == Some(e@))
        },
{
    let sel: Option<&str> = match tag {
        Some(t) => if crate::vault::is_base_tag(t) {
            None
        } else {
            Some(t)
        },
        None => None,
    };
    let ghost t = tag_or_base(opt_view(sel));
    let ghost orig = *v;
    let created = existing.len() == 0 && !edited.is_empty() && !v.entries.contains_key(group);
    if created {
        v.entries.insert(String::from_str(group), Group::new_empty());
    }
    let ghost o0 = *v;
    proof {
        if created {
            assert(o0.entries@.dom() =~= orig.entries@.dom().insert(group@));
            assert(grown(orig, o0, group@));
        }
    }
    let ghost g = group@;
    let ghost mk = keys.master_dek@;
    let ghost ex = strings_view(existing@);
    let ghost ok = o0.entries@.contains_key(g) && (forall|i: int|
        0 <= i < existing@.len() ==> (#[trigger] existing@[i])@.len() > 0);
    let ghost plain = names_plain(ex);
    let ghost f1 = drop_refusal(o0, g, t, edited@);
    let ghost f2 = store_refusal(o0, g, t, edited@);
    proof {
        if ok {
            lemma_scope_frame_refl(o0, g, t);
        }
        assert(ex.take(0) =~= Seq::<Seq<char>>::empty());
        assert(t == tag_or_base(opt_view(tag)));
        assert(tag_arg(t) == opt_view(sel));
        assert(orig.group_for(Some(g)) == o0.group_for(Some(g)));
        if created && t != base_tag() {
            assert(!o0.entries@[g].tags@.contains_key(t));
        }
        assert(f2 =~= store_refusal(orig, g, t, edited@));
    }
    let mut i: usize = 0;
    while i < existing.len()
        invariant
            i <= existing.len(),
            ex == strings_view(existing@),
            sel matches Some(tt) ==> tt@ != base_tag(),
            t == tag_or_base(opt_view(sel)),
            g == group@,
            ok == (o0.entries@.contains_key(g) && (forall|i: int|
                0 <= i < existing@.len() ==> (#[trigger] existing@[i])@.len() > 0)),
            ok ==> scope_frame(o0, *v, g, t),
            existing@.len() == 0 ==> *v == o0,
            ok ==> forall|k: Seq<char>| #[trigger] scope_entries(*v, g, t).contains_key(k) <==> (scope_entries(
                o0,
                g,
                t,
            ).contains_key(k) && !(ex.take(i as int).contains(k) && !edited@.contains_key(k))),
            ok ==> forall|k: Seq<char>| #![trigger scope_entries(*v, g, t)[k]]
                scope_entries(*v, g, t).contains_key(k) ==> scope_entries(*v, g, t)[k] == scope_entries(o0, g, t)[k],
            tag_arg(t) == opt_view(sel),
            t == tag_or_base(opt_view(tag)),
            plain == names_plain(strings_view(existing@)),
            f1 == drop_refusal(o0, g, t, edited@),
            f2 == store_refusal(o0, g, t, edited@),
            ex.len() > 0 ==> o0 == *old(v),
            plain ==> first_error(ex.take(i as int), f1) is None,
            plain ==> same_frame(o0, *v),
            plain ==> (t != base_tag() ==> (v.tag_is_protected(g, t) <==> o0.tag_is_protected(g, t))),
            plain && ok ==> (t != base_tag() ==> (v.entries@[g].tags@.contains_key(t) <==> o0.entries@[g].tags@.contains_key(t))),
            plain && !o0.entries@.contains_key(g) ==> *v == o0,
        decreases existing.len() - i,
    {
        let k = existing[i].as_str();
        let ghost before = *v;
        proof {
            assert(ex[i as int] == k@);
            crate::merging::lemma_take_one_more(ex, i as int);
        }
        proof {
            lemma_first_error_step(ex, f1, i as int);
        }
        if !edited.contains_key(k) {
            proof {
                if plain {
                    assert(k@.len() > 0);
                    assert(!ex.take(i as int).contains(k@)) by {
                        if ex.take(i as int).contains(k@) {
                            let n = choose|n: int| 0 <= n < i && ex.take(i as int)[n] == k@;
                            assert(ex[n] == ex[i as int]);
                        }
                    }
                    if o0.entries@.contains_key(g) {
                        assert forall|n: int| 0 <= n < existing@.len() implies (#[trigger] existing@[n])@.len() > 0 by {
                            assert(ex[n] == existing@[n]@);
                        }
                        assert(ok);
                        lemma_same_drop(o0, before, g, t, k@);
                    }
                    assert(remove_refusal(before, Some(g), opt_view(sel), k@, false) == f1(k@));
                }
            }
            let rr = v.remove_entry(&keys.signing_key, Some(group), sel, Some(k), None);
            match rr {
                Err(e) => {
                    proof {
                        if plain {
                            lemma_first_error_prefix(ex, f1, i + 1);
                            assert(first_error(ex, drop_refusal(*old(v), group@, tag_or_base(opt_view(tag)), edited@))
                                == Some(e@));
                        }
                    }
                    return Err(e);
                },
                Ok(()) => {},
            }
            proof {
                if ok {
                    lemma_group_for_named(before, g);
                    assert(k@.len() > 0) by {
                        assert(existing@[i as int]@.len() > 0);
                    }
                    assert(scope_entries(before, g, t).contains_key(k@));
                    lemma_remove_step(o0, before, *v, Some(g), g, opt_view(sel), k@);
                }
            }
        }
        i = i + 1;
    }
    proof {
        assert(ex.take(existing.len() as int) =~= ex);
        if ex.len() == 0 {
            assert(first_error(ex, drop_refusal(*old(v), group@, tag_or_base(opt_view(tag)), edited@)) is None);
        }
    }
    let ks = edited.keys();
    let ghost kseq = edited.key_seq();
    proof {
        edited.lemma_key_set();
        assert(kseq.take(0) =~= Seq::<Seq<char>>::empty());
    }
    let mut j: usize = 0;
    while j < ks.len()
        invariant
            j <= ks.len(),
            ks@.map_values(|s: String| s@) == kseq,
            kseq.to_set() == edited@.dom(),
            crate::strmap::sorted_keys(kseq),
            ex == strings_view(existing@),
            sel matches Some(tt) ==> tt@ != base_tag(),
            t == tag_or_base(opt_view(sel)),
            g == group@,
            mk == keys.master_dek@,
            ok == (o0.entries@.contains_key(g) && (forall|i: int|
                0 <= i < existing@.len() ==> (#[trigger] existing@[i])@.len() > 0)),
            ok ==> scope_frame(o0, *v, g, t),
            existing@.len() == 0 && kseq.len() == 0 ==> *v == o0,
            ok ==> forall|k: Seq<char>| #[trigger] scope_entries(*v, g, t).contains_key(k) <==> ((scope_entries(
                o0,
                g,
                t,
            ).contains_key(k) && !(ex.contains(k) && !edited@.contains_key(k))) || kseq.take(j as int).contains(k)),
            ok ==> forall|k: Seq<char>| #[trigger] kseq.take(j as int).contains(k) ==> seals(
                scope_entries(*v, g, t)[k],
                entry_key(scope_dek(mk, g, t), k),
                edited@[k]@,
            ),
            ok ==> forall|k: Seq<char>| #![trigger scope_entries(*v, g, t)[k]]
                scope_entries(*v, g, t).contains_key(k) && !kseq.take(j as int).contains(k) ==> scope_entries(
                    *v,
                    g,
                    t,
                )[k] == scope_entries(o0, g, t)[k],
            tag_arg(t) == opt_view(sel),
            t == tag_or_base(opt_view(tag)),
            kseq == edited.key_seq(),
            plain == names_plain(strings_view(existing@)),
            f2 == store_refusal(o0, g, t, edited@),
            f2 == store_refusal(*old(v), group@, tag_or_base(opt_view(tag)), edited@),
            plain ==> first_error(ex, drop_refusal(*old(v), group@, tag_or_base(opt_view(tag)), edited@)) is None,
            plain ==> first_error(kseq.take(j as int), f2) is None,
            plain ==> same_frame(o0, *v),
            plain ==> (t != base_tag() ==> (v.tag_is_protected(g, t) <==> o0.tag_is_protected(g, t))),
        decreases ks.len() - j,
    {
        let k = ks[j].as_str();
        let ghost before = *v;
        proof {
            assert(kseq[j as int] == k@);
            crate::merging::lemma_take_one_more(kseq, j as int);
            assert(kseq.to_set().contains(k@));
        }
        let val = match edited.get(k) {
            Some(x) => x.as_str(),
            None => {
                return Ok(());
            },
        };
        proof {
            lemma_first_error_step(kseq, f2, j as int);
            if plain {
                lemma_group_for_named(before, g);
                lemma_group_for_named(o0, g);
                assert(before.group_for(Some(g)) == o0.group_for(Some(g)));
                assert(set_refusal(before, Some(g), opt_view(sel), val@, false) == f2(k@));
            }
        }
        let sr = v.set_entry(keys, Some(group), sel, k, val, None);
        match sr {
            Err(e) => {
                proof {
                    if plain {
                        lemma_first_error_prefix(kseq, f2, j + 1);
                    }
                }
                return Err(e);
            },
            Ok(()) => {},
        }
        proof {
            if plain {
                lemma_group_for_named(before, g);
                assert(v.group_for(Some(g)) == before.group_for(Some(g)));
            }
            if ok {
                lemma_group_for_named(before, g);
                lemma_set_step(o0, before, *v, g, t, k@, entry_key(scope_dek(mk, g, t), k@), val@);
                let s = scope_entries(*v, g, t);
                assert forall|x: Seq<char>| #[trigger] kseq.take(j + 1).contains(x) implies seals(
                    s[x],
                    entry_key(scope_dek(mk, g, t), x),
                    edited@[x]@,
                ) by {
                    if x != k@ {
                        assert(kseq.take(j as int).contains(x));
                        assert(x != k@);
                    }
                }
            }
        }
        j = j + 1;
    }
    proof {
        assert(kseq.take(ks.len() as int) =~= kseq);
        if edited@.dom() == Set::<Seq<char>>::empty() {
            assert(kseq.len() == 0) by {
                if kseq.len() > 0 {
                    assert(kseq.to_set().contains(kseq[0]));
                }
            }
        }
        if ok {
            assert forall|k: Seq<char>| #[trigger] edited@.contains_key(k) implies kseq.contains(k) by {
                assert(kseq.to_set().contains(k));
            }
            assert forall|k: Seq<char>| kseq.contains(k) implies #[trigger] edited@.contains_key(k) by {
                assert(kseq.to_set().contains(k));
            }
        }
        if created && ok {
            assert(ex =~= Seq::<Seq<char>>::empty());
            lemma_edit_created(orig, o0, *v, mk, g, t, edited@);
        }
    }
    Ok(())
}

} // verus!
