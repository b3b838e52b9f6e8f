//! The order of paths as std's `Path` compares them: component by
//! component, where a path is its root (a leading `/`), a leading `.` of a
//! relative path that starts with one, then its parts between `/`s, empty
//! parts and inner `.` parts left out and `..` kept (so `/a/b`, `/a/b/` and
//! `/a//b/.` have the same components). Components compare root first, then
//! `.`, then `..`, then named parts by their text. Paths with the same
//! components are ordered by their text. Linked directories are signed in
//! this order.
use crate::strmap::StrMap;
use crate::text::{chars_of, compare_chars, lemma_lt_irreflexive, lemma_lt_total, lemma_lt_transitive, seq_lt};
use vstd::prelude::*;

verus! {

/// The key of one part between `/`s: nothing for an empty or `.` part,
/// `3` for `..`, else `4`, each character's code plus one, and `0`.
pub open spec fn part_key(seg: Seq<char>) -> Seq<u64> {
    if seg.len() == 0 || seg == seq!['.'] {
        seq![]
    } else if seg == seq!['.', '.'] {
        seq![3u64]
    } else {
        seq![4u64] + seg.map_values(|c: char| (c as u32 + 1) as u64) + seq![0u64]
    }
}

/// Reading a path's text: the keys of the parts that ended with a `/`,
/// and the part in progress.
pub open spec fn key_state(s: Seq<char>) -> (Seq<u64>, Seq<char>)
    decreases s.len(),
{
    if s.len() == 0 {
        (seq![], seq![])
    } else {
        let (out, seg) = key_state(s.drop_last());
        if s.last() == '/' {
            (out + part_key(seg), seq![])
        } else {
            (out, seg.push(s.last()))
        }
    }
}

/// The key of a path's first component: `1` for a root, `2` for a leading
/// `.` of a relative path, else nothing.
pub open spec fn lead_key(p: Seq<char>) -> Seq<u64> {
    if p.len() > 0 && p[0] == '/' {
        seq![1u64]
    } else if p == seq!['.'] || (p.len() >= 2 && p[0] == '.' && p[1] == '/') {
        seq![2u64]
    } else {
        seq![]
    }
}

/// A path's components as one sequence: comparing two of them
/// lexicographically compares the paths component by component.
pub open spec fn path_key(p: Seq<char>) -> Seq<u64> {
    let (out, seg) = key_state(p);
    lead_key(p) + out + part_key(seg)
}

/// Strict lexicographic order of keys.
pub open spec fn key_lt(a: Seq<u64>, b: Seq<u64>) -> bool
    decreases a.len(),
{
    if a.len() == 0 {
        b.len() > 0
    } else if b.len() == 0 {
        false
    } else if a[0] != b[0] {
        a[0] < b[0]
    } else {
        key_lt(a.drop_first(), b.drop_first())
    }
}

/// Strict order of paths: by their components, then by their text.
pub open spec fn path_lt(a: Seq<char>, b: Seq<char>) -> bool {
    key_lt(path_key(a), path_key(b)) || (path_key(a) == path_key(b) && seq_lt(a, b))
}

proof fn lemma_key_lt_irreflexive(a: Seq<u64>)
    ensures
        !key_lt(a, a),
    decreases a.len(),
{
    if a.len() > 0 {
        lemma_key_lt_irreflexive(a.drop_first());
    }
}

proof fn lemma_key_lt_total(a: Seq<u64>, b: Seq<u64>)
    ensures
        a == b || key_lt(a, b) || key_lt(b, a),
    decreases a.len(),
{
    if a.len() > 0 && b.len() > 0 && a[0] == b[0] {
        lemma_key_lt_total(a.drop_first(), b.drop_first());
        if a.drop_first() == b.drop_first() {
            assert(a =~= seq![a[0]] + a.drop_first());
            assert(b =~= seq![b[0]] + b.drop_first());
        }
    } else if a.len() == 0 && b.len() == 0 {
        assert(a =~= b);
    }
}

proof fn lemma_key_lt_transitive(a: Seq<u64>, b: Seq<u64>, c: Seq<u64>)
    requires
        key_lt(a, b),
        key_lt(b, c),
    ensures
        key_lt(a, c),
    decreases a.len(),
{
    if a.len() > 0 && b.len() > 0 && c.len() > 0 && a[0] == b[0] && b[0] == c[0] {
        lemma_key_lt_transitive(a.drop_first(), b.drop_first(), c.drop_first());
    }
}

proof fn lemma_key_lt_asymmetric(a: Seq<u64>, b: Seq<u64>)
    ensures
        !(key_lt(a, b) && key_lt(b, a)),
{
    if key_lt(a, b) && key_lt(b, a) {
        lemma_key_lt_transitive(a, b, a);
        lemma_key_lt_irreflexive(a);
    }
}

pub proof fn lemma_path_lt_irreflexive(a: Seq<char>)
    ensures
        !path_lt(a, a),
{
    lemma_key_lt_irreflexive(path_key(a));
    lemma_lt_irreflexive(a);
}

pub proof fn lemma_path_lt_transitive(a: Seq<char>, b: Seq<char>, c: Seq<char>)
    requires
        path_lt(a, b),
        path_lt(b, c),
    ensures
        path_lt(a, c),
{
    let (ka, kb, kc) = (path_key(a), path_key(b), path_key(c));
    if key_lt(ka, kb) && key_lt(kb, kc) {
        lemma_key_lt_transitive(ka, kb, kc);
    } else if key_lt(ka, kb) {
        assert(kb == kc);
    } else if key_lt(kb, kc) {
        assert(ka == kb);
    } else {
        lemma_lt_transitive(a, b, c);
    }
}

pub proof fn lemma_path_lt_total(a: Seq<char>, b: Seq<char>)
    ensures
        a == b || path_lt(a, b) || path_lt(b, a),
{
    lemma_key_lt_total(path_key(a), path_key(b));
    lemma_lt_total(a, b);
}

/// Pairs whose first members ascend strictly in path order.
pub open spec fn path_sorted(s: Seq<(Seq<char>, Seq<char>)>) -> bool {
    forall|i: int, j: int| 0 <= i < j < s.len() ==> path_lt(#[trigger] s[i].0, #[trigger] s[j].0)
}

/// Two lists holding the same pairs, as many of each.
pub open spec fn same_items(s: Seq<(Seq<char>, Seq<char>)>, e: Seq<(Seq<char>, Seq<char>)>) -> bool {
    &&& s.len() == e.len()
    &&& forall|x: (Seq<char>, Seq<char>)| s.contains(x) <==> e.contains(x)
}

/// The pairs of `e` in path order of their first members.
pub open spec fn in_path_order(e: Seq<(Seq<char>, Seq<char>)>) -> Seq<(Seq<char>, Seq<char>)> {
    choose|s: Seq<(Seq<char>, Seq<char>)>| path_sorted(s) && same_items(s, e)
}

/// Two lists in path order that hold the same pairs are the same list.
proof fn lemma_path_sorted_unique(s: Seq<(Seq<char>, Seq<char>)>, t: Seq<(Seq<char>, Seq<char>)>)
    requires
        path_sorted(s),
        path_sorted(t),
        s.len() == t.len(),
        forall|x: (Seq<char>, Seq<char>)| s.contains(x) <==> t.contains(x),
    ensures
        s == t,
    decreases s.len(),
{
    if s.len() > 0 {
        assert(t.contains(s[0]));
        assert(s.contains(t[0]));
        let j = choose|j: int| 0 <= j < t.len() && t[j] == s[0];
        let i = choose|i: int| 0 <= i < s.len() && s[i] == t[0];
        if j > 0 {
            assert(path_lt(t[0].0, t[j].0));
            if i > 0 {
                assert(path_lt(s[0].0, s[i].0));
                lemma_path_lt_transitive(s[0].0, t[0].0, s[0].0);
                lemma_path_lt_irreflexive(s[0].0);
            } else {
                lemma_path_lt_irreflexive(t[0].0);
            }
        }
        assert(s[0] == t[0]);
        let s1 = s.skip(1);
        let t1 = t.skip(1);
        assert forall|x: (Seq<char>, Seq<char>)| s1.contains(x) <==> t1.contains(x) by {
            if s1.contains(x) {
                let k = choose|k: int| 0 <= k < s1.len() && s1[k] == x;
                assert(s[k + 1] == x);
                assert(path_lt(s[0].0, s[k + 1].0));
                lemma_path_lt_irreflexive(s[0].0);
                assert(t.contains(x));
                let m = choose|m: int| 0 <= m < t.len() && t[m] == x;
                assert(m != 0);
                assert(t1[m - 1] == x);
            }
            if t1.contains(x) {
                let k = choose|k: int| 0 <= k < t1.len() && t1[k] == x;
                assert(t[k + 1] == x);
                assert(path_lt(t[0].0, t[k + 1].0));
                lemma_path_lt_irreflexive(t[0].0);
                assert(s.contains(x));
                let m = choose|m: int| 0 <= m < s.len() && s[m] == x;
                assert(m != 0);
                assert(s1[m - 1] == x);
            }
        }
        assert(path_sorted(s1)) by {
            assert forall|a: int, b: int| 0 <= a < b < s1.len() implies path_lt(#[trigger] s1[a].0, #[trigger] s1[b].0) by {
                assert(s1[a] == s[a + 1]);
                assert(s1[b] == s[b + 1]);
            }
        }
        assert(path_sorted(t1)) by {
            assert forall|a: int, b: int| 0 <= a < b < t1.len() implies path_lt(#[trigger] t1[a].0, #[trigger] t1[b].0) by {
                assert(t1[a] == t[a + 1]);
                assert(t1[b] == t[b + 1]);
            }
        }
        lemma_path_sorted_unique(s1, t1);
        assert(s =~= seq![s[0]] + s1);
        assert(t =~= seq![t[0]] + t1);
    } else {
        assert(s =~= t);
    }
}

/// Once a list in path order holding the pairs of `e` is found, it is
/// `in_path_order(e)`.
pub proof fn lemma_in_path_order(s: Seq<(Seq<char>, Seq<char>)>, e: Seq<(Seq<char>, Seq<char>)>)
    requires
        path_sorted(s),
        same_items(s, e),
    ensures
        in_path_order(e) == s,
{
    let c = in_path_order(e);
    assert(path_sorted(c) && same_items(c, e));
    lemma_path_sorted_unique(c, s);
}

fn part_key_into(out: &mut Vec<u64>, seg: &[char])
    ensures
        final(out)@ == old(out)@ + part_key(seg@),
{
    let n = seg.len();
    if n == 0 || (n == 1 && seg[0] == '.') {
        proof {
            if n == 1 {
                assert(seg@ =~= seq!['.']);
            }
            assert(old(out)@ + part_key(seg@) =~= old(out)@);
        }
        return;
    }
    if n == 2 && seg[0] == '.' && seg[1] == '.' {
        assert(seg@ =~= seq!['.', '.']);
        out.push(3);
        assert(out@ =~= old(out)@ + seq![3u64]);
        return;
    }
    proof {
        if seg@ == seq!['.'] {
            assert(seg@[0] == '.');
        }
        if seg@ == seq!['.', '.'] {
            assert(seg@[0] == '.' && seg@[1] == '.');
        }
    }
    let ghost o0 = out@;
    let ghost f = |c: char| (c as u32 + 1) as u64;
    out.push(4);
    let mut i: usize = 0;
    while i < n
        invariant
            i <= n,
            n == seg@.len(),
            f == (|c: char| (c as u32 + 1) as u64),
            out@ == o0 + seq![4u64] + seg@.take(i as int).map_values(f),
        decreases n - i,
    {
        let c = seg[i];
        let code = (c as u32) as u64 + 1;
        proof {
            assert(seg@.take(i + 1).map_values(f) =~= seg@.take(i as int).map_values(f).push(f(c)));
        }
        out.push(code);
        i = i + 1;
    }
    out.push(0);
    assert(seg@.take(n as int) =~= seg@);
    assert(out@ =~= o0 + (seq![4u64] + seg@.map_values(f) + seq![0u64]));
}

/// A path's key; see `path_key`.
pub fn path_key_of(p: &[char]) -> (k: Vec<u64>)
    ensures
        k@ == path_key(p@),
{
    let mut out: Vec<u64> = Vec::new();
    if p.len() > 0 && p[0] == '/' {
        out.push(1);
    } else if (p.len() == 1 && p[0] == '.') || (p.len() >= 2 && p[0] == '.' && p[1] == '/') {
        out.push(2);
    }
    proof {
        if p@ == seq!['.'] {
            assert(p@[0] == '.');
        }
        if p.len() == 1 && p@[0] == '.' {
            assert(p@ =~= seq!['.']);
        }
    }
    assert(out@ == lead_key(p@));
    let ghost lead = out@;
    let mut seg: Vec<char> = Vec::new();
    let mut i: usize = 0;
    while i < p.len()
        invariant
            i <= p.len(),
            (out@.skip(lead.len() as int), seg@) == key_state(p@.take(i as int)),
            lead == lead_key(p@),
            out@.take(lead.len() as int) == lead,
            lead.len() <= out@.len(),
        decreases p.len() - i,
    {
        let c = p[i];
        proof {
            assert(p@.take(i + 1).drop_last() =~= p@.take(i as int));
            assert(p@.take(i + 1).last() == c);
        }
        let ghost o1 = out@;
        if c == '/' {
            part_key_into(&mut out, seg.as_slice());
            proof {
                assert(out@.skip(lead.len() as int) =~= o1.skip(lead.len() as int) + part_key(seg@));
                assert(out@.take(lead.len() as int) =~= o1.take(lead.len() as int));
            }
            seg = Vec::new();
        } else {
            seg.push(c);
        }
        i = i + 1;
    }
    let ghost o2 = out@;
    part_key_into(&mut out, seg.as_slice());
    proof {
        assert(p@.take(p.len() as int) =~= p@);
        assert(o2 =~= lead + o2.skip(lead.len() as int));
        assert(out@ =~= lead + o2.skip(lead.len() as int) + part_key(seg@));
    }
    out
}

/// Whether key `a` is before key `b`.
fn key_less(a: &[u64], b: &[u64]) -> (r: bool)
    ensures
        r == key_lt(a@, b@),
{
    let mut i: usize = 0;
    proof {
        assert(a@.skip(0) =~= a@);
        assert(b@.skip(0) =~= b@);
    }
    while i < a.len() && i < b.len() && a[i] == b[i]
        invariant
            i <= a.len(),
            i <= b.len(),
            key_lt(a@, b@) == key_lt(a@.skip(i as int), b@.skip(i as int)),
        decreases a.len() - i,
    {
        proof {
            let (x, y) = (a@.skip(i as int), b@.skip(i as int));
            assert(x.drop_first() =~= a@.skip(i + 1));
            assert(y.drop_first() =~= b@.skip(i + 1));
            assert(x[0] == a@[i as int]);
            assert(y[0] == b@[i as int]);
        }
        i = i + 1;
    }
    proof {
        assert(a@.skip(0) =~= a@);
        assert(b@.skip(0) =~= b@);
    }
    if i == a.len() {
        i < b.len()
    } else if i == b.len() {
        false
    } else {
        proof {
            assert(a@.skip(i as int)[0] == a@[i as int]);
            assert(b@.skip(i as int)[0] == b@[i as int]);
        }
        a[i] < b[i]
    }
}

/// Whether path `a` is before path `b`; see `path_lt`.
pub fn path_less(a: &[char], b: &[char]) -> (r: bool)
    ensures
        r == path_lt(a@, b@),
{
    let ka = path_key_of(a);
    let kb = path_key_of(b);
    if key_less(ka.as_slice(), kb.as_slice()) {
        return true;
    }
    if key_less(kb.as_slice(), ka.as_slice()) {
        proof {
            lemma_key_lt_asymmetric(ka@, kb@);
        }
        return false;
    }
    proof {
        lemma_key_lt_total(ka@, kb@);
    }
    compare_chars(a, b) < 0
}

/// A string map's pairs, each taken by its view.
pub open spec fn pair_views(m: StrMap<String>) -> Seq<(Seq<char>, Seq<char>)> {
    m.entries().map_values(|p: (Seq<char>, String)| (p.0, p.1@))
}

/// A list of string pairs, each taken by its view.
pub open spec fn view_pairs(v: Seq<(String, String)>) -> Seq<(Seq<char>, Seq<char>)> {
    v.map_values(|p: (String, String)| (p.0@, p.1@))
}

/// Putting `x` at position `j`, after what is before it in path order and
/// before what is after it, keeps a list in path order.
proof fn lemma_insert_sorted(s: Seq<(Seq<char>, Seq<char>)>, j: int, x: (Seq<char>, Seq<char>))
    requires
        path_sorted(s),
        0 <= j <= s.len(),
        forall|t: int| 0 <= t < j ==> path_lt(#[trigger] s[t].0, x.0),
        forall|t: int| j <= t < s.len() ==> path_lt(x.0, #[trigger] s[t].0),
    ensures
        path_sorted(s.insert(j, x)),
{
    let r = s.insert(j, x);
    assert forall|a: int, b: int| 0 <= a < b < r.len() implies path_lt(#[trigger] r[a].0, #[trigger] r[b].0) by {
        if a < j && b < j {
            assert(r[a] == s[a] && r[b] == s[b]);
        } else if a < j && b == j {
            assert(r[a] == s[a]);
        } else if a < j {
            assert(r[a] == s[a] && r[b] == s[b - 1]);
        } else if a == j {
            assert(r[b] == s[b - 1]);
        } else {
            assert(r[a] == s[a - 1] && r[b] == s[b - 1]);
        }
    }
}

proof fn lemma_insert_contains(s: Seq<(Seq<char>, Seq<char>)>, j: int, x: (Seq<char>, Seq<char>), y: (Seq<char>, Seq<char>))
    requires
        0 <= j <= s.len(),
    ensures
        s.insert(j, x).contains(y) <==> (s.contains(y) || y == x),
{
    let w = s.insert(j, x);
    assert(w[j] == x);
    if w.contains(y) {
        let a = choose|a: int| 0 <= a < w.len() && w[a] == y;
        if a < j {
            assert(s[a] == y);
        } else if a > j {
            assert(s[a - 1] == y);
        }
    }
    if s.contains(y) {
        let a = choose|a: int| 0 <= a < s.len() && s[a] == y;
        if a < j {
            assert(w[a] == y);
        } else {
            assert(w[a + 1] == y);
        }
    }
}

proof fn lemma_take_contains(e: Seq<(Seq<char>, Seq<char>)>, i: int, y: (Seq<char>, Seq<char>))
    requires
        0 <= i < e.len(),
    ensures
        e.take(i + 1).contains(y) <==> (e.take(i).contains(y) || y == e[i]),
{
    assert(e.take(i + 1) =~= e.take(i).push(e[i]));
    let t = e.take(i);
    if t.push(e[i]).contains(y) {
        let a = choose|a: int| 0 <= a < t.push(e[i]).len() && t.push(e[i])[a] == y;
        if a < i {
            assert(t[a] == y);
        }
    }
    if t.contains(y) {
        let a = choose|a: int| 0 <= a < t.len() && t[a] == y;
        assert(t.push(e[i])[a] == y);
    }
    assert(t.push(e[i])[i] == e[i]);
}

/// The pairs of a string map in path order of their keys; see
/// `in_path_order`.
pub fn links_in_path_order(m: &StrMap<String>) -> (r: Vec<(String, String)>)
    ensures
        view_pairs(r@) == in_path_order(pair_views(*m)),
{
    let ghost e = pair_views(*m);
    let listed = m.keys();
    proof {
        assert forall|a: int, b: int| 0 <= a < b < e.len() implies #[trigger] e[a].0 != #[trigger] e[b].0 by {
            assert(m.key_seq()[a] == e[a].0);
            assert(m.key_seq()[b] == e[b].0);
            crate::strmap::lemma_sorted_distinct(m.key_seq(), a, b);
        }
    }
    let n = m.len();
    let mut out: Vec<(String, String)> = Vec::new();
    let mut i: usize = 0;
    proof {
        assert(view_pairs(out@) =~= Seq::<(Seq<char>, Seq<char>)>::empty());
        assert(e.take(0) =~= Seq::<(Seq<char>, Seq<char>)>::empty());
    }
    while i < n
        invariant
            i <= n,
            n == m.entries().len(),
            e == pair_views(*m),
            e.len() == n,
            forall|a: int, b: int| 0 <= a < b < n ==> #[trigger] e[a].0 != #[trigger] e[b].0,
            path_sorted(view_pairs(out@)),
            same_items(view_pairs(out@), e.take(i as int)),
        decreases n - i,
    {
        let k = m.key_at(i).clone();
        let v = m.value_at(i).clone();
        let ghost x = (k@, v@);
        assert(x == e[i as int]);
        let ghost vo = view_pairs(out@);
        let kc = chars_of(k.as_str());
        let mut j: usize = 0;
        while j < out.len()
            invariant
                j <= out.len(),
                vo == view_pairs(out@),
                kc@ == k@,
                forall|t: int| 0 <= t < j ==> !path_lt(k@, #[trigger] vo[t].0),
            ensures
                j <= out.len(),
                forall|t: int| 0 <= t < j ==> !path_lt(k@, #[trigger] vo[t].0),
                j < out.len() ==> path_lt(k@, vo[j as int].0),
            decreases out.len() - j,
        {
            let oc = chars_of(out[j].0.as_str());
            if path_less(kc.as_slice(), oc.as_slice()) {
                assert(vo[j as int].0 == oc@);
                break;
            }
            j = j + 1;
        }
        proof {
            assert forall|t: int| 0 <= t < j implies path_lt(#[trigger] vo[t].0, x.0) by {
                assert(e.take(i as int).contains(vo[t]));
                let a = choose|a: int| 0 <= a < e.take(i as int).len() && #[trigger] e.take(i as int)[a] == vo[t];
                assert(e[a] == vo[t]);
                assert(e[a].0 != e[i as int].0);
                lemma_path_lt_total(vo[t].0, x.0);
            }
            assert forall|t: int| j <= t < vo.len() implies path_lt(x.0, #[trigger] vo[t].0) by {
                if t > j {
                    assert(path_lt(vo[j as int].0, vo[t].0));
                    lemma_path_lt_transitive(x.0, vo[j as int].0, vo[t].0);
                }
            }
            lemma_insert_sorted(vo, j as int, x);
        }
        out.insert(j, (k, v));
        proof {
            assert(view_pairs(out@) =~= vo.insert(j as int, x));
            assert(e.take(i + 1) =~= e.take(i as int).push(x));
            assert forall|y: (Seq<char>, Seq<char>)| view_pairs(out@).contains(y) <==> e.take(i + 1).contains(y) by {
                lemma_insert_contains(vo, j as int, x, y);
                lemma_take_contains(e, i as int, y);
            }
        }
        i = i + 1;
    }
    proof {
        assert(e.take(n as int) =~= e);
        lemma_in_path_order(view_pairs(out@), e);
    }
    out
}

} // verus!
