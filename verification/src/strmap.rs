//! A map from strings to values that keeps its keys in ascending order, as
//! `BTreeMap<String, V>` does.
use crate::text::{chars_of, compare_chars, lemma_lt_irreflexive, lemma_lt_transitive, seq_lt};
use vstd::prelude::*;

verus! {

/// Keys in strictly ascending order (hence without duplicates).
pub open spec fn sorted_keys(keys: Seq<Seq<char>>) -> bool {
    forall|i: int, j: int| 0 <= i < j < keys.len() ==> seq_lt(#[trigger] keys[i], #[trigger] keys[j])
}

/// The keys of a list of pairs.
pub open spec fn keys_of<V>(e: Seq<(Seq<char>, V)>) -> Seq<Seq<char>> {
    e.map_values(|p: (Seq<char>, V)| p.0)
}

/// The map that a list of pairs with distinct keys stands for.
pub open spec fn map_of<V>(e: Seq<(Seq<char>, V)>) -> Map<Seq<char>, V> {
    Map::new(
        |k: Seq<char>| exists|i: int| 0 <= i < e.len() && #[trigger] e[i].0 == k,
        |k: Seq<char>| e[choose|i: int| 0 <= i < e.len() && #[trigger] e[i].0 == k].1,
    )
}

pub proof fn lemma_sorted_distinct(keys: Seq<Seq<char>>, i: int, j: int)
    requires
        sorted_keys(keys),
        0 <= i < keys.len(),
        0 <= j < keys.len(),
        i != j,
    ensures
        keys[i] != keys[j],
{
    lemma_lt_irreflexive(keys[i]);
    lemma_lt_irreflexive(keys[j]);
}

/// In a sorted list, the pair at `i` is what the map gives for its key.
pub proof fn lemma_map_of_at<V>(e: Seq<(Seq<char>, V)>, i: int)
    requires
        sorted_keys(keys_of(e)),
        0 <= i < e.len(),
    ensures
        map_of(e).contains_key(e[i].0),
        map_of(e)[e[i].0] == e[i].1,
{
    assert(keys_of(e)[i] == e[i].0);
    let j = choose|j: int| 0 <= j < e.len() && #[trigger] e[j].0 == e[i].0;
    if j != i {
        lemma_sorted_distinct(keys_of(e), i, j);
    }
}

/// A key is in the map exactly when some pair of the list has it.
pub proof fn lemma_map_of_dom<V>(e: Seq<(Seq<char>, V)>, k: Seq<char>)
    ensures
        map_of(e).contains_key(k) <==> exists|i: int| 0 <= i < e.len() && e[i].0 == k,
{
}

/// The names of a finite set in ascending order.
pub open spec fn sorted_set(s: Set<Seq<char>>) -> Seq<Seq<char>> {
    choose|q: Seq<Seq<char>>| sorted_keys(q) && q.to_set() == s
}

/// Two ascending lists of the same names are the same list.
pub proof fn lemma_sorted_unique(a: Seq<Seq<char>>, b: Seq<Seq<char>>)
    requires
        sorted_keys(a),
        sorted_keys(b),
        a.to_set() == b.to_set(),
    ensures
        a == b,
    decreases a.len(),
{
    if a.len() == 0 {
        if b.len() > 0 {
            assert(b.to_set().contains(b[0]));
        }
        assert(a =~= b);
    } else {
        assert(a.to_set().contains(a[0]));
        assert(b.len() > 0);
        assert(b.to_set().contains(b[0]));
        let ia = choose|i: int| 0 <= i < a.len() && a[i] == b[0];
        let ib = choose|i: int| 0 <= i < b.len() && b[i] == a[0];
        if a[0] != b[0] {
            assert(seq_lt(a[0], a[ia]));
            assert(seq_lt(b[0], b[ib]));
            crate::text::lemma_lt_asymmetric(a[0], b[0]);
        }
        let a1 = a.drop_first();
        let b1 = b.drop_first();
        assert(sorted_keys(a1)) by {
            assert forall|i: int, j: int| 0 <= i < j < a1.len() implies seq_lt(#[trigger] a1[i], #[trigger] a1[j]) by {
                assert(a1[i] == a[i + 1] && a1[j] == a[j + 1]);
            }
        }
        assert(sorted_keys(b1)) by {
            assert forall|i: int, j: int| 0 <= i < j < b1.len() implies seq_lt(#[trigger] b1[i], #[trigger] b1[j]) by {
                assert(b1[i] == b[i + 1] && b1[j] == b[j + 1]);
            }
        }
        assert(a1.to_set() =~= b1.to_set()) by {
            assert forall|x: Seq<char>| a1.to_set().contains(x) implies b1.to_set().contains(x) by {
                let i = choose|i: int| 0 <= i < a1.len() && a1[i] == x;
                assert(a.to_set().contains(x)) by { assert(a[i + 1] == x); }
                let j = choose|j: int| 0 <= j < b.len() && b[j] == x;
                if j == 0 {
                    lemma_sorted_distinct(a, 0, i + 1);
                }
                assert(b1[j - 1] == x);
            }
            assert forall|x: Seq<char>| b1.to_set().contains(x) implies a1.to_set().contains(x) by {
                let i = choose|i: int| 0 <= i < b1.len() && b1[i] == x;
                assert(b.to_set().contains(x)) by { assert(b[i + 1] == x); }
                let j = choose|j: int| 0 <= j < a.len() && a[j] == x;
                if j == 0 {
                    lemma_sorted_distinct(b, 0, i + 1);
                }
                assert(a1[j - 1] == x);
            }
        }
        lemma_sorted_unique(a1, b1);
        assert(a =~= b) by {
            assert forall|i: int| 0 <= i < a.len() implies a[i] == b[i] by {
                if i > 0 {
                    assert(a[i] == a1[i - 1] && b[i] == b1[i - 1]);
                }
            }
        }
    }
}

/// An ascending list of the names of a set is the set's sorted list.
pub proof fn lemma_sorted_set(q: Seq<Seq<char>>, s: Set<Seq<char>>)
    requires
        sorted_keys(q),
        q.to_set() == s,
    ensures
        sorted_set(s) == q,
{
    let p = sorted_set(s);
    assert(sorted_keys(p) && p.to_set() == s);
    lemma_sorted_unique(p, q);
}

pub struct StrMap<V> {
    items: Vec<(String, V)>,
}

impl<V> StrMap<V> {
    /// The pairs of the map in ascending key order.
    pub closed spec fn entries(self) -> Seq<(Seq<char>, V)> {
        self.items@.map_values(|p: (String, V)| (p.0@, p.1))
    }

    pub open spec fn wf(self) -> bool {
        sorted_keys(keys_of(self.entries()))
    }

    #[verifier::type_invariant]
    pub open spec fn inv(self) -> bool {
        self.wf()
    }

    pub open spec fn view(&self) -> Map<Seq<char>, V> {
        map_of(self.entries())
    }

    /// The keys in ascending order.
    pub open spec fn key_seq(self) -> Seq<Seq<char>> {
        keys_of(self.entries())
    }

    /// A key of the map sits at some position of the pair list.
    pub proof fn lemma_index_of(&self, k: Seq<char>) -> (i: int)
        requires
            self.wf(),
            self@.contains_key(k),
        ensures
            0 <= i < self.entries().len(),
            self.entries()[i].0 == k,
            self.entries()[i].1 == self@[k],
    {
        let e = self.entries();
        let i = choose|i: int| 0 <= i < e.len() && #[trigger] e[i].0 == k;
        lemma_map_of_at(e, i);
        i
    }

    /// The keys listed are the keys of the map.
    pub proof fn lemma_key_set(&self)
        ensures
            self.key_seq().to_set() == self@.dom(),
    {
        let e = self.entries();
        assert forall|k: Seq<char>| self.key_seq().to_set().contains(k) <==> self@.dom().contains(k) by {
            if self@.dom().contains(k) {
                let i = choose|i: int| 0 <= i < e.len() && #[trigger] e[i].0 == k;
                assert(self.key_seq()[i] == k);
            }
            if self.key_seq().to_set().contains(k) {
                let i = choose|i: int| 0 <= i < self.key_seq().len() && self.key_seq()[i] == k;
                assert(e[i].0 == k);
            }
        }
        assert(self.key_seq().to_set() =~= self@.dom());
    }

    /// The keys in ascending order.
    pub fn keys(&self) -> (r: Vec<String>)
        ensures
            r@.map_values(|s: String| s@) == self.key_seq(),
            sorted_keys(self.key_seq()),
    {
        proof {
            use_type_invariant(self);
        }
        let mut r: Vec<String> = Vec::new();
        let mut i: usize = 0;
        while i < self.items.len()
            invariant
                i <= self.items.len(),
                r.len() == i,
                forall|j: int| 0 <= j < i ==> (#[trigger] r@[j])@ == self.key_seq()[j],
            decreases self.items.len() - i,
        {
            r.push(self.items[i].0.clone());
            proof {
                assert(self.key_seq()[i as int] == self.items@[i as int].0@);
            }
            i = i + 1;
        }
        proof {
            assert(r@.map_values(|s: String| s@) =~= self.key_seq());
        }
        r
    }

    pub fn new() -> (m: Self)
        ensures
            m.entries() == Seq::<(Seq<char>, V)>::empty(),
            m@ == Map::<Seq<char>, V>::empty(),
    {
        let m = StrMap { items: Vec::new() };
        assert(m@ =~= Map::<Seq<char>, V>::empty());
        m
    }

    /// Whether the map holds no key.
    pub fn is_empty(&self) -> (b: bool)
        ensures
            b == (self@.dom() == Set::<Seq<char>>::empty()),
    {
        proof {
            use_type_invariant(self);
        }
        if self.items.len() == 0 {
            assert(self@.dom() =~= Set::<Seq<char>>::empty());
            true
        } else {
            proof {
                lemma_map_of_at(self.entries(), 0);
                assert(self@.dom().contains(self.entries()[0].0));
            }
            false
        }
    }

    pub fn len(&self) -> (n: usize)
        ensures
            n == self.entries().len(),
    {
        self.items.len()
    }

    /// Where `k` is, or where it would be inserted.
    fn find(&self, k: &[char]) -> (r: Result<usize, usize>)
        ensures
            r matches Ok(i) ==> i < self.entries().len() && self.entries()[i as int].0 == k@,
            r matches Err(p) ==> p <= self.entries().len() && (forall|j: int|
                0 <= j < p ==> seq_lt(#[trigger] self.entries()[j].0, k@)) && (forall|j: int|
                p <= j < self.entries().len() ==> seq_lt(k@, #[trigger] self.entries()[j].0)),
    {
        proof {
            use_type_invariant(self);
        }
        let ghost e = self.entries();
        let mut i: usize = 0;
        while i < self.items.len()
            invariant
                e == self.entries(),
                sorted_keys(keys_of(e)),
                i <= e.len(),
                e.len() == self.items@.len(),
                forall|j: int| 0 <= j < i ==> seq_lt(#[trigger] e[j].0, k@),
            decreases self.items.len() - i,
        {
            let key = chars_of(self.items[i].0.as_str());
            assert(key@ == e[i as int].0);
            let c = compare_chars(key.as_slice(), k);
            if c == 0 {
                return Ok(i);
            }
            if c > 0 {
                assert forall|j: int| i <= j < e.len() implies seq_lt(k@, #[trigger] e[j].0) by {
                    if j > i {
                        assert(keys_of(e)[i as int] == e[i as int].0);
                        assert(keys_of(e)[j] == e[j].0);
                        lemma_lt_transitive(k@, e[i as int].0, e[j].0);
                    }
                }
                return Err(i);
            }
            i = i + 1;
        }
        Err(i)
    }

    pub fn get(&self, k: &str) -> (r: Option<&V>)
        ensures
            r is None <==> !self@.contains_key(k@),
            r matches Some(v) ==> self@.contains_key(k@) && *v == self@[k@],
    {
        proof {
            use_type_invariant(self);
        }
        let kc = chars_of(k);
        match self.find(kc.as_slice()) {
            Ok(i) => {
                proof {
                    lemma_map_of_at(self.entries(), i as int);
                }
                Some(&self.items[i].1)
            },
            Err(p) => {
                proof {
                    if self@.contains_key(k@) {
                        let j = choose|j: int|
                            0 <= j < self.entries().len() && #[trigger] self.entries()[j].0 == k@;
                        lemma_lt_irreflexive(k@);
                    }
                }
                None
            },
        }
    }

    pub fn contains_key(&self, k: &str) -> (b: bool)
        ensures
            b == self@.contains_key(k@),
    {
        self.get(k).is_some()
    }

    /// The key at position `i` in ascending order.
    pub fn key_at(&self, i: usize) -> (k: &String)
        requires
            i < self.entries().len(),
        ensures
            k@ == self.entries()[i as int].0,
    {
        &self.items[i].0
    }

    /// The value at position `i` in ascending key order.
    pub fn value_at(&self, i: usize) -> (v: &V)
        requires
            i < self.entries().len(),
        ensures
            *v == self.entries()[i as int].1,
            self@.contains_key(self.entries()[i as int].0),
            self@[self.entries()[i as int].0] == *v,
    {
        proof {
            use_type_invariant(self);
            lemma_map_of_at(self.entries(), i as int);
        }
        &self.items[i].1
    }

    /// Sets the value of `k`, replacing any earlier one.
    pub fn insert(&mut self, k: String, v: V)
        ensures
            final(self)@ == old(self)@.insert(k@, v),
    {
        proof {
            use_type_invariant(&*self);
        }
        let kc = chars_of(k.as_str());
        let found = self.find(kc.as_slice());
        let ghost e0 = self.entries();
        let mut items: Vec<(String, V)> = Vec::new();
        std::mem::swap(&mut items, &mut self.items);
        assert(items@.map_values(|p: (String, V)| (p.0@, p.1)) == e0);
        let ghost kv = k@;
        match found {
            Ok(i) => {
                items.set(i, (k, v));
            },
            Err(p) => {
                items.insert(p, (k, v));
            },
        }
        let ghost e1 = items@.map_values(|p: (String, V)| (p.0@, p.1));
        proof {
            match found {
                Ok(i) => {
                    assert(e1 == e0.update(i as int, (kv, v)));
                    assert(keys_of(e1) == keys_of(e0));
                },
                Err(p) => {
                    assert(e1 == e0.insert(p as int, (kv, v)));
                    assert forall|a: int, b: int| 0 <= a < b < keys_of(e1).len() implies seq_lt(
                        #[trigger] keys_of(e1)[a],
                        #[trigger] keys_of(e1)[b],
                    ) by {
                        if b < p {
                            assert(keys_of(e0)[a] == keys_of(e1)[a]);
                            assert(keys_of(e0)[b] == keys_of(e1)[b]);
                        } else if b == p {
                            assert(keys_of(e1)[a] == e0[a].0);
                        } else if a == p {
                            assert(keys_of(e1)[b] == e0[b - 1].0);
                        } else if a < p {
                            assert(keys_of(e0)[a] == keys_of(e1)[a]);
                            assert(keys_of(e0)[b - 1] == keys_of(e1)[b]);
                        } else {
                            assert(keys_of(e0)[a - 1] == keys_of(e1)[a]);
                            assert(keys_of(e0)[b - 1] == keys_of(e1)[b]);
                        }
                    }
                },
            }
            assert(sorted_keys(keys_of(e1)));
            assert forall|key: Seq<char>| #[trigger] map_of(e1).contains_key(key) == map_of(
                e0,
            ).insert(kv, v).contains_key(key) by {
                lemma_map_of_dom(e1, key);
                lemma_map_of_dom(e0, key);
                if map_of(e0).contains_key(key) && key != kv {
                    let j = choose|j: int| 0 <= j < e0.len() && #[trigger] e0[j].0 == key;
                    match found {
                        Ok(i) => {
                            assert(e1[j].0 == key);
                        },
                        Err(p) => {
                            if j < p {
                                assert(e1[j].0 == key);
                            } else {
                                assert(e1[j + 1].0 == key);
                            }
                        },
                    }
                }
                match found {
                    Ok(i) => {
                        assert(e1[i as int].0 == kv);
                    },
                    Err(p) => {
                        assert(e1[p as int].0 == kv);
                    },
                }
                if map_of(e1).contains_key(key) && key != kv {
                    let j = choose|j: int| 0 <= j < e1.len() && #[trigger] e1[j].0 == key;
                    match found {
                        Ok(i) => {
                            assert(e0[j].0 == key);
                        },
                        Err(p) => {
                            if j < p {
                                assert(e0[j].0 == key);
                            } else {
                                assert(e0[j - 1].0 == key);
                            }
                        },
                    }
                }
            }
            assert forall|key: Seq<char>| #[trigger] map_of(e1).contains_key(key) implies map_of(
                e1,
            )[key] == map_of(e0).insert(kv, v)[key] by {
                let j = choose|j: int| 0 <= j < e1.len() && #[trigger] e1[j].0 == key;
                lemma_map_of_at(e1, j);
                if key != kv {
                    match found {
                        Ok(i) => {
                            assert(j != i);
                            assert(e0[j] == e1[j]);
                            lemma_map_of_at(e0, j);
                        },
                        Err(p) => {
                            if j < p {
                                assert(e0[j] == e1[j]);
                                lemma_map_of_at(e0, j);
                            } else {
                                assert(j != p);
                                assert(e0[j - 1] == e1[j]);
                                lemma_map_of_at(e0, j - 1);
                            }
                        },
                    }
                } else {
                    match found {
                        Ok(i) => {
                            lemma_map_of_at(e1, i as int);
                        },
                        Err(p) => {
                            lemma_map_of_at(e1, p as int);
                        },
                    }
                }
            }
            assert(map_of(e1) =~= map_of(e0).insert(kv, v));
        }
        self.items = items;
    }

    /// Removes `k`, giving back its value where it was present.
    pub fn remove(&mut self, k: &str) -> (r: Option<V>)
        ensures
            final(self)@ == old(self)@.remove(k@),
            r is None <==> !old(self)@.contains_key(k@),
            r matches Some(v) ==> old(self)@.contains_key(k@) && v == old(self)@[k@],
    {
        proof {
            use_type_invariant(&*self);
        }
        let kc = chars_of(k);
        let found = self.find(kc.as_slice());
        let ghost e0 = self.entries();
        match found {
            Err(p) => {
                proof {
                    if self@.contains_key(k@) {
                        let j = choose|j: int| 0 <= j < e0.len() && #[trigger] e0[j].0 == k@;
                        lemma_lt_irreflexive(k@);
                    }
                    assert(self@.remove(k@) =~= self@);
                }
                None
            },
            Ok(i) => {
                let mut items: Vec<(String, V)> = Vec::new();
                std::mem::swap(&mut items, &mut self.items);
                assert(items@.map_values(|p: (String, V)| (p.0@, p.1)) == e0);
                let (_, v) = items.remove(i);
                let ghost e1 = items@.map_values(|p: (String, V)| (p.0@, p.1));
                proof {
                    lemma_map_of_at(e0, i as int);
                    assert(e1 == e0.remove(i as int));
                    assert forall|a: int, b: int| 0 <= a < b < keys_of(e1).len() implies seq_lt(
                        #[trigger] keys_of(e1)[a],
                        #[trigger] keys_of(e1)[b],
                    ) by {
                        if b < i {
                            assert(keys_of(e0)[a] == keys_of(e1)[a]);
                            assert(keys_of(e0)[b] == keys_of(e1)[b]);
                        } else if a < i {
                            assert(keys_of(e0)[a] == keys_of(e1)[a]);
                            assert(keys_of(e0)[b + 1] == keys_of(e1)[b]);
                        } else {
                            assert(keys_of(e0)[a + 1] == keys_of(e1)[a]);
                            assert(keys_of(e0)[b + 1] == keys_of(e1)[b]);
                        }
                    }
                    assert(sorted_keys(keys_of(e1)));
                    assert forall|key: Seq<char>| #[trigger] map_of(e1).contains_key(key)
                        == map_of(e0).remove(k@).contains_key(key) by {
                        if map_of(e0).contains_key(key) && key != k@ {
                            let j = choose|j: int| 0 <= j < e0.len() && #[trigger] e0[j].0 == key;
                            if j < i {
                                assert(e1[j].0 == key);
                            } else {
                                assert(j != i);
                                assert(e1[j - 1].0 == key);
                            }
                        }
                        if map_of(e1).contains_key(key) {
                            let j = choose|j: int| 0 <= j < e1.len() && #[trigger] e1[j].0 == key;
                            if j < i {
                                assert(e0[j].0 == key);
                                lemma_sorted_distinct(keys_of(e0), j, i as int);
                            } else {
                                assert(e0[j + 1].0 == key);
                                lemma_sorted_distinct(keys_of(e0), j + 1, i as int);
                            }
                        }
                    }
                    assert forall|key: Seq<char>| #[trigger] map_of(e1).contains_key(key) implies map_of(
                        e1,
                    )[key] == map_of(e0).remove(k@)[key] by {
                        let j = choose|j: int| 0 <= j < e1.len() && #[trigger] e1[j].0 == key;
                        lemma_map_of_at(e1, j);
                        if j < i {
                            lemma_map_of_at(e0, j);
                        } else {
                            lemma_map_of_at(e0, j + 1);
                        }
                    }
                    assert(map_of(e1) =~= map_of(e0).remove(k@));
                }
                self.items = items;
                Some(v)
            },
        }
    }
}


impl<V: Clone> Clone for StrMap<V> {
    /// A copy with the same keys, in the same order; each value is the
    /// value type's own copy.
    fn clone(&self) -> (r: Self)
        ensures
            r.key_seq() == self.key_seq(),
    {
        proof {
            use_type_invariant(self);
        }
        let mut items: Vec<(String, V)> = Vec::new();
        let mut i: usize = 0;
        while i < self.items.len()
            invariant
                i <= self.items.len(),
                items.len() == i,
                forall|j: int| 0 <= j < i ==> (#[trigger] items@[j]).0@ == self.items@[j].0@,
            decreases self.items.len() - i,
        {
            let k = self.items[i].0.clone();
            let v = self.items[i].1.clone();
            items.push((k, v));
            i = i + 1;
        }
        proof {
            let ks = keys_of(items@.map_values(|p: (String, V)| (p.0@, p.1)));
            assert(ks =~= self.key_seq());
        }
        StrMap { items }
    }
}

} // verus!
