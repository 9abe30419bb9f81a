//! A map keyed by text that remembers the order in which keys first arrived:
//! lookups, overwriting inserts and removals behave as those of a hash map
//! keyed by strings, and walking it is deterministic.

use vstd::prelude::*;
use crate::text::str_eq;

verus! {

/// Text-keyed map; each key occurs once.
#[derive(Debug)]
pub struct TextMap<V> {
    entries: Vec<(String, V)>,
}

/// The keys of a list of entries, in order.
pub open spec fn keys_of<V>(s: Seq<(String, V)>) -> Seq<Seq<char>> {
    s.map_values(|e: (String, V)| e.0@)
}

/// No key occurs twice.
pub open spec fn distinct_keys<V>(s: Seq<(String, V)>) -> bool {
    forall|i: int, j: int| 0 <= i < s.len() && 0 <= j < s.len() && i != j ==> s[i].0@ != s[j].0@
}

/// The map that a list of distinct-keyed entries stands for.
pub open spec fn map_of<V>(s: Seq<(String, V)>) -> Map<Seq<char>, V>
    decreases s.len(),
{
    if s.len() == 0 {
        Map::empty()
    } else {
        map_of(s.drop_last()).insert(s.last().0@, s.last().1)
    }
}

proof fn lemma_map_of_index<V>(s: Seq<(String, V)>)
    requires
        distinct_keys(s),
    ensures
        forall|k: Seq<char>| #[trigger] map_of(s).contains_key(k) <==> (exists|i: int| 0 <= i < s.len() && s[i].0@ == k),
        forall|i: int| 0 <= i < s.len() ==> map_of(s).contains_key(#[trigger] s[i].0@) && map_of(s)[s[i].0@] == s[i].1,
    decreases s.len(),
{
    if s.len() > 0 {
        let t = s.drop_last();
        assert(distinct_keys(t));
        lemma_map_of_index(t);
        assert forall|k: Seq<char>| #[trigger] map_of(s).contains_key(k) <==> (exists|i: int| 0 <= i < s.len() && s[i].0@ == k) by {
            if map_of(s).contains_key(k) {
                if k == s.last().0@ {
                    assert(s[s.len() - 1].0@ == k);
                } else {
                    assert(map_of(t).contains_key(k));
                    let i = choose|i: int| 0 <= i < t.len() && t[i].0@ == k;
                    assert(s[i].0@ == k);
                }
            }
            if exists|i: int| 0 <= i < s.len() && s[i].0@ == k {
                let i = choose|i: int| 0 <= i < s.len() && s[i].0@ == k;
                if i < s.len() - 1 {
                    assert(t[i].0@ == k);
                }
            }
        }
        assert forall|i: int| 0 <= i < s.len() implies map_of(s).contains_key(#[trigger] s[i].0@) && map_of(s)[s[i].0@] == s[i].1 by {
            if i < s.len() - 1 {
                assert(t[i] == s[i]);
                assert(s[i].0@ != s.last().0@);
            }
        }
    }
}

proof fn lemma_map_of_push<V>(s: Seq<(String, V)>, e: (String, V))
    ensures
        map_of(s.push(e)) == map_of(s).insert(e.0@, e.1),
{
    assert(s.push(e).drop_last() == s);
}

proof fn lemma_map_of_update<V>(s: Seq<(String, V)>, i: int, v: V)
    requires
        distinct_keys(s),
        0 <= i < s.len(),
    ensures
        map_of(s.update(i, (s[i].0, v))) == map_of(s).insert(s[i].0@, v),
        distinct_keys(s.update(i, (s[i].0, v))),
    decreases s.len(),
{
    let u = s.update(i, (s[i].0, v));
    assert(distinct_keys(u));
    if i == s.len() - 1 {
        assert(u.drop_last() == s.drop_last());
        assert(map_of(u) == map_of(s.drop_last()).insert(s[i].0@, v));
        assert(map_of(s).insert(s[i].0@, v) =~= map_of(s.drop_last()).insert(s[i].0@, v));
    } else {
        let t = s.drop_last();
        assert(distinct_keys(t));
        lemma_map_of_update(t, i, v);
        assert(u.drop_last() == t.update(i, (t[i].0, v)));
        assert(s[i].0@ != s.last().0@);
        assert(map_of(u) =~= map_of(s).insert(s[i].0@, v));
    }
}

proof fn lemma_map_of_remove<V>(s: Seq<(String, V)>, i: int)
    requires
        distinct_keys(s),
        0 <= i < s.len(),
    ensures
        map_of(s.remove(i)) == map_of(s).remove(s[i].0@),
        distinct_keys(s.remove(i)),
    decreases s.len(),
{
    let r = s.remove(i);
    assert(distinct_keys(r)) by {
        assert forall|a: int, b: int| 0 <= a < r.len() && 0 <= b < r.len() && a != b implies r[a].0@ != r[b].0@ by {
            let a2 = if a < i { a } else { a + 1 };
            let b2 = if b < i { b } else { b + 1 };
            assert(r[a] == s[a2]);
            assert(r[b] == s[b2]);
        }
    }
    lemma_map_of_index(s);
    lemma_map_of_index(r);
    assert forall|k: Seq<char>| #[trigger] map_of(r).contains_key(k) <==> map_of(s).remove(s[i].0@).contains_key(k) by {
        if map_of(r).contains_key(k) {
            let j = choose|j: int| 0 <= j < r.len() && r[j].0@ == k;
            let j2 = if j < i { j } else { j + 1 };
            assert(r[j] == s[j2]);
            assert(map_of(s).contains_key(s[j2].0@));
        }
        if map_of(s).remove(s[i].0@).contains_key(k) {
            let j = choose|j: int| 0 <= j < s.len() && s[j].0@ == k;
            assert(j != i);
            let j2 = if j < i { j } else { j - 1 };
            assert(r[j2] == s[j]);
            assert(map_of(r).contains_key(r[j2].0@));
        }
    }
    assert forall|k: Seq<char>| #[trigger] map_of(r).contains_key(k) implies map_of(r)[k] == map_of(s)[k] by {
        let j = choose|j: int| 0 <= j < r.len() && r[j].0@ == k;
        let j2 = if j < i { j } else { j + 1 };
        assert(r[j] == s[j2]);
        assert(map_of(r)[r[j].0@] == r[j].1);
        assert(map_of(s)[s[j2].0@] == s[j2].1);
    }
    assert(map_of(r) =~= map_of(s).remove(s[i].0@));
}

impl<V> View for TextMap<V> {
    type V = Map<Seq<char>, V>;

    /// The map as a mathematical map from key text to value.
    open spec fn view(&self) -> Map<Seq<char>, V> {
        map_of(self.entry_seq())
    }
}

impl<V> TextMap<V> {
    #[verifier::type_invariant]
    spec fn inv(self) -> bool {
        distinct_keys(self.entries@)
    }

    /// The entries in arrival order.
    pub closed spec fn entry_seq(self) -> Seq<(String, V)> {
        self.entries@
    }

    /// The map's keys in arrival order.
    pub open spec fn key_seq(self) -> Seq<Seq<char>> {
        keys_of(self.entry_seq())
    }

    /// An empty map.
    pub fn new() -> (m: Self)
        ensures
            m.entry_seq() == Seq::<(String, V)>::empty(),
            m.view() == Map::<Seq<char>, V>::empty(),
    {
        TextMap { entries: Vec::new() }
    }

    /// Number of keys.
    pub fn len(&self) -> (n: usize)
        ensures
            n == self.entry_seq().len(),
            n == self.view().dom().len(),
    {
        proof {
            use_type_invariant(self);
            lemma_entries(self.entries@);
        }
        self.entries.len()
    }

    /// Position of `key` among the entries.
    pub fn position(&self, key: &str) -> (r: Option<usize>)
        ensures
            r matches Some(i) ==> i < self.entry_seq().len() && self.entry_seq()[i as int].0@ == key@,
            r is None ==> !self.key_seq().contains(key@),
    {
        let mut i: usize = 0;
        while i < self.entries.len()
            invariant
                i <= self.entries@.len(),
                forall|j: int| 0 <= j < i ==> self.entries@[j].0@ != key@,
            decreases self.entries@.len() - i,
        {
            if str_eq(self.entries[i].0.as_str(), key) {
                return Some(i);
            }
            i = i + 1;
        }
        proof {
            if self.key_seq().contains(key@) {
                let j = choose|j: int| 0 <= j < self.key_seq().len() && self.key_seq()[j] == key@;
                assert(self.entries@[j].0@ == key@);
            }
        }
        None
    }

    /// The value stored under `key`.
    pub fn get(&self, key: &str) -> (r: Option<&V>)
        ensures
            r is Some <==> self.view().contains_key(key@),
            r matches Some(v) ==> *v == self.view()[key@],
    {
        proof {
            use_type_invariant(self);
            lemma_entries(self.entries@);
        }
        match self.position(key) {
            Some(i) => {
                assert(self.key_seq()[i as int] == key@);
                Some(&self.entries[i].1)
            },
            None => None,
        }
    }

    /// Whether `key` is present.
    pub fn contains_key(&self, key: &str) -> (b: bool)
        ensures
            b == self.view().contains_key(key@),
    {
        proof {
            use_type_invariant(self);
            lemma_entries(self.entries@);
        }
        match self.position(key) {
            Some(i) => {
                assert(self.key_seq()[i as int] == key@);
                true
            },
            None => false,
        }
    }

    /// The key and value at position `i` in arrival order.
    pub fn entry(&self, i: usize) -> (r: (&String, &V))
        requires
            i < self.entry_seq().len(),
        ensures
            *r.0 == self.entry_seq()[i as int].0,
            *r.1 == self.entry_seq()[i as int].1,
            self.view().contains_key(r.0@),
            self.view()[r.0@] == *r.1,
    {
        proof {
            use_type_invariant(self);
            lemma_entries(self.entries@);
            assert(keys_of(self.entries@)[i as int] == self.entries@[i as int].0@);
        }
        (&self.entries[i].0, &self.entries[i].1)
    }

    /// Stores `value` under `key`, replacing any earlier value; a new key goes
    /// last in arrival order, an existing one keeps its place.
    pub fn insert(&mut self, key: String, value: V)
        ensures
            final(self).view() == old(self).view().insert(key@, value),
            old(self).key_seq().contains(key@) ==> final(self).key_seq() == old(self).key_seq(),
            !old(self).key_seq().contains(key@) ==> final(self).key_seq() == old(self).key_seq().push(key@),
    {
        proof {
            use_type_invariant(&*self);
        }
        match self.position(key.as_str()) {
            Some(i) => {
                let ghost s = self.entries@;
                let ghost k = self.entries@[i as int].0;
                proof {
                    lemma_map_of_update(s, i as int, value);
                    assert(k@ == key@);
                    assert(keys_of(s)[i as int] == key@);
                }
                let ghost u = s.update(i as int, (k, value));
                let mut es: Vec<(String, V)> = Vec::new();
                std::mem::swap(&mut es, &mut self.entries);
                es.set(i, (key, value));
                proof {
                    assert(es@ =~= s.update(i as int, (es@[i as int].0, value)));
                    assert(keys_of(es@) =~= keys_of(s));
                    assert forall|j: int| 0 <= j < s.len() implies #[trigger] es@[j].0@ == u[j].0@ by {}
                    lemma_map_of_eq(es@, u);
                }
                self.entries = es;
                proof {
                    assert(self.entries@ =~= s.update(i as int, (self.entries@[i as int].0, value)));
                    assert(keys_of(self.entries@) =~= keys_of(s));
                    assert(self.entries@[i as int].0@ == k@);
                    assert forall|j: int| 0 <= j < s.len() implies #[trigger] self.entries@[j].0@ == u[j].0@ by {}
                    assert(map_of(self.entries@) == map_of(u)) by {
                        lemma_map_of_eq(self.entries@, u);
                    }
                }
            },
            None => {
                let ghost s = self.entries@;
                proof {
                    lemma_map_of_push(s, (key, value));
                }
                let mut es: Vec<(String, V)> = Vec::new();
                std::mem::swap(&mut es, &mut self.entries);
                es.push((key, value));
                proof {
                    assert(distinct_keys(es@)) by {
                        assert(es@.drop_last() == s);
                        assert forall|j: int| 0 <= j < s.len() implies es@[j].0@ != key@ by {
                            assert(keys_of(s)[j] == s[j].0@);
                        }
                    }
                }
                proof {
                    assert(keys_of(es@) =~= keys_of(s).push(key@));
                }
                self.entries = es;
            },
        }
    }

    /// Removes `key`, returning its value if it was present; the other keys
    /// keep their order.
    pub fn remove(&mut self, key: &str) -> (r: Option<V>)
        ensures
            final(self).view() == old(self).view().remove(key@),
            r is Some <==> old(self).view().contains_key(key@),
            r matches Some(v) ==> v == old(self).view()[key@],
    {
        proof {
            use_type_invariant(&*self);
            lemma_entries(self.entries@);
        }
        match self.position(key) {
            Some(i) => {
                let ghost s = self.entries@;
                proof {
                    lemma_map_of_remove(s, i as int);
                    assert(self.key_seq()[i as int] == key@);
                }
                let mut es: Vec<(String, V)> = Vec::new();
                std::mem::swap(&mut es, &mut self.entries);
                let e = es.remove(i);
                self.entries = es;
                Some(e.1)
            },
            None => {
                proof {
                    assert(!self.view().contains_key(key@));
                    assert(self.view().remove(key@) =~= self.view());
                }
                None
            },
        }
    }
}

/// What distinct keys give: the view holds exactly the listed entries, and
/// it has as many keys as there are entries.
proof fn lemma_entries<V>(s: Seq<(String, V)>)
    requires
        distinct_keys(s),
    ensures
        forall|k: Seq<char>| #[trigger] map_of(s).contains_key(k) <==> keys_of(s).contains(k),
        forall|i: int| 0 <= i < s.len() ==> #[trigger] map_of(s)[s[i].0@] == s[i].1,
        map_of(s).dom().finite(),
        map_of(s).dom().len() == s.len(),
{
    lemma_map_of_index(s);
    assert forall|k: Seq<char>| #[trigger] map_of(s).contains_key(k) <==> keys_of(s).contains(k) by {
        if map_of(s).contains_key(k) {
            let i = choose|i: int| 0 <= i < s.len() && s[i].0@ == k;
            assert(keys_of(s)[i] == k);
        }
        if keys_of(s).contains(k) {
            let i = choose|i: int| 0 <= i < keys_of(s).len() && keys_of(s)[i] == k;
            assert(s[i].0@ == k);
        }
    }
    lemma_map_of_len(s);
}

proof fn lemma_map_of_eq<V>(a: Seq<(String, V)>, b: Seq<(String, V)>)
    requires
        a.len() == b.len(),
        forall|j: int| #![trigger a[j]] 0 <= j < a.len() ==> a[j].0@ == b[j].0@ && a[j].1 == b[j].1,
    ensures
        map_of(a) == map_of(b),
    decreases a.len(),
{
    if a.len() > 0 {
        let (a2, b2) = (a.drop_last(), b.drop_last());
        assert forall|j: int| #![trigger a2[j]] 0 <= j < a2.len() implies a2[j].0@ == b2[j].0@ && a2[j].1 == b2[j].1 by {
            assert(a2[j] == a[j] && b2[j] == b[j]);
        }
        lemma_map_of_eq(a2, b2);
        assert(a.last() == a[a.len() - 1]);
    }
}

proof fn lemma_map_of_len<V>(s: Seq<(String, V)>)
    requires
        distinct_keys(s),
    ensures
        map_of(s).dom().finite(),
        map_of(s).dom().len() == s.len(),
    decreases s.len(),
{
    if s.len() > 0 {
        let t = s.drop_last();
        assert(distinct_keys(t));
        lemma_map_of_len(t);
        lemma_map_of_index(t);
        if map_of(t).contains_key(s.last().0@) {
            let i = choose|i: int| 0 <= i < t.len() && t[i].0@ == s.last().0@;
            assert(s[i].0@ == s[s.len() - 1].0@);
        }
    }
}

} // verus!
