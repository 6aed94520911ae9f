//! A map keyed by strings, in which a later entry for a key replaces the
//! earlier one.
use vstd::prelude::*;
use crate::text::texts;

verus! {

/// The map that a sequence of entries makes, each entry replacing what was
/// there for its key.
pub open spec fn map_of<V>(entries: Seq<(String, V)>) -> Map<Seq<char>, V>
    decreases entries.len(),
{
    if entries.len() == 0 {
        Map::empty()
    } else {
        map_of(entries.drop_last()).insert(entries.last().0@, entries.last().1)
    }
}

/// A map from strings to values of `V`.
#[derive(Debug)]
pub struct StrMap<V> {
    /// The entries in the order in which they came; the last one for a key
    /// is the one that counts.
    pub entries: Vec<(String, V)>,
}

impl<V> View for StrMap<V> {
    type V = Map<Seq<char>, V>;

    open spec fn view(&self) -> Map<Seq<char>, V> {
        map_of(self.entries@)
    }
}

impl<V> StrMap<V> {
    /// The empty map.
    pub fn new() -> (m: Self)
        ensures
            m@ == Map::<Seq<char>, V>::empty(),
    {
        StrMap { entries: Vec::new() }
    }

    /// Sets the value of `key`, replacing what was there.
    pub fn insert(&mut self, key: String, value: V)
        ensures
            final(self)@ == old(self)@.insert(key@, value),
    {
        let ghost before = self.entries@;
        self.entries.push((key, value));
        assert(self.entries@.drop_last() =~= before);
    }

    /// The value of `key`, if it has one.
    pub fn get(&self, key: &str) -> (r: Option<&V>)
        ensures
            match r {
                Some(v) => self@.contains_key(key@) && self@[key@] == *v,
                None => !self@.contains_key(key@),
            },
    {
        let wanted = key.to_owned();
        let mut i: usize = self.entries.len();
        assert(self.entries@.take(i as int) =~= self.entries@);
        while i > 0
            invariant
                i <= self.entries@.len(),
                wanted@ == key@,
                self@.contains_key(key@) == map_of(self.entries@.take(i as int)).contains_key(
                    key@,
                ),
                self@.contains_key(key@) ==> self@[key@] == map_of(self.entries@.take(i as int))[key@],
            decreases i,
        {
            i -= 1;
            let ghost upto = self.entries@.take(i + 1);
            assert(upto.drop_last() =~= self.entries@.take(i as int));
            assert(upto.last() == self.entries@[i as int]);
            if self.entries[i].0 == wanted {
                return Some(&self.entries[i].1);
            }
        }
        assert(self.entries@.take(0) =~= Seq::<(String, V)>::empty());
        None
    }

    /// Adds the entries of `later`, each replacing what was there for its
    /// key.
    pub fn extend(&mut self, later: StrMap<V>)
        ensures
            final(self)@ == old(self)@.union_prefer_right(later@),
    {
        let ghost first = self.entries@;
        let ghost second = later.entries@;
        let mut rest = later.entries;
        self.entries.append(&mut rest);
        proof {
            lemma_map_of_concat(first, second);
        }
    }

    /// Whether `key` has a value.
    pub fn contains_key(&self, key: &str) -> (b: bool)
        ensures
            b == self@.contains_key(key@),
    {
        self.get(key).is_some()
    }
}

pub proof fn lemma_map_of_concat<V>(a: Seq<(String, V)>, b: Seq<(String, V)>)
    ensures
        map_of(a + b) == map_of(a).union_prefer_right(map_of(b)),
    decreases b.len(),
{
    if b.len() == 0 {
        assert(a + b =~= a);
        assert(map_of(a).union_prefer_right(map_of(b)) =~= map_of(a));
    } else {
        assert((a + b).drop_last() =~= a + b.drop_last());
        assert((a + b).last() == b.last());
        lemma_map_of_concat(a, b.drop_last());
        assert(map_of(a).union_prefer_right(map_of(b.drop_last())).insert(
            b.last().0@,
            b.last().1,
        ) =~= map_of(a).union_prefer_right(map_of(b)));
    }
}

/// The names and values that a vector of string pairs holds.
pub open spec fn pairs(v: Seq<(String, String)>) -> Seq<(Seq<char>, Seq<char>)> {
    Seq::new(v.len(), |i: int| (v[i].0@, v[i].1@))
}

pub proof fn lemma_push_to_set<T>(s: Seq<T>, x: T)
    ensures
        s.push(x).to_set() == s.to_set().insert(x),
{
    let a = s.push(x).to_set();
    let b = s.to_set().insert(x);
    assert forall|e: T| a.contains(e) == b.contains(e) by {
        if s.push(x).contains(e) {
            let i = choose|i: int| 0 <= i < s.push(x).len() && s.push(x)[i] == e;
            if i < s.len() {
                assert(s[i] == e);
            }
        }
        if s.contains(e) {
            let i = choose|i: int| 0 <= i < s.len() && s[i] == e;
            assert(s.push(x)[i] == e);
        }
        if e == x {
            assert(s.push(x)[s.len() as int] == e);
        }
    }
    assert(a =~= b);
}

/// Whether `v` holds a string with the characters of `s`.
pub fn holds(v: &Vec<String>, s: &String) -> (b: bool)
    ensures
        b == texts(v@).contains(s@),
{
    let mut i: usize = 0;
    while i < v.len()
        invariant
            i <= v@.len(),
            forall|k: int| 0 <= k < i ==> texts(v@)[k] != s@,
        decreases v@.len() - i,
    {
        if v[i] == *s {
            assert(texts(v@)[i as int] == s@);
            return true;
        }
        i += 1;
    }
    false
}

/// Whether `v` holds a pair with the characters of `a` and of `b`.
pub fn holds_pair(v: &Vec<(String, String)>, a: &String, b: &String) -> (r: bool)
    ensures
        r == pairs(v@).contains((a@, b@)),
{
    let mut i: usize = 0;
    while i < v.len()
        invariant
            i <= v@.len(),
            forall|k: int| 0 <= k < i ==> pairs(v@)[k] != (a@, b@),
        decreases v@.len() - i,
    {
        if v[i].0 == *a && v[i].1 == *b {
            assert(pairs(v@)[i as int] == (a@, b@));
            return true;
        }
        i += 1;
    }
    false
}

/// Adds `s` to `v` unless `v` holds it.
pub fn push_unique(v: &mut Vec<String>, s: String)
    requires
        texts(old(v)@).no_duplicates(),
    ensures
        texts(final(v)@).no_duplicates(),
        texts(final(v)@).to_set() == texts(old(v)@).to_set().insert(s@),
{
    if !holds(v, &s) {
        let ghost before = texts(v@);
        v.push(s);
        proof {
            assert(texts(v@) =~= before.push(s@));
            lemma_push_to_set(before, s@);
        }
    } else {
        assert(texts(v@).to_set().insert(s@) =~= texts(v@).to_set());
    }
}

/// Adds the pair of `a` and `b` to `v` unless `v` holds it.
pub fn push_unique_pair(v: &mut Vec<(String, String)>, a: String, b: String)
    requires
        pairs(old(v)@).no_duplicates(),
    ensures
        pairs(final(v)@).no_duplicates(),
        pairs(final(v)@).to_set() == pairs(old(v)@).to_set().insert((a@, b@)),
{
    if !holds_pair(v, &a, &b) {
        let ghost before = pairs(v@);
        v.push((a, b));
        proof {
            assert(pairs(v@) =~= before.push((a@, b@)));
            lemma_push_to_set(before, (a@, b@));
        }
    } else {
        assert(pairs(v@).to_set().insert((a@, b@)) =~= pairs(v@).to_set());
    }
}

} // verus!
