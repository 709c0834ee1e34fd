//! Association lists: small finite maps and sets kept in a `Vec`.
//!
//! An entry pushed later overrides an earlier entry with the same key, so
//! inserting is a push and looking up scans from the back.
use vstd::prelude::*;

verus! {

/// A value that can be compared with another by what it denotes.
pub trait Key: DeepView + Sized {
    fn same(&self, other: &Self) -> (r: bool)
        ensures
            r == (self.deep_view() == other.deep_view()),
    ;
}

/// A value of which a second copy with the same meaning can be made.
pub trait Share: DeepView + Sized {
    fn share(&self) -> (r: Self)
        ensures
            r.deep_view() == self.deep_view(),
    ;
}

impl Key for String {
    fn same(&self, other: &Self) -> (r: bool) {
        *self == *other
    }
}

impl Share for String {
    fn share(&self) -> (r: Self) {
        self.clone()
    }
}

impl Key for Option<String> {
    fn same(&self, other: &Self) -> (r: bool) {
        match (self, other) {
            (Some(a), Some(b)) => *a == *b,
            (None, None) => true,
            _ => false,
        }
    }
}

impl Share for Option<String> {
    fn share(&self) -> (r: Self) {
        match self {
            Some(a) => Some(a.clone()),
            None => None,
        }
    }
}

impl Share for u64 {
    fn share(&self) -> (r: Self) {
        *self
    }
}

/// The map that a sequence of entries denotes: the last entry for a key wins.
pub open spec fn assoc_map<K, V>(entries: Seq<(K, V)>) -> Map<K, V>
    decreases entries.len(),
{
    if entries.len() == 0 {
        Map::empty()
    } else {
        assoc_map(entries.drop_last()).insert(entries.last().0, entries.last().1)
    }
}

pub proof fn lemma_assoc_push<K, V>(entries: Seq<(K, V)>, key: K, value: V)
    ensures
        assoc_map(entries.push((key, value))) == assoc_map(entries).insert(key, value),
{
    assert(entries.push((key, value)).drop_last() =~= entries);
}

/// Entries after position `upto` that do not hold `key` do not matter to it.
pub proof fn lemma_assoc_tail<K, V>(entries: Seq<(K, V)>, key: K, upto: int)
    requires
        0 <= upto <= entries.len(),
        forall|j: int| upto <= j < entries.len() ==> (#[trigger] entries[j]).0 != key,
    ensures
        assoc_map(entries).contains_key(key) == assoc_map(entries.take(upto)).contains_key(key),
        assoc_map(entries).contains_key(key) ==> assoc_map(entries)[key] == assoc_map(
            entries.take(upto),
        )[key],
    decreases entries.len() - upto,
{
    if upto == entries.len() {
        assert(entries.take(upto) =~= entries);
    } else {
        let shorter = entries.drop_last();
        assert(shorter.take(upto) =~= entries.take(upto));
        assert(entries.last() == entries[entries.len() - 1]);
        lemma_assoc_tail(shorter, key, upto);
    }
}

/// A finite map from `K` to `V`.
pub struct Assoc<K, V> {
    pub entries: Vec<(K, V)>,
}

impl<K: Key, V: Share> Assoc<K, V> {
    /// What the list denotes.
    pub open spec fn map(&self) -> Map<<K as DeepView>::V, <V as DeepView>::V> {
        assoc_map(self.entries.deep_view())
    }

    pub fn new() -> (r: Self)
        ensures
            r.map() == Map::<<K as DeepView>::V, <V as DeepView>::V>::empty(),
    {
        let r = Assoc { entries: Vec::new() };
        assert(r.entries.deep_view() =~= Seq::empty());
        r
    }

    /// The value bound to `key`, if there is one.
    pub fn get(&self, key: &K) -> (r: Option<V>)
        ensures
            r.is_some() == self.map().contains_key(key.deep_view()),
            r matches Some(v) ==> v.deep_view() == self.map()[key.deep_view()],
    {
        let ghost all = self.entries.deep_view();
        let mut i: usize = self.entries.len();
        while i > 0
            invariant
                i <= self.entries.len(),
                all == self.entries.deep_view(),
                forall|j: int| i <= j < all.len() ==> (#[trigger] all[j]).0 != key.deep_view(),
            decreases i,
        {
            i = i - 1;
            if self.entries[i].0.same(key) {
                let found = self.entries[i].1.share();
                proof {
                    assert(all[i as int].0 == key.deep_view());
                    lemma_assoc_tail(all, key.deep_view(), i as int + 1);
                    let upto = all.take(i as int + 1);
                    assert(upto.last() == all[i as int]);
                }
                return Some(found);
            }
        }
        proof {
            lemma_assoc_tail(all, key.deep_view(), 0);
            assert(all.take(0) =~= Seq::empty());
        }
        None
    }

    pub fn contains(&self, key: &K) -> (r: bool)
        ensures
            r == self.map().contains_key(key.deep_view()),
    {
        self.get(key).is_some()
    }

    /// Binds `key` to `value`, replacing what was bound to it.
    pub fn insert(&mut self, key: K, value: V)
        ensures
            final(self).map() == old(self).map().insert(key.deep_view(), value.deep_view()),
    {
        let ghost before = self.entries.deep_view();
        self.entries.push((key, value));
        proof {
            assert(self.entries.deep_view() =~= before.push((key.deep_view(), value.deep_view())));
            lemma_assoc_push(before, key.deep_view(), value.deep_view());
        }
    }
}

/// A finite set of `K`.
pub struct KeySet<K> {
    pub keys: Vec<K>,
}

impl<K: Key> KeySet<K> {
    /// What the list denotes.
    pub open spec fn set(&self) -> Set<<K as DeepView>::V> {
        Set::new(|k: <K as DeepView>::V| self.keys.deep_view().contains(k))
    }

    pub fn new() -> (r: Self)
        ensures
            r.set() == Set::<<K as DeepView>::V>::empty(),
    {
        let r = KeySet { keys: Vec::new() };
        assert(r.set() =~= Set::empty());
        r
    }

    pub fn contains(&self, key: &K) -> (r: bool)
        ensures
            r == self.set().contains(key.deep_view()),
    {
        let ghost all = self.keys.deep_view();
        let mut i: usize = 0;
        while i < self.keys.len()
            invariant
                i <= self.keys.len(),
                all == self.keys.deep_view(),
                forall|j: int| 0 <= j < i ==> all[j] != key.deep_view(),
            decreases self.keys.len() - i,
        {
            if self.keys[i].same(key) {
                assert(all[i as int] == key.deep_view());
                return true;
            }
            i = i + 1;
        }
        false
    }

    pub fn insert(&mut self, key: K)
        ensures
            final(self).set() == old(self).set().insert(key.deep_view()),
    {
        let ghost before = self.keys.deep_view();
        self.keys.push(key);
        proof {
            let after = self.keys.deep_view();
            assert(after =~= before.push(key.deep_view()));
            assert forall|k: <K as DeepView>::V| after.contains(k) == (before.contains(k) || k
                == key.deep_view()) by {
                if before.contains(k) {
                    let j = choose|j: int| 0 <= j < before.len() && before[j] == k;
                    assert(after[j] == k);
                }
                if k == key.deep_view() {
                    assert(after[before.len() as int] == k);
                }
            }
            assert(self.set() =~= old(self).set().insert(key.deep_view()));
        }
    }
}

} // verus!
