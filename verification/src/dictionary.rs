//! A dictionary from strings to values that keeps its keys in the order in
//! which they first came.
use vstd::prelude::*;

verus! {

/// Whether `i` is the first place at which the key stands.
pub open spec fn is_first<W>(entries: Seq<(Seq<char>, W)>, key: Seq<char>, i: int) -> bool {
    &&& 0 <= i < entries.len()
    &&& entries[i].0 == key
    &&& forall|j: int| 0 <= j < i ==> (#[trigger] entries[j]).0 != key
}

/// Whether some entry has the key.
pub open spec fn has_key<W>(entries: Seq<(Seq<char>, W)>, key: Seq<char>) -> bool {
    exists|i: int| is_first(entries, key, i)
}

/// The value under a key.
pub open spec fn lookup<W>(entries: Seq<(Seq<char>, W)>, key: Seq<char>) -> Option<W> {
    if has_key(entries, key) {
        Some(entries[choose|i: int| is_first(entries, key, i)].1)
    } else {
        None
    }
}

/// The entries once the value stands under the key: in the place of the value
/// that stood there, or else at the end.
pub open spec fn put<W>(entries: Seq<(Seq<char>, W)>, key: Seq<char>, value: W) -> Seq<
    (Seq<char>, W),
> {
    if has_key(entries, key) {
        entries.update(choose|i: int| is_first(entries, key, i), (key, value))
    } else {
        entries.push((key, value))
    }
}

/// No key stands in the entries twice.
pub open spec fn distinct_keys<W>(entries: Seq<(Seq<char>, W)>) -> bool {
    forall|i: int, j: int|
        0 <= i < j < entries.len() ==> (#[trigger] entries[i]).0 != (#[trigger] entries[j]).0
}

/// There is at most one first place for a key.
pub proof fn lemma_first_is_unique<W>(entries: Seq<(Seq<char>, W)>, key: Seq<char>, i: int, j: int)
    requires
        is_first(entries, key, i),
        is_first(entries, key, j),
    ensures
        i == j,
{
}

/// A key that occurs has a first place.
pub proof fn lemma_first_exists<W>(entries: Seq<(Seq<char>, W)>, key: Seq<char>, i: int)
    requires
        0 <= i < entries.len(),
        entries[i].0 == key,
    ensures
        has_key(entries, key),
    decreases i,
{
    if is_first(entries, key, i) {
    } else {
        let j = choose|j: int| 0 <= j < i && (#[trigger] entries[j]).0 == key;
        lemma_first_exists(entries, key, j);
    }
}

/// Putting a value under a key makes it what is found there, leaves every other
/// key alone, and lets no key occur twice.
pub proof fn lemma_put<W>(entries: Seq<(Seq<char>, W)>, key: Seq<char>, value: W)
    ensures
        lookup(put(entries, key, value), key) == Some(value),
        forall|other: Seq<char>|
            other != key ==> #[trigger] lookup(put(entries, key, value), other) == lookup(
                entries,
                other,
            ),
        distinct_keys(entries) ==> distinct_keys(put(entries, key, value)),
{
    let after = put(entries, key, value);
    let at = if has_key(entries, key) {
        choose|i: int| is_first(entries, key, i)
    } else {
        entries.len() as int
    };
    if !has_key(entries, key) {
        assert forall|j: int| 0 <= j < entries.len() implies (#[trigger] entries[j]).0 != key by {
            if entries[j].0 == key {
                lemma_first_exists(entries, key, j);
            }
        }
    }
    assert(is_first(after, key, at));
    lemma_first_is_unique(after, key, at, choose|i: int| is_first(after, key, i));
    assert forall|other: Seq<char>| other != key implies #[trigger] lookup(after, other) == lookup(
        entries,
        other,
    ) by {
        if has_key(entries, other) {
            let i = choose|i: int| is_first(entries, other, i);
            assert(is_first(after, other, i));
            lemma_first_is_unique(after, other, i, choose|k: int| is_first(after, other, k));
        } else if has_key(after, other) {
            let i = choose|i: int| is_first(after, other, i);
            assert(entries[i].0 == other);
            lemma_first_exists(entries, other, i);
        }
    }
    if distinct_keys(entries) {
        assert forall|i: int, j: int| 0 <= i < j < after.len() implies (#[trigger] after[i]).0 != (
        #[trigger] after[j]).0 by {
            if i < entries.len() && j < entries.len() {
                assert(entries[i].0 != entries[j].0);
            }
        }
    }
}

/// A dictionary with string keys.
#[derive(Debug)]
pub struct Dictionary<V> {
    pub keys: Vec<String>,
    pub values: Vec<V>,
}

impl<V> Dictionary<V> {
    /// Every key has its value and stands there once.
    pub open spec fn wf(self) -> bool {
        &&& self.keys@.len() == self.values@.len()
        &&& distinct_keys(self.pairs())
    }

    /// The entries, key by key.
    pub open spec fn pairs(self) -> Seq<(Seq<char>, V)> {
        Seq::new(self.keys@.len(), |i: int| (self.keys@[i]@, self.values@[i]))
    }

    /// A dictionary without entries.
    pub fn new() -> (dictionary: Self)
        ensures
            dictionary.wf(),
            dictionary.pairs() == Seq::<(Seq<char>, V)>::empty(),
    {
        let dictionary = Dictionary { keys: Vec::new(), values: Vec::new() };
        assert(dictionary.pairs() =~= Seq::empty());
        dictionary
    }

    /// The number of entries.
    pub fn len(&self) -> (n: usize)
        ensures
            n == self.pairs().len(),
    {
        self.keys.len()
    }

    /// The place of a key.
    fn position(&self, key: &String) -> (at: Option<usize>)
        ensures
            match at {
                Some(i) => is_first(self.pairs(), key@, i as int),
                None => !has_key(self.pairs(), key@),
            },
    {
        let ghost pairs = self.pairs();
        let mut i: usize = 0;
        while i < self.keys.len()
            invariant
                i <= self.keys@.len(),
                pairs == self.pairs(),
                forall|j: int| 0 <= j < i ==> (#[trigger] pairs[j]).0 != key@,
            decreases self.keys@.len() - i,
        {
            assert(pairs[i as int].0 == self.keys@[i as int]@);
            if self.keys[i] == *key {
                return Some(i);
            }
            i = i + 1;
        }
        None
    }

    /// The value under a key.
    pub fn get(&self, key: &str) -> (value: Option<&V>)
        requires
            self.wf(),
        ensures
            match value {
                Some(v) => lookup(self.pairs(), key@) == Some(*v),
                None => lookup(self.pairs(), key@) is None,
            },
    {
        let key = key.to_owned();
        match self.position(&key) {
            Some(i) => {
                proof {
                    lemma_first_is_unique(
                        self.pairs(),
                        key@,
                        i as int,
                        choose|j: int| is_first(self.pairs(), key@, j),
                    );
                }
                Some(&self.values[i])
            },
            None => None,
        }
    }

    /// Puts a value under a key, in the place of the one that stood there.
    pub fn insert(&mut self, key: String, value: V)
        requires
            old(self).wf(),
        ensures
            final(self).wf(),
            final(self).pairs() == put(old(self).pairs(), key@, value),
    {
        let ghost before = self.pairs();
        proof {
            lemma_put(before, key@, value);
        }
        match self.position(&key) {
            Some(i) => {
                proof {
                    lemma_first_is_unique(
                        before,
                        key@,
                        i as int,
                        choose|j: int| is_first(before, key@, j),
                    );
                }
                self.values.set(i, value);
                assert(self.pairs() =~= put(before, key@, value));
            },
            None => {
                self.keys.push(key);
                self.values.push(value);
                assert(self.pairs() =~= put(before, key@, value));
            },
        }
    }
}

} // verus!
