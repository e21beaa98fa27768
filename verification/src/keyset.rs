//! A set of node keys that can be asked for a key and walked through.

use std::collections::HashSet;
use vstd::prelude::*;

verus! {

broadcast use vstd::std_specs::hash::group_hash_axioms;

/// A set of keys. It keeps the keys in the order in which they were given,
/// and an index over them for the lookups.
pub struct KeySet {
    keys: Vec<u64>,
    index: HashSet<u64>,
}

impl View for KeySet {
    type V = Set<u64>;

    closed spec fn view(&self) -> Set<u64> {
        self.keys@.to_set()
    }
}

impl KeySet {
    #[verifier::type_invariant]
    spec fn indexed(self) -> bool {
        self.index@ == self.keys@.to_set()
    }

    /// The keys in the order in which they were given.
    pub closed spec fn spec_keys(&self) -> Seq<u64> {
        self.keys@
    }

    /// The set holds the keys of its list.
    pub proof fn lemma_keys(&self)
        ensures
            self@ == self.spec_keys().to_set(),
    {
    }

    /// The set of the keys in `keys`.
    pub fn from_keys(keys: Vec<u64>) -> (set: Self)
        ensures
            set@ == keys@.to_set(),
            set.spec_keys() == keys@,
    {
        let mut index: HashSet<u64> = HashSet::new();
        let mut i: usize = 0;
        while i < keys.len()
            invariant
                0 <= i <= keys.len(),
                index@ == keys@.take(i as int).to_set(),
            decreases keys.len() - i,
        {
            index.insert(keys[i]);
            proof {
                assert(keys@.take(i + 1) =~= keys@.take(i as int).push(keys@[i as int]));
                assert(keys@.take(i as int).push(keys@[i as int]).to_set() =~= keys@.take(
                    i as int,
                ).to_set().insert(keys@[i as int])) by {
                    let s = keys@.take(i as int);
                    let k = keys@[i as int];
                    assert forall|x: u64| s.push(k).to_set().contains(x) <==> s.to_set().insert(
                        k,
                    ).contains(x) by {
                        if s.push(k).contains(x) {
                            let j = choose|j: int| 0 <= j < s.push(k).len() && s.push(k)[j] == x;
                            if j < s.len() {
                                assert(s[j] == x);
                            }
                        }
                        if s.contains(x) {
                            let j = choose|j: int| 0 <= j < s.len() && s[j] == x;
                            assert(s.push(k)[j] == x);
                        }
                        if x == k {
                            assert(s.push(k)[s.len() as int] == x);
                        }
                    }
                }
            }
            i += 1;
        }
        proof {
            assert(keys@.take(keys.len() as int) =~= keys@);
        }
        KeySet { keys, index }
    }

    /// Whether `key` is in the set.
    pub fn contains(&self, key: u64) -> (found: bool)
        ensures
            found == self@.contains(key),
    {
        proof {
            use_type_invariant(self);
        }
        self.index.contains(&key)
    }

    /// The keys in the order in which they were given.
    pub fn keys(&self) -> (keys: &Vec<u64>)
        ensures
            keys@ == self.spec_keys(),
    {
        &self.keys
    }
}

impl Clone for KeySet {
    fn clone(&self) -> (copy: Self)
        ensures
            copy@ == self@,
            copy.spec_keys() == self.spec_keys(),
    {
        KeySet::from_keys(self.keys.clone())
    }
}

} // verus!
