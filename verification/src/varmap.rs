//! A small string-keyed map with deterministic (insertion) order, viewed as a
//! `Map<Seq<char>, Seq<char>>`. Used for `.env` values, session overrides and the
//! resolved variables of an interpolation context.
use vstd::prelude::*;

use crate::text::same_text;

verus! {

/// Keys of a list of pairs, as text.
pub open spec fn pair_keys(pairs: Seq<(String, String)>) -> Seq<Seq<char>> {
    pairs.map_values(|p: (String, String)| p.0@)
}

/// The map a duplicate-free list of pairs denotes.
pub open spec fn pairs_map(pairs: Seq<(String, String)>) -> Map<Seq<char>, Seq<char>> {
    Map::new(
        |k: Seq<char>| pair_keys(pairs).contains(k),
        |k: Seq<char>| pairs[choose|i: int| 0 <= i < pairs.len() && pairs[i].0@ == k].1@,
    )
}

/// A string map whose keys are kept distinct; later insertions replace earlier ones.
#[derive(Debug)]
pub struct VarMap {
    pairs: Vec<(String, String)>,
}

impl View for VarMap {
    type V = Map<Seq<char>, Seq<char>>;

    closed spec fn view(&self) -> Map<Seq<char>, Seq<char>> {
        pairs_map(self.pairs@)
    }
}

impl VarMap {
    #[verifier::type_invariant]
    closed spec fn keys_distinct(self) -> bool {
        pair_keys(self.pairs@).no_duplicates()
    }

    /// The stored pairs, in insertion order.
    pub closed spec fn entries(self) -> Seq<(String, String)> {
        self.pairs@
    }

    /// An empty map.
    pub fn new() -> (r: Self)
        ensures
            r@ == Map::<Seq<char>, Seq<char>>::empty(),
            r.entries().len() == 0,
    {
        let r = VarMap { pairs: Vec::new() };
        assert(r@ =~= Map::<Seq<char>, Seq<char>>::empty());
        r
    }

    /// Number of keys.
    pub fn len(&self) -> (r: usize)
        ensures
            r == self@.len(),
    {
        proof {
            use_type_invariant(self);
            lemma_pairs_map_facts(self.pairs@);
        }
        self.pairs.len()
    }

    /// Whether the map holds no key.
    pub fn is_empty(&self) -> (r: bool)
        ensures
            r == (self@.len() == 0),
    {
        proof {
            use_type_invariant(self);
            lemma_pairs_map_facts(self.pairs@);
        }
        self.pairs.len() == 0
    }

    /// Position of `key` among the stored pairs.
    fn position(&self, key: &str) -> (r: Option<usize>)
        ensures
            match r {
                Some(i) => i < self.entries().len() && self.entries()[i as int].0@ == key@,
                None => !self@.contains_key(key@),
            },
    {
        proof {
            use_type_invariant(self);
            lemma_pairs_map_facts(self.pairs@);
        }
        let mut i: usize = 0;
        while i < self.pairs.len()
            invariant
                0 <= i <= self.pairs@.len(),
                forall|j: int| 0 <= j < i ==> self.pairs@[j].0@ != key@,
            decreases self.pairs@.len() - i,
        {
            if same_text(self.pairs[i].0.as_str(), key) {
                return Some(i);
            }
            i += 1;
        }
        proof {
            if pair_keys(self.pairs@).contains(key@) {
                let j = choose|j: int|
                    0 <= j < pair_keys(self.pairs@).len() && pair_keys(self.pairs@)[j] == key@;
                assert(self.pairs@[j].0@ == key@);
            }
        }
        None
    }

    /// The value stored under `key`.
    pub fn get(&self, key: &str) -> (r: Option<&String>)
        ensures
            r is Some <==> self@.contains_key(key@),
            r matches Some(v) ==> v@ == self@[key@],
    {
        proof {
            use_type_invariant(self);
            lemma_pairs_map_facts(self.pairs@);
        }
        match self.position(key) {
            Some(i) => {
                proof {
                    assert(self@.contains_key(self.pairs@[i as int].0@));
                }
                Some(&self.pairs[i].1)
            },
            None => None,
        }
    }

    /// Whether `key` is present.
    pub fn contains_key(&self, key: &str) -> (r: bool)
        ensures
            r == self@.contains_key(key@),
    {
        proof {
            use_type_invariant(self);
            lemma_pairs_map_facts(self.pairs@);
        }
        self.position(key).is_some()
    }

    /// Store `value` under `key`, replacing any previous value.
    pub fn insert(&mut self, key: String, value: String)
        ensures
            final(self)@ == old(self)@.insert(key@, value@),
    {
        proof {
            use_type_invariant(&*self);
            lemma_pairs_map_facts(self.pairs@);
        }
        let ghost before = self.pairs@;
        match self.position(key.as_str()) {
            Some(i) => {
                let mut pairs: Vec<(String, String)> = Vec::new();
                std::mem::swap(&mut pairs, &mut self.pairs);
                proof {
                    assert(pairs@ == before);
                }
                pairs.set(i, (key, value));
                proof {
                    lemma_pairs_update(before, i as int, pairs@[i as int]);
                }
                self.pairs = pairs;
            },
            None => {
                let mut pairs: Vec<(String, String)> = Vec::new();
                std::mem::swap(&mut pairs, &mut self.pairs);
                proof {
                    assert(pairs@ == before);
                }
                pairs.push((key, value));
                proof {
                    lemma_pairs_push(before, pairs@.last());
                }
                self.pairs = pairs;
            },
        }
    }

    /// The `i`-th stored pair.
    pub fn entry(&self, i: usize) -> (r: (&String, &String))
        requires
            i < self.entries().len(),
        ensures
            *r.0 == self.entries()[i as int].0,
            *r.1 == self.entries()[i as int].1,
    {
        (&self.pairs[i].0, &self.pairs[i].1)
    }

    /// Number of stored pairs; the map is exactly the stored pairs, whose keys are
    /// distinct.
    pub fn entry_count(&self) -> (r: usize)
        ensures
            r == self.entries().len(),
            pair_keys(self.entries()).no_duplicates(),
            self@ == pairs_map(self.entries()),
            forall|i: int|
                0 <= i < self.entries().len() ==> #[trigger] self@.contains_key(
                    self.entries()[i].0@,
                ) && self@[self.entries()[i].0@] == self.entries()[i].1@,
    {
        proof {
            use_type_invariant(self);
            lemma_pairs_map_facts(self.pairs@);
        }
        self.pairs.len()
    }
}

/// Facts about the map denoted by duplicate-free pairs.
pub proof fn lemma_pairs_map_facts(pairs: Seq<(String, String)>)
    requires
        pair_keys(pairs).no_duplicates(),
    ensures
        pairs_map(pairs).dom().finite(),
        pairs_map(pairs).len() == pairs.len(),
        forall|i: int|
            0 <= i < pairs.len() ==> #[trigger] pairs_map(pairs).contains_key(pairs[i].0@)
                && pairs_map(pairs)[pairs[i].0@] == pairs[i].1@,
{
    let keys = pair_keys(pairs);
    assert(pairs_map(pairs).dom() =~= keys.to_set());
    keys.unique_seq_to_set();
    assert forall|i: int| 0 <= i < pairs.len() implies #[trigger] pairs_map(
        pairs,
    ).contains_key(pairs[i].0@) && pairs_map(pairs)[pairs[i].0@] == pairs[i].1@ by {
        assert(keys[i] == pairs[i].0@);
        let j = choose|j: int| 0 <= j < pairs.len() && pairs[j].0@ == pairs[i].0@;
        assert(keys[j] == keys[i]);
    }
}

pub proof fn lemma_pairs_update(pairs: Seq<(String, String)>, i: int, p: (String, String))
    requires
        pair_keys(pairs).no_duplicates(),
        0 <= i < pairs.len(),
        pairs[i].0@ == p.0@,
    ensures
        pair_keys(pairs.update(i, p)).no_duplicates(),
        pairs_map(pairs.update(i, p)) == pairs_map(pairs).insert(p.0@, p.1@),
{
    let q = pairs.update(i, p);
    assert(pair_keys(q) =~= pair_keys(pairs));
    lemma_pairs_map_facts(pairs);
    lemma_pairs_map_facts(q);
    assert forall|k: Seq<char>| pairs_map(q).contains_key(k) implies pairs_map(q)[k] == pairs_map(
        pairs,
    ).insert(p.0@, p.1@)[k] by {
        let j = choose|j: int| 0 <= j < pair_keys(q).len() && pair_keys(q)[j] == k;
        assert(q[j].0@ == k);
        assert(pairs_map(q).contains_key(q[j].0@));
        if j != i {
            assert(q[j] == pairs[j]);
            assert(pairs_map(pairs).contains_key(pairs[j].0@));
            assert(pair_keys(pairs)[j] != pair_keys(pairs)[i]);
        }
    }
    assert(pairs_map(q) =~= pairs_map(pairs).insert(p.0@, p.1@));
}

pub proof fn lemma_pairs_push(pairs: Seq<(String, String)>, p: (String, String))
    requires
        pair_keys(pairs).no_duplicates(),
        !pair_keys(pairs).contains(p.0@),
    ensures
        pair_keys(pairs.push(p)).no_duplicates(),
        pairs_map(pairs.push(p)) == pairs_map(pairs).insert(p.0@, p.1@),
{
    let q = pairs.push(p);
    assert(pair_keys(q) =~= pair_keys(pairs).push(p.0@));
    assert(pair_keys(q).no_duplicates()) by {
        assert forall|a: int, b: int|
            0 <= a < pair_keys(q).len() && 0 <= b < pair_keys(q).len() && a != b implies pair_keys(
            q,
        )[a] != pair_keys(q)[b] by {
            if a == pairs.len() as int {
                assert(pair_keys(q)[b] == pair_keys(pairs)[b]);
            } else if b == pairs.len() as int {
                assert(pair_keys(q)[a] == pair_keys(pairs)[a]);
            }
        }
    }
    lemma_pairs_map_facts(pairs);
    lemma_pairs_map_facts(q);
    assert forall|k: Seq<char>| pairs_map(q).contains_key(k) implies pairs_map(q)[k] == pairs_map(
        pairs,
    ).insert(p.0@, p.1@)[k] by {
        let j = choose|j: int| 0 <= j < pair_keys(q).len() && pair_keys(q)[j] == k;
        assert(q[j].0@ == k);
        assert(pairs_map(q).contains_key(q[j].0@));
        if j < pairs.len() {
            assert(q[j] == pairs[j]);
            assert(pairs_map(pairs).contains_key(pairs[j].0@));
        }
    }
    assert forall|k: Seq<char>| pairs_map(pairs).insert(p.0@, p.1@).contains_key(
        k,
    ) implies pairs_map(q).contains_key(k) by {
        if k != p.0@ {
            let j = choose|j: int|
                0 <= j < pair_keys(pairs).len() && pair_keys(pairs)[j] == k;
            assert(pair_keys(q)[j] == k);
        } else {
            assert(pair_keys(q)[pairs.len() as int] == k);
        }
    }
    assert(pairs_map(q) =~= pairs_map(pairs).insert(p.0@, p.1@));
}

} // verus!
