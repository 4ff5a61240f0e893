//! The key-value store: a mapping from text key to text value, at most one
//! value per key. Entries are created or overwritten by `set`, created by
//! `set_if_absent`, and removed by `remove` and `remove_many`. The store is
//! viewed as a `Map` from key characters to value characters.

use vstd::prelude::*;

use crate::text::str_eq;

verus! {

/// Map denoted by a list of pairs; a later pair for the same key wins,
/// though the store keeps its keys unique.
pub open spec fn map_of(pairs: Seq<(String, String)>) -> Map<Seq<char>, Seq<char>>
    decreases pairs.len(),
{
    if pairs.len() == 0 {
        Map::empty()
    } else {
        map_of(pairs.drop_last()).insert(pairs.last().0@, pairs.last().1@)
    }
}

/// No two pairs share a key.
pub open spec fn keys_unique(pairs: Seq<(String, String)>) -> bool {
    forall|i: int, j: int| 0 <= i < j < pairs.len() ==> pairs[i].0@ != pairs[j].0@
}

/// The store state after removing each of `keys` in order.
pub open spec fn map_after_del(m: Map<Seq<char>, Seq<char>>, keys: Seq<Seq<char>>) -> Map<
    Seq<char>,
    Seq<char>,
>
    decreases keys.len(),
{
    if keys.len() == 0 {
        m
    } else {
        map_after_del(m.remove(keys[0]), keys.drop_first())
    }
}

/// How many of `keys`, removed in order, were present when their turn came:
/// the number of distinct keys of `m` that occur in `keys`.
pub open spec fn del_count(m: Map<Seq<char>, Seq<char>>, keys: Seq<Seq<char>>) -> nat
    decreases keys.len(),
{
    if keys.len() == 0 {
        0
    } else {
        (if m.contains_key(keys[0]) {
            1nat
        } else {
            0nat
        }) + del_count(m.remove(keys[0]), keys.drop_first())
    }
}

/// A key is in the map exactly when some pair holds it.
proof fn lemma_map_of_contains(pairs: Seq<(String, String)>, k: Seq<char>)
    ensures
        map_of(pairs).contains_key(k) <==> exists|i: int| 0 <= i < pairs.len() && pairs[i].0@ == k,
    decreases pairs.len(),
{
    if pairs.len() > 0 {
        lemma_map_of_contains(pairs.drop_last(), k);
        if pairs.last().0@ == k {
            assert(pairs[pairs.len() - 1].0@ == k);
        } else if map_of(pairs).contains_key(k) {
            let i = choose|i: int| 0 <= i < pairs.len() - 1 && pairs.drop_last()[i].0@ == k;
            assert(pairs[i].0@ == k);
        } else if exists|i: int| 0 <= i < pairs.len() && pairs[i].0@ == k {
            let i = choose|i: int| 0 <= i < pairs.len() && pairs[i].0@ == k;
            assert(pairs.drop_last()[i].0@ == k);
        }
    }
}

/// With unique keys, the pair holding a key gives the map's value for it.
proof fn lemma_map_of_at(pairs: Seq<(String, String)>, i: int)
    requires
        keys_unique(pairs),
        0 <= i < pairs.len(),
    ensures
        map_of(pairs).contains_key(pairs[i].0@),
        map_of(pairs)[pairs[i].0@] == pairs[i].1@,
    decreases pairs.len(),
{
    if i == pairs.len() - 1 {
    } else {
        lemma_map_of_at(pairs.drop_last(), i);
        assert(pairs.drop_last()[i] == pairs[i]);
        assert(pairs[i].0@ != pairs.last().0@);
    }
}

/// Appending a pair inserts its binding.
proof fn lemma_map_of_push(pairs: Seq<(String, String)>, p: (String, String))
    ensures
        map_of(pairs.push(p)) == map_of(pairs).insert(p.0@, p.1@),
{
    assert(pairs.push(p).drop_last() =~= pairs);
    assert(pairs.push(p).last() == p);
}

/// With unique keys, removing the pair at `i` removes exactly its binding.
proof fn lemma_map_of_remove(pairs: Seq<(String, String)>, i: int)
    requires
        keys_unique(pairs),
        0 <= i < pairs.len(),
    ensures
        map_of(pairs.remove(i)) =~= map_of(pairs).remove(pairs[i].0@),
        keys_unique(pairs.remove(i)),
    decreases pairs.len(),
{
    assert forall|a: int, b: int| 0 <= a < b < pairs.remove(i).len() implies pairs.remove(i)[a].0@
        != pairs.remove(i)[b].0@ by {
        if b < i {
            assert(pairs.remove(i)[a] == pairs[a]);
            assert(pairs.remove(i)[b] == pairs[b]);
        } else if a < i {
            assert(pairs.remove(i)[a] == pairs[a]);
            assert(pairs.remove(i)[b] == pairs[b + 1]);
        } else {
            assert(pairs.remove(i)[a] == pairs[a + 1]);
            assert(pairs.remove(i)[b] == pairs[b + 1]);
        }
    }
    if i == pairs.len() - 1 {
        assert(pairs.remove(i) =~= pairs.drop_last());
        lemma_map_of_contains(pairs.drop_last(), pairs[i].0@);
        assert(forall|j: int|
            0 <= j < pairs.drop_last().len() ==> pairs.drop_last()[j].0@ != pairs[i].0@);
        assert(!map_of(pairs.drop_last()).contains_key(pairs[i].0@));
        assert(map_of(pairs.drop_last()) =~= map_of(pairs).remove(pairs[i].0@));
    } else {
        lemma_map_of_remove(pairs.drop_last(), i);
        assert(pairs.remove(i).drop_last() =~= pairs.drop_last().remove(i));
        assert(pairs.remove(i).last() == pairs.last());
        assert(pairs[i].0@ != pairs.last().0@);
    }
}

/// The store itself. Shared by all connection handlers of the surrounding
/// service; this type holds the data and the mapping discipline, and leaves
/// lock arbitration to its owner.
pub struct Store {
    pairs: Vec<(String, String)>,
}

impl View for Store {
    type V = Map<Seq<char>, Seq<char>>;

    closed spec fn view(&self) -> Map<Seq<char>, Seq<char>> {
        map_of(self.pairs@)
    }
}

impl Store {
    /// Well-formed: the pair list keeps keys unique. Constructors establish
    /// it and every method preserves it.
    pub closed spec fn wf(&self) -> bool {
        keys_unique(self.pairs@)
    }

    /// A store with no entries.
    pub fn new() -> (r: Store)
        ensures
            r@ == Map::<Seq<char>, Seq<char>>::empty(),
            r.wf(),
    {
        Store { pairs: Vec::new() }
    }

    /// Index of the pair holding `key`, if any.
    fn find(&self, key: &str) -> (r: Option<usize>)
        ensures
            match r {
                Some(i) => i < self.pairs@.len() && self.pairs@[i as int].0@ == key@,
                None => forall|j: int| 0 <= j < self.pairs@.len() ==> self.pairs@[j].0@ != key@,
            },
    {
        let mut i: usize = 0;
        while i < self.pairs.len()
            invariant
                i <= self.pairs@.len(),
                forall|j: int| 0 <= j < i ==> self.pairs@[j].0@ != key@,
            decreases self.pairs@.len() - i,
        {
            if str_eq(self.pairs[i].0.as_str(), key) {
                return Some(i);
            }
            i += 1;
        }
        None
    }

    /// Whether `key` has a value.
    pub fn contains(&self, key: &str) -> (r: bool)
        ensures
            r == self@.contains_key(key@),
    {
        let r = self.find(key);
        proof {
            lemma_map_of_contains(self.pairs@, key@);
        }
        r.is_some()
    }

    /// The value under `key`, if any.
    pub fn get(&self, key: &str) -> (r: Option<String>)
        requires
            self.wf(),
        ensures
            r is Some <==> self@.contains_key(key@),
            r matches Some(v) ==> v@ == self@[key@],
    {
        proof {
            lemma_map_of_contains(self.pairs@, key@);
        }
        match self.find(key) {
            Some(i) => {
                proof {
                    lemma_map_of_at(self.pairs@, i as int);
                }
                Some(self.pairs[i].1.clone())
            },
            None => None,
        }
    }

    /// Stores `val` under `key`, overwriting unconditionally; returns the
    /// previous value, if any.
    pub fn set(&mut self, key: &str, val: &str) -> (prev: Option<String>)
        requires
            old(self).wf(),
        ensures
            final(self).wf(),
            final(self)@ == old(self)@.insert(key@, val@),
            prev is Some <==> old(self)@.contains_key(key@),
            prev matches Some(v) ==> v@ == old(self)@[key@],
    {
        proof {
            lemma_map_of_contains(self.pairs@, key@);
        }
        let found = self.find(key);
        let ghost pairs0 = self.pairs@;
        let prev = match found {
            Some(i) => {
                proof {
                    lemma_map_of_at(self.pairs@, i as int);
                    lemma_map_of_remove(self.pairs@, i as int);
                }
                let p = self.pairs.remove(i);
                Some(p.1)
            },
            None => None,
        };
        let ghost pairs1 = self.pairs@;
        let entry = (key.to_owned(), val.to_owned());
        let ghost e = entry;
        self.pairs.push(entry);
        proof {
            lemma_map_of_push(pairs1, e);
            lemma_map_of_contains(pairs1, key@);
            assert forall|j: int| 0 <= j < pairs1.len() implies pairs1[j].0@ != key@ by {
                if found is Some {
                    let i = found->0 as int;
                    if j < i {
                        assert(pairs1[j] == pairs0[j]);
                    } else {
                        assert(pairs1[j] == pairs0[j + 1]);
                    }
                }
            }
            assert(map_of(self.pairs@) =~= map_of(pairs0).insert(key@, val@));
        }
        prev
    }

    /// Stores `val` under `key` only when `key` is absent; reports whether it
    /// inserted.
    pub fn set_if_absent(&mut self, key: &str, val: &str) -> (inserted: bool)
        requires
            old(self).wf(),
        ensures
            final(self).wf(),
            inserted == !old(self)@.contains_key(key@),
            final(self)@ == if old(self)@.contains_key(key@) {
                old(self)@
            } else {
                old(self)@.insert(key@, val@)
            },
    {
        proof {
            lemma_map_of_contains(self.pairs@, key@);
        }
        if self.contains(key) {
            return false;
        }
        let ghost pairs0 = self.pairs@;
        let entry = (key.to_owned(), val.to_owned());
        let ghost e = entry;
        self.pairs.push(entry);
        proof {
            lemma_map_of_push(pairs0, e);
        }
        true
    }

    /// Removes `key`'s entry; reports whether one existed.
    pub fn remove(&mut self, key: &str) -> (removed: bool)
        requires
            old(self).wf(),
        ensures
            final(self).wf(),
            removed == old(self)@.contains_key(key@),
            final(self)@ == old(self)@.remove(key@),
    {
        proof {
            lemma_map_of_contains(self.pairs@, key@);
        }
        match self.find(key) {
            Some(i) => {
                proof {
                    lemma_map_of_remove(self.pairs@, i as int);
                }
                self.pairs.remove(i);
                true
            },
            None => {
                proof {
                    assert(self@ =~= self@.remove(key@));
                }
                false
            },
        }
    }

    /// Removes every present key of `keys` in one pass, counting how many
    /// were present and removed.
    pub fn remove_many(&mut self, keys: &Vec<String>) -> (count: usize)
        requires
            old(self).wf(),
        ensures
            final(self).wf(),
            final(self)@ == map_after_del(old(self)@, keys.deep_view()),
            count as int == del_count(old(self)@, keys.deep_view()),
            count <= keys@.len(),
    {
        let ghost m0 = self@;
        let ghost kv = keys.deep_view();
        proof {
            assert(kv.skip(0) =~= kv);
        }
        let mut count: usize = 0;
        let mut j: usize = 0;
        while j < keys.len()
            invariant
                self.wf(),
                j <= keys@.len(),
                count <= j,
                kv == keys.deep_view(),
                kv.len() == keys@.len(),
                map_after_del(m0, kv) == map_after_del(self@, kv.skip(j as int)),
                del_count(m0, kv) == count + del_count(self@, kv.skip(j as int)),
            decreases keys@.len() - j,
        {
            let ghost pre = self@;
            proof {
                assert(kv.skip(j as int)[0] == kv[j as int]);
                assert(kv[j as int] == keys@[j as int]@);
                assert(kv.skip(j as int).drop_first() =~= kv.skip(j as int + 1));
            }
            let removed = self.remove(keys[j].as_str());
            if removed {
                count += 1;
            }
            j += 1;
        }
        proof {
            assert(kv.skip(keys@.len() as int) =~= Seq::<Seq<char>>::empty());
        }
        count
    }
}

} // verus!
