//! A backend that keeps every record in memory.
use vstd::prelude::*;
use crate::error::StorageError;
use crate::hash_table::{ascending_by_key, meta_views, HashTable};
use crate::key::{key_lt, lemma_key_lt_irreflexive, lemma_key_lt_total, lemma_key_lt_transitive, ContentKey, KeyOrder};
use crate::record::{Pair, PairMeta, PairMetaView, PairView};

verus! {

/// Pairs and metadata held in two vectors. Pair keys are distinct; metadata
/// records are kept in ascending order of their keys, so a listing needs no
/// sort.
pub struct MemTable {
    pairs: Vec<Pair>,
    meta: Vec<PairMeta>,
    pair_map: Ghost<Map<Seq<u8>, PairView>>,
    meta_map: Ghost<Map<Seq<u8>, PairMetaView>>,
}

impl MemTable {
    /// An empty table.
    pub fn new() -> (r: MemTable)
        ensures
            r.inv(),
            r.pairs() == Map::<Seq<u8>, PairView>::empty(),
            r.metas() == Map::<Seq<u8>, PairMetaView>::empty(),
    {
        MemTable {
            pairs: Vec::new(),
            meta: Vec::new(),
            pair_map: Ghost(Map::empty()),
            meta_map: Ghost(Map::empty()),
        }
    }

    /// The position of the pair with key `key`.
    fn find_pair(&self, key: &ContentKey) -> (r: Option<usize>)
        requires
            self.inv(),
        ensures
            match r {
                Some(i) => i < self.pairs@.len() && self.pairs@[i as int]@.key == key@,
                None => !self.pair_map@.contains_key(key@),
            },
    {
        let mut i: usize = 0;
        while i < self.pairs.len()
            invariant
                self.inv(),
                i <= self.pairs@.len(),
                forall|j: int| 0 <= j < i ==> (#[trigger] self.pairs@[j])@.key != key@,
            decreases self.pairs@.len() - i,
        {
            let k = self.pairs[i].key();
            if k == *key {
                return Some(i);
            }
            i = i + 1;
        }
        None
    }

    /// The first position whose metadata key is not below `key`.
    fn meta_position(&self, key: &ContentKey) -> (r: usize)
        requires
            self.inv(),
        ensures
            r <= self.meta@.len(),
            forall|j: int| 0 <= j < r ==> key_lt((#[trigger] self.meta@[j])@.key, key@),
            r < self.meta@.len() ==> !key_lt(self.meta@[r as int]@.key, key@),
            r < self.meta@.len() && self.meta@[r as int]@.key != key@ ==> key_lt(
                key@,
                self.meta@[r as int]@.key,
            ),
            !(r < self.meta@.len() && self.meta@[r as int]@.key == key@)
                ==> !self.meta_map@.contains_key(key@),
    {
        let mut i: usize = 0;
        while i < self.meta.len()
            invariant
                self.inv(),
                i <= self.meta@.len(),
                forall|j: int| 0 <= j < i ==> key_lt((#[trigger] self.meta@[j])@.key, key@),
            decreases self.meta@.len() - i,
        {
            if self.meta[i].key_compare(key) != KeyOrder::Less {
                proof {
                    self.lemma_absent_from(i as int, key@);
                }
                return i;
            }
            i = i + 1;
        }
        proof {
            self.lemma_absent_from(i as int, key@);
        }
        i
    }

    /// Where every key before `r` is below `key` and the key at `r`, if any,
    /// is not below it, `key` can only be stored at `r`.
    proof fn lemma_absent_from(&self, r: int, key: Seq<u8>)
        requires
            self.inv(),
            0 <= r <= self.meta@.len(),
            forall|j: int| 0 <= j < r ==> key_lt((#[trigger] self.meta@[j])@.key, key),
            r < self.meta@.len() ==> !key_lt(self.meta@[r]@.key, key),
        ensures
            r < self.meta@.len() && self.meta@[r]@.key != key ==> key_lt(key, self.meta@[r]@.key),
            !(r < self.meta@.len() && self.meta@[r]@.key == key) ==> !self.meta_map@.contains_key(
                key,
            ),
    {
        if r < self.meta@.len() && self.meta@[r]@.key != key {
            lemma_key_lt_total(key, self.meta@[r]@.key);
        }
        if !(r < self.meta@.len() && self.meta@[r]@.key == key) && self.meta_map@.contains_key(key) {
            let j = choose|j: int| 0 <= j < self.meta@.len() && (#[trigger] self.meta@[j])@.key == key;
            if j < r {
                lemma_key_lt_irreflexive(key);
            } else {
                assert(j > r);
                assert(meta_views(self.meta@)[r].key == self.meta@[r]@.key);
                assert(meta_views(self.meta@)[j].key == self.meta@[j]@.key);
                assert(key_lt(meta_views(self.meta@)[r].key, meta_views(self.meta@)[j].key));
            }
        }
    }
}

impl HashTable for MemTable {
    closed spec fn pairs(&self) -> Map<Seq<u8>, PairView> {
        self.pair_map@
    }

    closed spec fn metas(&self) -> Map<Seq<u8>, PairMetaView> {
        self.meta_map@
    }

    closed spec fn inv(&self) -> bool {
        &&& forall|i: int|
            0 <= i < self.pairs@.len() ==> {
                &&& self.pair_map@.contains_key((#[trigger] self.pairs@[i])@.key)
                &&& self.pair_map@[self.pairs@[i]@.key] == self.pairs@[i]@
            }
        &&& forall|k: Seq<u8>|
            #[trigger] self.pair_map@.contains_key(k) ==> exists|i: int|
                0 <= i < self.pairs@.len() && (#[trigger] self.pairs@[i])@.key == k
        &&& forall|i: int, j: int|
            0 <= i < self.pairs@.len() && 0 <= j < self.pairs@.len() && i != j ==> (
            #[trigger] self.pairs@[i])@.key != (#[trigger] self.pairs@[j])@.key
        &&& ascending_by_key(meta_views(self.meta@))
        &&& forall|i: int|
            0 <= i < self.meta@.len() ==> {
                &&& self.meta_map@.contains_key((#[trigger] self.meta@[i])@.key)
                &&& self.meta_map@[self.meta@[i]@.key] == self.meta@[i]@
            }
        &&& forall|k: Seq<u8>|
            #[trigger] self.meta_map@.contains_key(k) ==> exists|i: int|
                0 <= i < self.meta@.len() && (#[trigger] self.meta@[i])@.key == k
    }

    proof fn lemma_metas_keyed(&self) {
        assert forall|k: Seq<u8>| #[trigger] self.meta_map@.contains_key(k) implies self.meta_map@[k].key == k by {
            let i = choose|i: int| 0 <= i < self.meta@.len() && (#[trigger] self.meta@[i])@.key == k;
        }
    }

    fn put_pair(&mut self, pair: &Pair) -> (r: Result<(), StorageError>)
        ensures
            r is Ok,
    {
        let key = pair.key();
        let ghost old_pairs = self.pairs@;
        let ghost new_map = self.pair_map@.insert(pair@.key, pair@);
        match self.find_pair(&key) {
            Some(i) => {
                self.pairs[i] = pair.clone();
                self.pair_map = Ghost(new_map);
                assert forall|k: Seq<u8>| #[trigger] new_map.contains_key(k) implies exists|j: int|
                    0 <= j < self.pairs@.len() && (#[trigger] self.pairs@[j])@.key == k by {
                    if k != pair@.key {
                        let j = choose|j: int|
                            0 <= j < old_pairs.len() && (#[trigger] old_pairs[j])@.key == k;
                        assert(self.pairs@[j] == old_pairs[j]);
                    } else {
                        assert(self.pairs@[i as int]@.key == k);
                    }
                }
            },
            None => {
                self.pairs.push(pair.clone());
                self.pair_map = Ghost(new_map);
                assert forall|k: Seq<u8>| #[trigger] new_map.contains_key(k) implies exists|j: int|
                    0 <= j < self.pairs@.len() && (#[trigger] self.pairs@[j])@.key == k by {
                    if k != pair@.key {
                        let j = choose|j: int|
                            0 <= j < old_pairs.len() && (#[trigger] old_pairs[j])@.key == k;
                        assert(self.pairs@[j] == old_pairs[j]);
                    } else {
                        assert(self.pairs@[old_pairs.len() as int]@.key == k);
                    }
                }
            },
        }
        Ok(())
    }

    fn pair(&self, key: &ContentKey) -> (r: Result<Option<Pair>, StorageError>)
        ensures
            r is Ok,
    {
        match self.find_pair(key) {
            Some(i) => Ok(Some(self.pairs[i].clone())),
            None => Ok(None),
        }
    }

    fn assert_pair_meta(&mut self, meta: &PairMeta) -> (r: Result<(), StorageError>)
        ensures
            r is Ok,
    {
        let key = meta.key();
        let i = self.meta_position(&key);
        let ghost old_meta = self.meta@;
        let ghost old_map = self.meta_map@;
        let ghost new_map = self.meta_map@.insert(meta@.key, meta@);
        proof {
            assert forall|a: int, b: int| 0 <= a < b < old_meta.len() implies key_lt(
                (#[trigger] old_meta[a])@.key,
                (#[trigger] old_meta[b])@.key,
            ) by {
                assert(meta_views(old_meta)[a] == old_meta[a]@);
                assert(meta_views(old_meta)[b] == old_meta[b]@);
            }
        }
        if i < self.meta.len() && self.meta[i].key_compare(&key) == KeyOrder::Equal {
            self.meta[i] = meta.clone();
            self.meta_map = Ghost(new_map);
            let ghost nm = self.meta@;
            assert forall|a: int| 0 <= a < nm.len() implies (#[trigger] nm[a])@ == if a == i {
                meta@
            } else {
                old_meta[a]@
            } by {}
            assert forall|a: int, b: int| 0 <= a < b < nm.len() implies key_lt(
                (#[trigger] meta_views(nm)[a]).key,
                (#[trigger] meta_views(nm)[b]).key,
            ) by {
                assert(meta_views(nm)[a] == nm[a]@);
                assert(meta_views(nm)[b] == nm[b]@);
                assert(key_lt(old_meta[a]@.key, old_meta[b]@.key));
            }
            assert forall|k: Seq<u8>| #[trigger] new_map.contains_key(k) implies exists|j: int|
                0 <= j < nm.len() && (#[trigger] nm[j])@.key == k by {
                if k != meta@.key {
                    assert(old_map.contains_key(k));
                    let j = choose|j: int| 0 <= j < old_meta.len() && (#[trigger] old_meta[j])@.key == k;
                    assert(nm[j] == old_meta[j]);
                } else {
                    assert(nm[i as int]@.key == k);
                }
            }
            assert forall|a: int| 0 <= a < nm.len() implies {
                &&& new_map.contains_key((#[trigger] nm[a])@.key)
                &&& new_map[nm[a]@.key] == nm[a]@
            } by {
                if a != i {
                    assert(nm[a] == old_meta[a]);
                    assert(old_meta[a]@.key != meta@.key) by {
                        if a < i {
                            lemma_key_lt_irreflexive(meta@.key);
                        } else {
                            assert(key_lt(old_meta[i as int]@.key, old_meta[a]@.key));
                            lemma_key_lt_irreflexive(meta@.key);
                        }
                    }
                }
            }
        } else {
            self.meta.insert(i, meta.clone());
            self.meta_map = Ghost(new_map);
            let ghost nm = self.meta@;
            assert forall|a: int| 0 <= a < nm.len() implies (#[trigger] nm[a])@ == if a < i {
                old_meta[a]@
            } else if a == i {
                meta@
            } else {
                old_meta[a - 1]@
            } by {}
            assert forall|a: int, b: int| 0 <= a < b < nm.len() implies key_lt(
                (#[trigger] meta_views(nm)[a]).key,
                (#[trigger] meta_views(nm)[b]).key,
            ) by {
                assert(meta_views(nm)[a] == nm[a]@);
                assert(meta_views(nm)[b] == nm[b]@);
                if b < i {
                } else if b == i {
                } else if a < i {
                    assert(key_lt(meta@.key, old_meta[i as int]@.key));
                    if b - 1 > i {
                        assert(key_lt(old_meta[i as int]@.key, old_meta[b - 1]@.key));
                        lemma_key_lt_transitive(meta@.key, old_meta[i as int]@.key, old_meta[b - 1]@.key);
                    }
                    lemma_key_lt_transitive(old_meta[a]@.key, meta@.key, old_meta[b - 1]@.key);
                } else if a == i {
                    if b - 1 > i {
                        assert(key_lt(old_meta[i as int]@.key, old_meta[b - 1]@.key));
                        lemma_key_lt_transitive(meta@.key, old_meta[i as int]@.key, old_meta[b - 1]@.key);
                    }
                } else {
                }
            }
            assert forall|k: Seq<u8>| #[trigger] new_map.contains_key(k) implies exists|j: int|
                0 <= j < nm.len() && (#[trigger] nm[j])@.key == k by {
                if k != meta@.key {
                    assert(old_map.contains_key(k));
                    let j = choose|j: int| 0 <= j < old_meta.len() && (#[trigger] old_meta[j])@.key == k;
                    if j < i {
                        assert(nm[j]@.key == k);
                    } else {
                        assert(nm[j + 1]@.key == k);
                    }
                } else {
                    assert(nm[i as int]@.key == k);
                }
            }
            assert forall|a: int| 0 <= a < nm.len() implies {
                &&& new_map.contains_key((#[trigger] nm[a])@.key)
                &&& new_map[nm[a]@.key] == nm[a]@
            } by {
                if a < i {
                    lemma_key_lt_irreflexive(meta@.key);
                } else if a > i {
                    if a - 1 > i {
                        assert(key_lt(old_meta[i as int]@.key, old_meta[a - 1]@.key));
                        lemma_key_lt_transitive(meta@.key, old_meta[i as int]@.key, old_meta[a - 1]@.key);
                    }
                    lemma_key_lt_irreflexive(meta@.key);
                }
            }
        }
        assert(self.pairs@ == old(self).pairs@);
        Ok(())
    }

    fn pair_meta(&mut self, key: &ContentKey) -> (r: Result<Option<PairMeta>, StorageError>)
        ensures
            r is Ok,
    {
        let i = self.meta_position(key);
        if i < self.meta.len() && self.meta[i].key_compare(key) == KeyOrder::Equal {
            proof {
                assert(self.meta_map@.contains_key(self.meta@[i as int]@.key));
            }
            Ok(Some(self.meta[i].clone()))
        } else {
            Ok(None)
        }
    }

    fn metas_for_pair(&mut self, pair: &Pair) -> (r: Result<Vec<PairMeta>, StorageError>)
        ensures
            r is Ok,
    {
        let pair_key = pair.key();
        let mut found: Vec<PairMeta> = Vec::new();
        let ghost mut idx: Seq<int> = Seq::empty();
        let mut i: usize = 0;
        proof {
            assert forall|a: int, b: int| 0 <= a < b < self.meta@.len() implies key_lt(
                (#[trigger] self.meta@[a])@.key,
                (#[trigger] self.meta@[b])@.key,
            ) by {
                assert(meta_views(self.meta@)[a] == self.meta@[a]@);
                assert(meta_views(self.meta@)[b] == self.meta@[b]@);
            }
        }
        while i < self.meta.len()
            invariant
                self.inv(),
                forall|a: int, b: int| 0 <= a < b < self.meta@.len() ==> key_lt(
                    (#[trigger] self.meta@[a])@.key,
                    (#[trigger] self.meta@[b])@.key,
                ),
                i <= self.meta@.len(),
                pair_key@ == pair@.key,
                idx.len() == found@.len(),
                forall|a: int|
                    0 <= a < found@.len() ==> 0 <= #[trigger] idx[a] < i && found@[a]@ == self.meta@[idx[a]]@
                        && found@[a]@.pair_hash == pair_key@,
                forall|a: int, b: int| 0 <= a < b < found@.len() ==> #[trigger] idx[a] < #[trigger] idx[b],
                forall|j: int|
                    0 <= j < i && (#[trigger] self.meta@[j])@.pair_hash == pair_key@ ==> exists|a: int|
                        0 <= a < found@.len() && #[trigger] idx[a] == j,
            decreases self.meta@.len() - i,
        {
            if self.meta[i].is_about(&pair_key) {
                found.push(self.meta[i].clone());
                proof {
                    let n = idx.len();
                    let old_idx = idx;
                    idx = idx.push(i as int);
                    assert(idx[n as int] == i);
                    assert forall|j: int|
                        0 <= j <= i && (#[trigger] self.meta@[j])@.pair_hash == pair_key@ implies exists|a: int|
                        0 <= a < found@.len() && #[trigger] idx[a] == j by {
                        if j < i {
                            let a = choose|a: int| 0 <= a < old_idx.len() && #[trigger] old_idx[a] == j;
                            assert(idx[a] == j);
                        }
                    }
                }
            }
            i = i + 1;
        }
        proof {
            let s = meta_views(found@);
            assert forall|a: int, b: int| 0 <= a < b < s.len() implies key_lt(
                #[trigger] s[a].key,
                #[trigger] s[b].key,
            ) by {
                assert(idx[a] < idx[b]);
            }
            assert(ascending_by_key(s));
            assert forall|a: int| 0 <= a < s.len() implies {
                &&& self.meta_map@.contains_key(#[trigger] s[a].key)
                &&& self.meta_map@[s[a].key] == s[a]
                &&& s[a].pair_hash == pair@.key
            } by {
                assert(s[a] == found@[a]@);
                assert(found@[a]@ == self.meta@[idx[a]]@);
            }
            assert forall|k: Seq<u8>|
                #[trigger] self.meta_map@.contains_key(k) && self.meta_map@[k].pair_hash == pair@.key implies s.contains(self.meta_map@[k]) by {
                let j = choose|j: int| 0 <= j < self.meta@.len() && (#[trigger] self.meta@[j])@.key == k;
                let a = choose|a: int| 0 <= a < found@.len() && #[trigger] idx[a] == j;
                assert(s[a] == self.meta_map@[k]);
            }
        }
        Ok(found)
    }
}

} // verus!
