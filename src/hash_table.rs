//! The operations every storage backend offers over pairs and metadata, the
//! abstract state they are specified over, and the laws that state obeys.
use vstd::prelude::*;
use crate::error::StorageError;
use crate::key::{key_lt, lemma_key_lt_irreflexive, lemma_key_lt_transitive, ContentKey};
use crate::record::{Pair, PairMeta, PairMetaView, PairView};

verus! {

/// The record stored under `k`, if any.
pub open spec fn lookup<V>(m: Map<Seq<u8>, V>, k: Seq<u8>) -> Option<V> {
    if m.contains_key(k) {
        Some(m[k])
    } else {
        None
    }
}

pub open spec fn pair_option_view(o: Option<Pair>) -> Option<PairView> {
    match o {
        Some(p) => Some(p@),
        None => None,
    }
}

pub open spec fn meta_option_view(o: Option<PairMeta>) -> Option<PairMetaView> {
    match o {
        Some(m) => Some(m@),
        None => None,
    }
}

pub open spec fn meta_views(v: Seq<PairMeta>) -> Seq<PairMetaView> {
    v.map_values(|m: PairMeta| m@)
}

/// Every metadata record is stored under its own key.
pub open spec fn keyed_by_own_key(metas: Map<Seq<u8>, PairMetaView>) -> bool {
    forall|k: Seq<u8>| #[trigger] metas.contains_key(k) ==> metas[k].key == k
}

/// Keys strictly increase along `s`.
pub open spec fn ascending_by_key(s: Seq<PairMetaView>) -> bool {
    forall|i: int, j: int| 0 <= i < j < s.len() ==> key_lt(#[trigger] s[i].key, #[trigger] s[j].key)
}

/// `s` lists, in ascending key order, exactly the stored metadata records
/// that are about the pair with key `pair_key`.
pub open spec fn is_meta_listing(
    s: Seq<PairMetaView>,
    metas: Map<Seq<u8>, PairMetaView>,
    pair_key: Seq<u8>,
) -> bool {
    &&& ascending_by_key(s)
    &&& forall|i: int|
        0 <= i < s.len() ==> {
            &&& metas.contains_key(#[trigger] s[i].key)
            &&& metas[s[i].key] == s[i]
            &&& s[i].pair_hash == pair_key
        }
    &&& forall|k: Seq<u8>|
        #[trigger] metas.contains_key(k) && metas[k].pair_hash == pair_key ==> s.contains(metas[k])
}

/// The pair store after putting each pair of `ps` in turn.
pub open spec fn after_puts(m: Map<Seq<u8>, PairView>, ps: Seq<PairView>) -> Map<Seq<u8>, PairView>
    decreases ps.len(),
{
    if ps.len() == 0 {
        m
    } else {
        after_puts(m, ps.drop_last()).insert(ps.last().key, ps.last())
    }
}

/// The metadata store after asserting each record of `ms` in turn.
pub open spec fn after_asserts(
    m: Map<Seq<u8>, PairMetaView>,
    ms: Seq<PairMetaView>,
) -> Map<Seq<u8>, PairMetaView>
    decreases ms.len(),
{
    if ms.len() == 0 {
        m
    } else {
        after_asserts(m, ms.drop_last()).insert(ms.last().key, ms.last())
    }
}

/// A pair that was put is found under its key, unchanged.
pub proof fn lemma_put_then_get(pairs: Map<Seq<u8>, PairView>, p: PairView)
    ensures
        lookup(pairs.insert(p.key, p), p.key) == Some(p),
{
}

/// A key that none of the puts used is absent from a store that started empty.
pub proof fn lemma_never_put_is_absent(ps: Seq<PairView>, k: Seq<u8>)
    requires
        forall|i: int| 0 <= i < ps.len() ==> (#[trigger] ps[i]).key != k,
    ensures
        lookup(after_puts(Map::empty(), ps), k) == None::<PairView>,
    decreases ps.len(),
{
    if ps.len() > 0 {
        let rest = ps.drop_last();
        assert forall|i: int| 0 <= i < rest.len() implies (#[trigger] rest[i]).key != k by {
            assert(rest[i] == ps[i]);
        }
        lemma_never_put_is_absent(rest, k);
        assert(ps.last() == ps[ps.len() - 1]);
    }
}

/// Putting the same pair twice leaves the store as putting it once.
pub proof fn lemma_put_idempotent(pairs: Map<Seq<u8>, PairView>, p: PairView)
    ensures
        pairs.insert(p.key, p).insert(p.key, p) == pairs.insert(p.key, p),
        lookup(pairs.insert(p.key, p).insert(p.key, p), p.key) == Some(p),
{
    assert(pairs.insert(p.key, p).insert(p.key, p) =~= pairs.insert(p.key, p));
}

/// An asserted metadata record is found under its own key.
pub proof fn lemma_assert_then_get(metas: Map<Seq<u8>, PairMetaView>, m: PairMetaView)
    ensures
        lookup(metas.insert(m.key, m), m.key) == Some(m),
{
}

/// Asserting a record under a key already used replaces the earlier one.
pub proof fn lemma_assert_overwrites(
    metas: Map<Seq<u8>, PairMetaView>,
    first: PairMetaView,
    second: PairMetaView,
)
    requires
        first.key == second.key,
    ensures
        lookup(metas.insert(first.key, first).insert(second.key, second), first.key) == Some(
            second,
        ),
{
}

/// In a listing, each record appears once, and a record appears exactly when
/// it is stored under its own key and is about the pair.
pub proof fn lemma_listing_members(
    s: Seq<PairMetaView>,
    metas: Map<Seq<u8>, PairMetaView>,
    pair_key: Seq<u8>,
)
    requires
        keyed_by_own_key(metas),
        is_meta_listing(s, metas, pair_key),
    ensures
        s.no_duplicates(),
        forall|m: PairMetaView|
            s.contains(m) <==> (metas.contains_key(m.key) && metas[m.key] == m && m.pair_hash
                == pair_key),
{
    assert forall|i: int, j: int| 0 <= i < s.len() && 0 <= j < s.len() && i != j implies s[i]
        != s[j] by {
        if s[i] == s[j] {
            lemma_key_lt_irreflexive(s[i].key);
        }
    }
    assert forall|m: PairMetaView|
        metas.contains_key(m.key) && metas[m.key] == m && m.pair_hash == pair_key implies s.contains(
        m) by {
        assert(metas.contains_key(m.key));
    }
}

/// Two sequences whose keys strictly increase and that hold the same
/// records are equal.
proof fn lemma_ascending_same_members(s1: Seq<PairMetaView>, s2: Seq<PairMetaView>)
    requires
        ascending_by_key(s1),
        ascending_by_key(s2),
        forall|m: PairMetaView| s1.contains(m) <==> s2.contains(m),
    ensures
        s1 == s2,
    decreases s1.len(),
{
    if s1.len() == 0 {
        if s2.len() > 0 {
            assert(s2.contains(s2[0]));
        }
        assert(s1 =~= s2);
    } else if s2.len() == 0 {
        assert(s1.contains(s1[0]));
    } else {
        if s1[0] != s2[0] {
            assert(s1.contains(s1[0]));
            assert(s2.contains(s2[0]));
            let j = choose|j: int| 0 <= j < s2.len() && s2[j] == s1[0];
            let i = choose|i: int| 0 <= i < s1.len() && s1[i] == s2[0];
            assert(key_lt(s2[0].key, s2[j].key));
            assert(key_lt(s1[0].key, s1[i].key));
            lemma_key_lt_transitive(s1[0].key, s2[0].key, s1[0].key);
            lemma_key_lt_irreflexive(s1[0].key);
        }
        let t1 = s1.drop_first();
        let t2 = s2.drop_first();
        assert forall|m: PairMetaView| t1.contains(m) implies t2.contains(m) by {
            let i = choose|i: int| 0 <= i < t1.len() && t1[i] == m;
            assert(s1[i + 1] == m);
            assert(key_lt(s1[0].key, s1[i + 1].key));
            lemma_key_lt_irreflexive(m.key);
            assert(s2.contains(m));
            let j = choose|j: int| 0 <= j < s2.len() && s2[j] == m;
            assert(t2[j - 1] == m);
        }
        assert forall|m: PairMetaView| t2.contains(m) implies t1.contains(m) by {
            let j = choose|j: int| 0 <= j < t2.len() && t2[j] == m;
            assert(s2[j + 1] == m);
            assert(key_lt(s2[0].key, s2[j + 1].key));
            lemma_key_lt_irreflexive(m.key);
            assert(s1.contains(m));
            let i = choose|i: int| 0 <= i < s1.len() && s1[i] == m;
            assert(t1[i - 1] == m);
        }
        assert forall|a: int, b: int| 0 <= a < b < t1.len() implies key_lt(
            #[trigger] t1[a].key,
            #[trigger] t1[b].key,
        ) by {
            assert(t1[a] == s1[a + 1] && t1[b] == s1[b + 1]);
        }
        assert forall|a: int, b: int| 0 <= a < b < t2.len() implies key_lt(
            #[trigger] t2[a].key,
            #[trigger] t2[b].key,
        ) by {
            assert(t2[a] == s2[a + 1] && t2[b] == s2[b + 1]);
        }
        lemma_ascending_same_members(t1, t2);
        assert(s1.len() == s2.len());
        assert forall|i: int| 0 <= i < s1.len() implies s1[i] == s2[i] by {
            if i > 0 {
                assert(s1[i] == t1[i - 1] && s2[i] == t2[i - 1]);
            }
        }
        assert(s1 =~= s2);
    }
}

/// A listing is determined by the stored records: on unchanged state,
/// repeated listings are identical.
pub proof fn lemma_listing_deterministic(
    s1: Seq<PairMetaView>,
    s2: Seq<PairMetaView>,
    metas: Map<Seq<u8>, PairMetaView>,
    pair_key: Seq<u8>,
)
    requires
        keyed_by_own_key(metas),
        is_meta_listing(s1, metas, pair_key),
        is_meta_listing(s2, metas, pair_key),
    ensures
        s1 == s2,
{
    lemma_listing_members(s1, metas, pair_key);
    lemma_listing_members(s2, metas, pair_key);
    lemma_ascending_same_members(s1, s2);
}

/// The store after asserting records with distinct keys into an empty store
/// holds each of them under its key, and nothing else.
proof fn lemma_after_asserts_distinct(ms: Seq<PairMetaView>)
    requires
        forall|i: int, j: int|
            0 <= i < ms.len() && 0 <= j < ms.len() && i != j ==> (#[trigger] ms[i]).key != (
            #[trigger] ms[j]).key,
    ensures
        forall|k: Seq<u8>|
            #[trigger] after_asserts(Map::empty(), ms).contains_key(k) ==> exists|i: int|
                0 <= i < ms.len() && ms[i].key == k && after_asserts(Map::empty(), ms)[k] == ms[i],
        forall|i: int|
            0 <= i < ms.len() ==> after_asserts(Map::empty(), ms).contains_key((#[trigger] ms[i]).key)
                && after_asserts(Map::empty(), ms)[ms[i].key] == ms[i],
    decreases ms.len(),
{
    if ms.len() > 0 {
        let rest = ms.drop_last();
        assert forall|i: int, j: int|
            0 <= i < rest.len() && 0 <= j < rest.len() && i != j implies (#[trigger] rest[i]).key
            != (#[trigger] rest[j]).key by {
            assert(rest[i] == ms[i] && rest[j] == ms[j]);
        }
        lemma_after_asserts_distinct(rest);
        let m = after_asserts(Map::<Seq<u8>, PairMetaView>::empty(), ms);
        let last = ms.len() - 1;
        assert(ms.last() == ms[last]);
        assert forall|k: Seq<u8>| #[trigger] m.contains_key(k) implies exists|i: int|
            0 <= i < ms.len() && ms[i].key == k && m[k] == ms[i] by {
            if k != ms[last].key {
                let i = choose|i: int|
                    0 <= i < rest.len() && rest[i].key == k && after_asserts(
                        Map::<Seq<u8>, PairMetaView>::empty(),
                        rest,
                    )[k] == rest[i];
                assert(ms[i] == rest[i]);
            }
        }
        assert forall|i: int| 0 <= i < ms.len() implies m.contains_key((#[trigger] ms[i]).key)
            && m[ms[i].key] == ms[i] by {
            if i < last {
                assert(rest[i] == ms[i]);
            }
        }
    }
}

/// After asserting records with distinct keys, all about one pair, into an
/// empty store, a listing for that pair holds exactly those records, each once.
pub proof fn lemma_listing_is_asserted_set(
    ms: Seq<PairMetaView>,
    pair_key: Seq<u8>,
    s: Seq<PairMetaView>,
)
    requires
        forall|i: int, j: int|
            0 <= i < ms.len() && 0 <= j < ms.len() && i != j ==> (#[trigger] ms[i]).key != (
            #[trigger] ms[j]).key,
        forall|i: int| 0 <= i < ms.len() ==> (#[trigger] ms[i]).pair_hash == pair_key,
        is_meta_listing(s, after_asserts(Map::empty(), ms), pair_key),
    ensures
        s.to_set() == ms.to_set(),
        s.len() == ms.len(),
{
    let m = after_asserts(Map::<Seq<u8>, PairMetaView>::empty(), ms);
    lemma_after_asserts_distinct(ms);
    assert(keyed_by_own_key(m));
    lemma_listing_members(s, m, pair_key);
    assert forall|v: PairMetaView| s.contains(v) <==> ms.contains(v) by {
        if ms.contains(v) {
            let i = choose|i: int| 0 <= i < ms.len() && ms[i] == v;
            assert(m.contains_key(ms[i].key));
        }
        if s.contains(v) {
            let i = choose|i: int| 0 <= i < ms.len() && ms[i].key == v.key && m[v.key] == ms[i];
        }
    }
    assert(s.to_set() =~= ms.to_set());
    s.unique_seq_to_set();
    assert(ms.no_duplicates());
    ms.unique_seq_to_set();
}

/// A pair that no stored record is about has an empty listing.
pub proof fn lemma_listing_empty(
    s: Seq<PairMetaView>,
    metas: Map<Seq<u8>, PairMetaView>,
    pair_key: Seq<u8>,
)
    requires
        forall|k: Seq<u8>| #[trigger] metas.contains_key(k) ==> metas[k].pair_hash != pair_key,
        is_meta_listing(s, metas, pair_key),
    ensures
        s.len() == 0,
{
    if s.len() > 0 {
        assert(metas.contains_key(s[0].key));
    }
}

/// A storage backend for pairs and their metadata. Its state is two maps,
/// `pairs` and `metas`, from key to record. Every operation either succeeds
/// with the effect stated below or fails with a `StorageError` and leaves
/// both maps as they were.
pub trait HashTable: Sized {
    /// The stored pairs, by key.
    spec fn pairs(&self) -> Map<Seq<u8>, PairView>;

    /// The stored metadata records, by key.
    spec fn metas(&self) -> Map<Seq<u8>, PairMetaView>;

    /// The backend's internal consistency.
    spec fn inv(&self) -> bool;

    proof fn lemma_metas_keyed(&self)
        requires
            self.inv(),
        ensures
            keyed_by_own_key(self.metas()),
    ;

    /// Stores `pair` under its own key; storing it again changes nothing.
    fn put_pair(&mut self, pair: &Pair) -> (r: Result<(), StorageError>)
        requires
            old(self).inv(),
        ensures
            final(self).inv(),
            final(self).metas() == old(self).metas(),
            r is Ok ==> final(self).pairs() == old(self).pairs().insert(pair@.key, pair@),
            r is Err ==> final(self).pairs() == old(self).pairs(),
    ;

    /// A copy of the pair stored under `key`; `None` where there is none.
    fn pair(&self, key: &ContentKey) -> (r: Result<Option<Pair>, StorageError>)
        requires
            self.inv(),
        ensures
            r matches Ok(o) ==> pair_option_view(o) == lookup(self.pairs(), key@),
    ;

    /// Stores `meta` under its own key, replacing any record under that key.
    /// Whether the pair it is about is stored is not checked.
    fn assert_pair_meta(&mut self, meta: &PairMeta) -> (r: Result<(), StorageError>)
        requires
            old(self).inv(),
        ensures
            final(self).inv(),
            final(self).pairs() == old(self).pairs(),
            r is Ok ==> final(self).metas() == old(self).metas().insert(meta@.key, meta@),
            r is Err ==> final(self).metas() == old(self).metas(),
    ;

    /// A copy of the metadata record stored under `key`; `None` where there
    /// is none.
    fn pair_meta(&mut self, key: &ContentKey) -> (r: Result<Option<PairMeta>, StorageError>)
        requires
            old(self).inv(),
        ensures
            final(self).inv(),
            final(self).pairs() == old(self).pairs(),
            final(self).metas() == old(self).metas(),
            r matches Ok(o) ==> meta_option_view(o) == lookup(old(self).metas(), key@),
    ;

    /// Copies of every stored metadata record about `pair`, in ascending
    /// order of their own keys.
    fn metas_for_pair(&mut self, pair: &Pair) -> (r: Result<Vec<PairMeta>, StorageError>)
        requires
            old(self).inv(),
        ensures
            final(self).inv(),
            final(self).pairs() == old(self).pairs(),
            final(self).metas() == old(self).metas(),
            r matches Ok(v) ==> is_meta_listing(meta_views(v@), old(self).metas(), pair@.key),
    ;
}

/// On any backend, two listings for one pair taken from the same stored
/// state are identical.
pub proof fn lemma_backend_listing_deterministic<T: HashTable>(
    table: &T,
    s1: Seq<PairMetaView>,
    s2: Seq<PairMetaView>,
    pair_key: Seq<u8>,
)
    requires
        table.inv(),
        is_meta_listing(s1, table.metas(), pair_key),
        is_meta_listing(s2, table.metas(), pair_key),
    ensures
        s1 == s2,
{
    table.lemma_metas_keyed();
    lemma_listing_deterministic(s1, s2, table.metas(), pair_key);
}

} // verus!
