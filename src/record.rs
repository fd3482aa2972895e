//! The two kinds of stored record: pairs and the metadata attached to them.
use vstd::prelude::*;
use crate::key::ContentKey;

verus! {

/// What a `Pair` holds: its key and its content.
pub struct PairView {
    pub key: Seq<u8>,
    pub content: Seq<char>,
}

/// An immutable content-addressed record. Its key is derived from its content
/// by the producer of the record (a content hash) and travels with it.
#[derive(Debug)]
pub struct Pair {
    key: ContentKey,
    content: String,
}

impl View for Pair {
    type V = PairView;

    closed spec fn view(&self) -> PairView {
        PairView { key: self.key@, content: self.content@ }
    }
}

impl Pair {
    pub fn new(key: ContentKey, content: String) -> (r: Pair)
        ensures
            r@ == (PairView { key: key@, content: content@ }),
    {
        Pair { key, content }
    }

    /// The key under which this pair is stored.
    pub fn key(&self) -> (r: ContentKey)
        ensures
            r@ == self@.key,
    {
        self.key.clone()
    }

    pub fn content(&self) -> (r: String)
        ensures
            r@ == self@.content,
    {
        self.content.clone()
    }
}

impl Clone for Pair {
    fn clone(&self) -> (r: Pair)
        ensures
            r@ == self@,
    {
        Pair { key: self.key.clone(), content: self.content.clone() }
    }
}

impl PartialEq for Pair {
    fn eq(&self, other: &Pair) -> (r: bool) {
        self.key == other.key && self.content == other.content
    }
}

impl Eq for Pair {
}

impl vstd::std_specs::cmp::PartialEqSpecImpl for Pair {
    open spec fn obeys_eq_spec() -> bool {
        true
    }

    open spec fn eq_spec(&self, other: &Pair) -> bool {
        self@ == other@
    }
}

/// What a `PairMeta` holds: its own key, the key of the pair it is about,
/// and an attribute with its value.
pub struct PairMetaView {
    pub key: Seq<u8>,
    pub pair_hash: Seq<u8>,
    pub attribute: Seq<char>,
    pub value: Seq<char>,
}

/// A metadata record about the pair whose key is `pair_hash`, itself stored
/// under its own key. Nothing requires that pair to be stored.
#[derive(Debug)]
pub struct PairMeta {
    key: ContentKey,
    pair_hash: ContentKey,
    attribute: String,
    value: String,
}

impl View for PairMeta {
    type V = PairMetaView;

    closed spec fn view(&self) -> PairMetaView {
        PairMetaView {
            key: self.key@,
            pair_hash: self.pair_hash@,
            attribute: self.attribute@,
            value: self.value@,
        }
    }
}

impl PairMeta {
    pub fn new(key: ContentKey, pair_hash: ContentKey, attribute: String, value: String) -> (r:
        PairMeta)
        ensures
            r@ == (PairMetaView {
                key: key@,
                pair_hash: pair_hash@,
                attribute: attribute@,
                value: value@,
            }),
    {
        PairMeta { key, pair_hash, attribute, value }
    }

    /// The key under which this record is stored.
    pub fn key(&self) -> (r: ContentKey)
        ensures
            r@ == self@.key,
    {
        self.key.clone()
    }

    /// The key of the pair this record is about.
    pub fn pair_hash(&self) -> (r: ContentKey)
        ensures
            r@ == self@.pair_hash,
    {
        self.pair_hash.clone()
    }

    pub fn attribute(&self) -> (r: String)
        ensures
            r@ == self@.attribute,
    {
        self.attribute.clone()
    }

    pub fn value(&self) -> (r: String)
        ensures
            r@ == self@.value,
    {
        self.value.clone()
    }

    /// Compares the key of this record with `other` without copying it.
    pub fn key_compare(&self, other: &ContentKey) -> (r: crate::key::KeyOrder)
        ensures
            r == crate::key::KeyOrder::Less <==> crate::key::key_lt(self@.key, other@),
            r == crate::key::KeyOrder::Equal <==> self@.key == other@,
            r == crate::key::KeyOrder::Greater <==> crate::key::key_lt(other@, self@.key),
    {
        self.key.compare(other)
    }

    /// Whether this record is about the pair with key `pair_key`.
    pub fn is_about(&self, pair_key: &ContentKey) -> (r: bool)
        ensures
            r == (self@.pair_hash == pair_key@),
    {
        self.pair_hash == *pair_key
    }
}

impl Clone for PairMeta {
    fn clone(&self) -> (r: PairMeta)
        ensures
            r@ == self@,
    {
        PairMeta {
            key: self.key.clone(),
            pair_hash: self.pair_hash.clone(),
            attribute: self.attribute.clone(),
            value: self.value.clone(),
        }
    }
}

impl PartialEq for PairMeta {
    fn eq(&self, other: &PairMeta) -> (r: bool) {
        self.key == other.key && self.pair_hash == other.pair_hash && self.attribute
            == other.attribute && self.value == other.value
    }
}

impl Eq for PairMeta {
}

impl vstd::std_specs::cmp::PartialEqSpecImpl for PairMeta {
    open spec fn obeys_eq_spec() -> bool {
        true
    }

    open spec fn eq_spec(&self, other: &PairMeta) -> bool {
        self@ == other@
    }
}

} // verus!
