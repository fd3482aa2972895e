//! Content-derived keys and the total order used to list records.
use vstd::prelude::*;
use vstd::string::StringSliceAdditionalSpecFns;
use vstd::string::StrSliceExecFns;

verus! {

/// Strict lexicographic order on byte sequences: a proper prefix comes first,
/// otherwise the first differing byte decides.
pub open spec fn key_lt(a: Seq<u8>, b: Seq<u8>) -> bool
    decreases a.len(),
{
    if a.len() == 0 {
        b.len() > 0
    } else if b.len() == 0 {
        false
    } else if a[0] != b[0] {
        a[0] < b[0]
    } else {
        key_lt(a.drop_first(), b.drop_first())
    }
}

/// No key comes before itself.
pub proof fn lemma_key_lt_irreflexive(a: Seq<u8>)
    ensures
        !key_lt(a, a),
    decreases a.len(),
{
    if a.len() > 0 {
        lemma_key_lt_irreflexive(a.drop_first());
    }
}

/// The order is transitive.
pub proof fn lemma_key_lt_transitive(a: Seq<u8>, b: Seq<u8>, c: Seq<u8>)
    requires
        key_lt(a, b),
        key_lt(b, c),
    ensures
        key_lt(a, c),
    decreases a.len(),
{
    if a.len() > 0 && b.len() > 0 && c.len() > 0 && a[0] == b[0] && b[0] == c[0] {
        lemma_key_lt_transitive(a.drop_first(), b.drop_first(), c.drop_first());
    }
}

/// Two different keys are ordered one way or the other.
pub proof fn lemma_key_lt_total(a: Seq<u8>, b: Seq<u8>)
    requires
        a != b,
    ensures
        key_lt(a, b) || key_lt(b, a),
    decreases a.len(),
{
    if a.len() > 0 && b.len() > 0 && a[0] == b[0] {
        if a.drop_first() == b.drop_first() {
            assert(a =~= seq![a[0]] + a.drop_first());
            assert(b =~= seq![b[0]] + b.drop_first());
        }
        lemma_key_lt_total(a.drop_first(), b.drop_first());
    } else if a.len() == 0 && b.len() == 0 {
        assert(a =~= b);
    }
}

/// A key both sides compare by after a shared prefix of length `i`.
proof fn lemma_key_lt_skip(a: Seq<u8>, b: Seq<u8>, i: int)
    requires
        0 <= i <= a.len(),
        i <= b.len(),
        a.subrange(0, i) == b.subrange(0, i),
    ensures
        key_lt(a, b) == key_lt(a.subrange(i, a.len() as int), b.subrange(i, b.len() as int)),
    decreases i,
{
    if i > 0 {
        assert(a[0] == a.subrange(0, i)[0]);
        assert(b[0] == b.subrange(0, i)[0]);
        let a1 = a.drop_first();
        let b1 = b.drop_first();
        assert(a1.subrange(0, i - 1) =~= a.subrange(0, i).drop_first());
        assert(b1.subrange(0, i - 1) =~= b.subrange(0, i).drop_first());
        lemma_key_lt_skip(a1, b1, i - 1);
        assert(a1.subrange(i - 1, a1.len() as int) =~= a.subrange(i, a.len() as int));
        assert(b1.subrange(i - 1, b1.len() as int) =~= b.subrange(i, b.len() as int));
    } else {
        assert(a.subrange(0, a.len() as int) =~= a);
        assert(b.subrange(0, b.len() as int) =~= b);
    }
}

/// The key of a stored record: a fixed byte sequence derived from content
/// by whoever produced the record.
#[derive(Debug)]
pub struct ContentKey {
    bytes: Vec<u8>,
}

impl View for ContentKey {
    type V = Seq<u8>;

    closed spec fn view(&self) -> Seq<u8> {
        self.bytes@
    }
}

/// How one key stands to another in the order `key_lt`.
#[derive(Debug, Clone, Copy, PartialEq, Eq, Structural)]
pub enum KeyOrder {
    Less,
    Equal,
    Greater,
}

impl ContentKey {
    pub fn from_bytes(bytes: Vec<u8>) -> (r: ContentKey)
        ensures
            r@ == bytes@,
    {
        ContentKey { bytes }
    }

    /// The key spelled by the UTF-8 bytes of `s`.
    pub fn from_str(s: &str) -> (r: ContentKey)
        ensures
            r@ == s.spec_bytes(),
    {
        ContentKey { bytes: s.as_bytes_vec() }
    }

    pub fn to_bytes(&self) -> (r: Vec<u8>)
        ensures
            r@ == self@,
    {
        let r = self.bytes.clone();
        assert(r@ =~= self@);
        r
    }

    /// Compares two keys byte by byte.
    pub fn compare(&self, other: &ContentKey) -> (r: KeyOrder)
        ensures
            r == KeyOrder::Less <==> key_lt(self@, other@),
            r == KeyOrder::Equal <==> self@ == other@,
            r == KeyOrder::Greater <==> key_lt(other@, self@),
    {
        let a = &self.bytes;
        let b = &other.bytes;
        let mut i: usize = 0;
        while i < a.len() && i < b.len()
            invariant
                a@ == self@,
                b@ == other@,
                0 <= i <= a@.len(),
                i <= b@.len(),
                a@.subrange(0, i as int) == b@.subrange(0, i as int),
            decreases a@.len() - i,
        {
            if a[i] != b[i] {
                proof {
                    lemma_key_lt_skip(a@, b@, i as int);
                    lemma_key_lt_skip(b@, a@, i as int);
                    let sa = a@.subrange(i as int, a@.len() as int);
                    let sb = b@.subrange(i as int, b@.len() as int);
                    assert(sa[0] == a@[i as int]);
                    assert(sb[0] == b@[i as int]);
                    assert(sa.len() > 0 && sb.len() > 0 && sa[0] != sb[0]);
                    assert(key_lt(sa, sb) == (sa[0] < sb[0]));
                    assert(key_lt(sb, sa) == (sb[0] < sa[0]));
                    if a@ == b@ {
                        assert(a@[i as int] == b@[i as int]);
                    }
                }
                if a[i] < b[i] {
                    return KeyOrder::Less;
                } else {
                    return KeyOrder::Greater;
                }
            }
            proof {
                assert(a@.subrange(0, i + 1) =~= a@.subrange(0, i as int).push(a@[i as int]));
                assert(b@.subrange(0, i + 1) =~= b@.subrange(0, i as int).push(b@[i as int]));
            }
            i = i + 1;
        }
        proof {
            lemma_key_lt_skip(a@, b@, i as int);
            lemma_key_lt_skip(b@, a@, i as int);
            if a@.len() == b@.len() {
                assert(a@ =~= a@.subrange(0, i as int));
                assert(b@ =~= b@.subrange(0, i as int));
            } else {
                assert(a@.len() != b@.len());
            }
        }
        if a.len() < b.len() {
            KeyOrder::Less
        } else if a.len() == b.len() {
            KeyOrder::Equal
        } else {
            KeyOrder::Greater
        }
    }
}

impl Clone for ContentKey {
    fn clone(&self) -> (r: ContentKey)
        ensures
            r@ == self@,
    {
        ContentKey { bytes: self.to_bytes() }
    }
}

impl PartialEq for ContentKey {
    fn eq(&self, other: &ContentKey) -> (r: bool) {
        let o = self.compare(other);
        o == KeyOrder::Equal
    }
}

impl Eq for ContentKey {
}

impl vstd::std_specs::cmp::PartialEqSpecImpl for ContentKey {
    open spec fn obeys_eq_spec() -> bool {
        true
    }

    open spec fn eq_spec(&self, other: &ContentKey) -> bool {
        self@ == other@
    }
}

} // verus!
