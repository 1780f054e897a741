//! The 32-byte hash value used as node identity, its total byte-wise order,
//! and the canonical smaller-first combine rule for deriving a parent hash
//! from two child hashes.

use vstd::prelude::*;

verus! {

/// A 32-byte digest value: the identity of a leaf or inner node of the tree,
/// totally ordered by its byte sequence.
#[derive(Clone, Copy, Debug, PartialEq, Eq)]
pub struct NodeHash {
    pub bytes: [u8; 32],
}

impl View for NodeHash {
    type V = Seq<u8>;

    open spec fn view(&self) -> Seq<u8> {
        self.bytes@
    }
}

impl NodeHash {
    pub fn new(bytes: [u8; 32]) -> (r: NodeHash)
        ensures
            r@ == bytes@,
    {
        NodeHash { bytes }
    }

    pub fn to_bytes(&self) -> (r: [u8; 32])
        ensures
            r@ == self@,
    {
        self.bytes
    }

    /// Strict lexicographic (unsigned byte-wise) comparison.
    pub fn less_than(&self, other: &NodeHash) -> (r: bool)
        ensures
            r == lex_lt(self@, other@),
    {
        let mut i: usize = 0;
        while i < 32
            invariant
                0 <= i <= 32,
                forall|m: int| 0 <= m < i ==> self@[m] == other@[m],
            decreases 32 - i,
        {
            if self.bytes[i] < other.bytes[i] {
                proof {
                    lemma_lex_lt_first_diff(self@, other@, i as int);
                }
                return true;
            }
            if self.bytes[i] > other.bytes[i] {
                proof {
                    lemma_lex_lt_first_diff(other@, self@, i as int);
                    lemma_lex_lt_asymmetric(self@, other@);
                }
                return false;
            }
            i += 1;
        }
        proof {
            assert(self@ =~= other@);
            lemma_lex_lt_irreflexive(self@);
        }
        false
    }

    /// Byte-wise equality.
    pub fn equals(&self, other: &NodeHash) -> (r: bool)
        ensures
            r == (self@ == other@),
    {
        let mut i: usize = 0;
        while i < 32
            invariant
                0 <= i <= 32,
                forall|m: int| 0 <= m < i ==> self@[m] == other@[m],
            decreases 32 - i,
        {
            if self.bytes[i] != other.bytes[i] {
                return false;
            }
            i += 1;
        }
        proof {
            assert(self@ =~= other@);
        }
        true
    }
}

/// Strict lexicographic order on byte sequences: a proper prefix comes first,
/// otherwise the first differing byte decides.
pub open spec fn lex_lt(a: Seq<u8>, b: Seq<u8>) -> bool
    decreases a.len(),
{
    if b.len() == 0 {
        false
    } else if a.len() == 0 {
        true
    } else if a[0] < b[0] {
        true
    } else if a[0] > b[0] {
        false
    } else {
        lex_lt(a.drop_first(), b.drop_first())
    }
}

pub proof fn lemma_lex_lt_irreflexive(a: Seq<u8>)
    ensures
        !lex_lt(a, a),
    decreases a.len(),
{
    if a.len() > 0 {
        lemma_lex_lt_irreflexive(a.drop_first());
    }
}

pub proof fn lemma_lex_lt_asymmetric(a: Seq<u8>, b: Seq<u8>)
    ensures
        !(lex_lt(a, b) && lex_lt(b, a)),
    decreases a.len(),
{
    if a.len() > 0 && b.len() > 0 && a[0] == b[0] {
        lemma_lex_lt_asymmetric(a.drop_first(), b.drop_first());
    }
}

pub proof fn lemma_lex_lt_total(a: Seq<u8>, b: Seq<u8>)
    ensures
        lex_lt(a, b) || lex_lt(b, a) || a == b,
    decreases a.len(),
{
    if a.len() == 0 && b.len() == 0 {
        assert(a =~= b);
    } else if a.len() > 0 && b.len() > 0 && a[0] == b[0] {
        lemma_lex_lt_total(a.drop_first(), b.drop_first());
        if a.drop_first() == b.drop_first() {
            assert(a.drop_first().len() == a.len() - 1);
            assert(b.drop_first().len() == b.len() - 1);
            assert forall|i: int| 0 <= i < a.len() implies a[i] == b[i] by {
                if i > 0 {
                    assert(a.drop_first()[i - 1] == a[i]);
                    assert(b.drop_first()[i - 1] == b[i]);
                }
            }
            assert(a =~= b);
        }
    }
}

pub proof fn lemma_lex_lt_transitive(a: Seq<u8>, b: Seq<u8>, c: Seq<u8>)
    requires
        lex_lt(a, b),
        lex_lt(b, c),
    ensures
        lex_lt(a, c),
    decreases a.len(),
{
    if a.len() > 0 && b.len() > 0 && c.len() > 0 && a[0] == b[0] && b[0] == c[0] {
        lemma_lex_lt_transitive(a.drop_first(), b.drop_first(), c.drop_first());
    }
}

/// If two sequences agree up to position `i` and differ there, the one with
/// the smaller byte at `i` comes first.
pub proof fn lemma_lex_lt_first_diff(a: Seq<u8>, b: Seq<u8>, i: int)
    requires
        0 <= i < a.len(),
        i < b.len(),
        forall|m: int| 0 <= m < i ==> a[m] == b[m],
        a[i] < b[i],
    ensures
        lex_lt(a, b),
    decreases i,
{
    if i > 0 {
        assert(forall|m: int|
            0 <= m < i - 1 ==> #[trigger] a.drop_first()[m] == b.drop_first()[m]);
        assert(a.drop_first()[i - 1] == a[i]);
        assert(b.drop_first()[i - 1] == b[i]);
        lemma_lex_lt_first_diff(a.drop_first(), b.drop_first(), i - 1);
    }
}

/// The Keccak-256 digest, named so that contracts can speak of it; it is a
/// function of the input bytes alone.
pub uninterp spec fn keccak_of(data: Seq<u8>) -> Seq<u8>;

/// Relies on ethers::utils::keccak256: the 32-byte Keccak-256 digest of the
/// input bytes, a function of those bytes alone.
#[verifier::external_body]
pub(crate) fn keccak256_digest(data: &Vec<u8>) -> (r: NodeHash)
    ensures
        r@ == keccak_of(data@),
{
    NodeHash { bytes: ethers::utils::keccak256(data.as_slice()) }
}

/// The canonical combine rule: the digest of the two child values
/// concatenated smaller-first.
pub open spec fn combine(a: Seq<u8>, b: Seq<u8>) -> Seq<u8> {
    if lex_lt(b, a) {
        keccak_of(b + a)
    } else {
        keccak_of(a + b)
    }
}

/// Combining a pair of hashes does not depend on which slot held which
/// sibling: `combine(a, b)` and `combine(b, a)` give the same parent.
pub proof fn lemma_combine_commutes(a: Seq<u8>, b: Seq<u8>)
    ensures
        combine(a, b) == combine(b, a),
{
    lemma_lex_lt_total(a, b);
    lemma_lex_lt_asymmetric(a, b);
}

fn append_hash_bytes(data: &mut Vec<u8>, h: &NodeHash)
    ensures
        final(data)@ == old(data)@ + h@,
{
    let mut i: usize = 0;
    while i < 32
        invariant
            0 <= i <= 32,
            data@.len() == old(data)@.len() + i,
            forall|m: int| 0 <= m < old(data)@.len() ==> data@[m] == old(data)@[m],
            forall|m: int| 0 <= m < i ==> data@[old(data)@.len() + m] == h@[m],
        decreases 32 - i,
    {
        data.push(h.bytes[i]);
        i += 1;
    }
    proof {
        assert(data@ =~= old(data)@ + h@);
    }
}

/// Derive the parent hash of the pair `(a, b)` by the canonical rule: the
/// smaller of the two (byte-wise) is hashed first.
pub fn combine_hashes(a: &NodeHash, b: &NodeHash) -> (r: NodeHash)
    ensures
        r@ == combine(a@, b@),
{
    let mut data: Vec<u8> = Vec::new();
    if b.less_than(a) {
        append_hash_bytes(&mut data, b);
        append_hash_bytes(&mut data, a);
        proof {
            assert(data@ =~= b@ + a@);
        }
    } else {
        append_hash_bytes(&mut data, a);
        append_hash_bytes(&mut data, b);
        proof {
            assert(data@ =~= a@ + b@);
        }
    }
    keccak256_digest(&data)
}

} // verus!
