//! Leaf records and the leaf encoder: a record is an ordered sequence of
//! typed fields, encoded to bytes by the standard contract ABI rules and then
//! digested to its 32-byte leaf hash.  The leaf set maps each leaf hash to
//! the record it came from, sorted by hash value with unique keys; records
//! whose hashes collide collapse to the later record.

use vstd::prelude::*;

use crate::hashing::NodeHash;
use crate::hashing::keccak256_digest;
use crate::hashing::keccak_of;
use crate::hashing::lemma_lex_lt_irreflexive;
use crate::hashing::lemma_lex_lt_total;
use crate::hashing::lemma_lex_lt_transitive;
use crate::hashing::lex_lt;

verus! {

/// One typed field of a leaf record: an account address, or an unsigned
/// 256-bit amount held as big-endian bytes.
#[derive(Clone, Copy, Debug, PartialEq, Eq)]
pub enum Field {
    Address([u8; 20]),
    Uint([u8; 32]),
}

/// The contract-ABI encoding of a record's fields, named so that contracts
/// can speak of it; it is a function of the field values alone.
pub uninterp spec fn abi_enc(fields: Seq<Field>) -> Seq<u8>;

/// The leaf hash of a record: the digest of its ABI encoding.
pub open spec fn leaf_hash_of(fields: Seq<Field>) -> Seq<u8> {
    keccak_of(abi_enc(fields))
}

/// Relies on ethers::abi::encode: the ABI encoding of the fields, a function
/// of the field values alone.
#[verifier::external_body]
fn abi_encode(fields: &Vec<Field>) -> (r: Vec<u8>)
    ensures
        r@ == abi_enc(fields@),
{
    let tokens: Vec<ethers::abi::Token> = fields
        .iter()
        .map(|f| match f {
            Field::Address(a) => ethers::abi::Token::Address(ethers::types::H160(*a)),
            Field::Uint(u) => ethers::abi::Token::Uint(ethers::types::U256::from_big_endian(u)),
        })
        .collect();
    ethers::abi::encode(&tokens)
}

/// Hash one record to its leaf hash: digest of the record's ABI encoding.
pub fn hash_tokens(input: &Vec<Field>) -> (r: NodeHash)
    ensures
        r@ == leaf_hash_of(input@),
{
    let encoded = abi_encode(input);
    keccak256_digest(&encoded)
}

/// Entries are in strictly increasing key order (so keys are unique).
pub open spec fn sorted_entries(s: Seq<(NodeHash, Vec<Field>)>) -> bool {
    forall|j: int, k: int|
        0 <= j < k < s.len() ==> lex_lt((#[trigger] s[j]).0@, (#[trigger] s[k]).0@)
}

/// Some entry carries the key.
pub open spec fn has_entry_for(s: Seq<(NodeHash, Vec<Field>)>, key: Seq<u8>) -> bool {
    exists|j: int| 0 <= j < s.len() && (#[trigger] s[j]).0@ == key
}

/// Every input record has an entry under its leaf hash.
pub open spec fn leaf_entries_complete(
    s: Seq<(NodeHash, Vec<Field>)>,
    inputs: Seq<Vec<Field>>,
) -> bool {
    forall|i: int|
        0 <= i < inputs.len() ==> has_entry_for(s, leaf_hash_of((#[trigger] inputs[i])@))
}

/// The entry `e` holds the record at input position `i`, and no later input
/// record has the same leaf hash (last write wins on a hash collision).
pub open spec fn entry_source(
    e: (NodeHash, Vec<Field>),
    inputs: Seq<Vec<Field>>,
    i: int,
) -> bool {
    &&& 0 <= i < inputs.len()
    &&& e.0@ == leaf_hash_of(inputs[i]@)
    &&& e.1@ == inputs[i]@
    &&& forall|i2: int|
        i < i2 < inputs.len() ==> leaf_hash_of((#[trigger] inputs[i2])@) != e.0@
}

/// The entry comes from some input position, in the sense of `entry_source`.
pub open spec fn has_source(e: (NodeHash, Vec<Field>), inputs: Seq<Vec<Field>>) -> bool {
    exists|i: int| entry_source(e, inputs, i)
}

/// Every entry comes from the last input record with its hash.
pub open spec fn leaf_entries_sound(
    s: Seq<(NodeHash, Vec<Field>)>,
    inputs: Seq<Vec<Field>>,
) -> bool {
    forall|j: int| 0 <= j < s.len() ==> has_source(#[trigger] s[j], inputs)
}

/// The leaf set of `inputs`: sorted by hash, keys unique, one entry for the
/// last record carrying each distinct leaf hash.
pub open spec fn leaf_entries(s: Seq<(NodeHash, Vec<Field>)>, inputs: Seq<Vec<Field>>) -> bool {
    &&& sorted_entries(s)
    &&& leaf_entries_complete(s, inputs)
    &&& leaf_entries_sound(s, inputs)
}

pub(crate) fn clone_record(r: &Vec<Field>) -> (out: Vec<Field>)
    ensures
        out@ == r@,
{
    let mut out: Vec<Field> = Vec::new();
    let mut i: usize = 0;
    while i < r.len()
        invariant
            0 <= i <= r@.len(),
            out@ =~= r@.subrange(0, i as int),
        decreases r@.len() - i,
    {
        out.push(r[i]);
        i += 1;
    }
    proof {
        assert(out@ =~= r@);
    }
    out
}

/// Find the first position whose key is not below `h`.
fn find_slot(out: &Vec<(NodeHash, Vec<Field>)>, h: &NodeHash) -> (idx: usize)
    requires
        sorted_entries(out@),
    ensures
        0 <= idx <= out@.len(),
        forall|m: int| 0 <= m < idx ==> lex_lt((#[trigger] out@[m]).0@, h@),
        idx < out@.len() ==> !lex_lt(out@[idx as int].0@, h@),
{
    let mut idx: usize = 0;
    while idx < out.len()
        invariant
            0 <= idx <= out@.len(),
            forall|m: int| 0 <= m < idx ==> lex_lt((#[trigger] out@[m]).0@, h@),
        decreases out@.len() - idx,
    {
        if !out[idx].0.less_than(h) {
            return idx;
        }
        idx += 1;
    }
    idx
}

/// Put `(h, rec)` into the sorted entry list: replace the entry with key `h`
/// if one exists (`res.1`), otherwise insert at the ordered position `res.0`.
fn insert_entry(out: &mut Vec<(NodeHash, Vec<Field>)>, h: NodeHash, rec: Vec<Field>) -> (res: (
    usize,
    bool,
))
    requires
        sorted_entries(old(out)@),
    ensures
        sorted_entries(final(out)@),
        res.1 ==> 0 <= res.0 < old(out)@.len() && old(out)@[res.0 as int].0@ == h@
            && final(out)@ == old(out)@.update(res.0 as int, (h, rec)),
        !res.1 ==> 0 <= res.0 <= old(out)@.len()
            && final(out)@ == old(out)@.insert(res.0 as int, (h, rec))
            && (forall|m: int|
                0 <= m < old(out)@.len() ==> (#[trigger] old(out)@[m]).0@ != h@),
{
    let idx = find_slot(out, &h);
    let ghost pre = out@;
    if idx < out.len() && out[idx].0.equals(&h) {
        out.remove(idx);
        out.insert(idx, (h, rec));
        proof {
            assert(out@ =~= pre.update(idx as int, (h, rec)));
            assert forall|j: int, k: int| 0 <= j < k < out@.len() implies lex_lt(
                (#[trigger] out@[j]).0@,
                (#[trigger] out@[k]).0@,
            ) by {
                assert(out@[j].0@ == pre[j].0@);
                assert(out@[k].0@ == pre[k].0@);
            }
        }
        (idx, true)
    } else {
        proof {
            assert forall|m: int| idx <= m < pre.len() implies lex_lt(
                h@,
                (#[trigger] pre[m]).0@,
            ) by {
                lemma_lex_lt_total(h@, pre[idx as int].0@);
                if m > idx {
                    lemma_lex_lt_transitive(h@, pre[idx as int].0@, pre[m].0@);
                }
            }
            assert forall|m: int| 0 <= m < pre.len() implies (#[trigger] pre[m]).0@ != h@ by {
                lemma_lex_lt_irreflexive(h@);
            }
        }
        out.insert(idx, (h, rec));
        proof {
            pre.insert_ensures(idx as int, (h, rec));
            assert forall|j: int, k: int| 0 <= j < k < out@.len() implies lex_lt(
                (#[trigger] out@[j]).0@,
                (#[trigger] out@[k]).0@,
            ) by {
                if idx < k {
                    assert(out@[k] == pre[k - 1]);
                }
                if idx < j {
                    assert(out@[j] == pre[j - 1]);
                }
            }
        }
        (idx, false)
    }
}

/// Keys in strictly increasing order are distinct.
proof fn lemma_sorted_keys_distinct(s: Seq<(NodeHash, Vec<Field>)>, j: int, k: int)
    requires
        sorted_entries(s),
        0 <= j < s.len(),
        0 <= k < s.len(),
        j != k,
    ensures
        s[j].0@ != s[k].0@,
{
    if j < k {
        assert(lex_lt(s[j].0@, s[k].0@));
    } else {
        assert(lex_lt(s[k].0@, s[j].0@));
    }
    lemma_lex_lt_irreflexive(s[j].0@);
}

/// One step of building the leaf set: after placing the record at input
/// position `n` (replacing or inserting), the entries are the leaf set of the
/// first `n + 1` records.
proof fn lemma_leaf_step(
    pre: Seq<(NodeHash, Vec<Field>)>,
    post: Seq<(NodeHash, Vec<Field>)>,
    inputs: Seq<Vec<Field>>,
    n: int,
    idx: int,
    h: NodeHash,
    rec: Vec<Field>,
    replaced: bool,
)
    requires
        0 <= n < inputs.len(),
        leaf_entries(pre, inputs.subrange(0, n)),
        sorted_entries(post),
        h@ == leaf_hash_of(inputs[n]@),
        rec@ == inputs[n]@,
        replaced ==> 0 <= idx < pre.len() && pre[idx].0@ == h@
            && post == pre.update(idx, (h, rec)),
        !replaced ==> 0 <= idx <= pre.len() && post == pre.insert(idx, (h, rec))
            && (forall|m: int| 0 <= m < pre.len() ==> (#[trigger] pre[m]).0@ != h@),
    ensures
        leaf_entries(post, inputs.subrange(0, n + 1)),
{
    let prefix = inputs.subrange(0, n);
    let next = inputs.subrange(0, n + 1);
    assert(next[n] == inputs[n]);
    assert(forall|i: int| 0 <= i < n ==> #[trigger] next[i] == prefix[i]);
    if !replaced {
        pre.insert_ensures(idx, (h, rec));
    }
    assert(post[idx] == (h, rec));
    // completeness
    assert forall|i: int| 0 <= i < next.len() implies has_entry_for(
        post,
        leaf_hash_of((#[trigger] next[i])@),
    ) by {
        let key = leaf_hash_of(next[i]@);
        if i == n {
            assert(post[idx].0@ == key);
        } else {
            assert(has_entry_for(pre, leaf_hash_of(prefix[i]@)));
            let j2 = choose|j2: int| 0 <= j2 < pre.len() && (#[trigger] pre[j2]).0@ == key;
            if replaced && j2 == idx {
                assert(post[idx].0@ == h@ && pre[idx].0@ == h@);
                assert(post[idx].0@ == key);
            } else if replaced || j2 < idx {
                assert(post[j2] == pre[j2]);
                assert(post[j2].0@ == key);
            } else {
                assert(post[j2 + 1] == pre[j2]);
                assert(post[j2 + 1].0@ == key);
            }
        }
    }
    // soundness
    assert forall|j: int| 0 <= j < post.len() implies has_source(#[trigger] post[j], next) by {
        if j == idx {
            assert(post[j] == (h, rec));
            assert(entry_source(post[j], next, n));
        } else {
            // an old entry; its key differs from h
            let j2 = if replaced || j < idx { j } else { j - 1 };
            assert(post[j] == pre[j2]);
            if replaced {
                lemma_sorted_keys_distinct(pre, j2, idx);
            }
            assert(pre[j2].0@ != h@);
            assert(has_source(pre[j2], prefix));
            let i = choose|i: int| entry_source(pre[j2], prefix, i);
            assert(entry_source(pre[j2], prefix, i));
            assert(next[i] == prefix[i]);
            assert forall|i2: int| i < i2 < next.len() implies leaf_hash_of(
                (#[trigger] next[i2])@,
            ) != post[j].0@ by {
                if i2 < n {
                    assert(next[i2] == prefix[i2]);
                } else {
                    assert(next[i2] == inputs[n]);
                    assert(leaf_hash_of(next[i2]@) == h@);
                }
            }
            assert(entry_source(post[j], next, i));
        }
    }
}

/// Build the leaf set of the input records: each record hashed, entries
/// sorted by hash with unique keys; on a hash collision the later record
/// silently replaces the earlier one (the caller can detect the collapse by
/// comparing lengths).
pub fn hash_all_tokens(inputs: &Vec<Vec<Field>>) -> (r: Vec<(NodeHash, Vec<Field>)>)
    ensures
        leaf_entries(r@, inputs@),
        inputs@.len() > 0 ==> r@.len() >= 1,
        r@.len() <= inputs@.len(),
{
    let mut out: Vec<(NodeHash, Vec<Field>)> = Vec::new();
    let mut n: usize = 0;
    while n < inputs.len()
        invariant
            0 <= n <= inputs@.len(),
            out@.len() <= n,
            n > 0 ==> out@.len() >= 1,
            leaf_entries(out@, inputs@.subrange(0, n as int)),
        decreases inputs@.len() - n,
    {
        let ghost pre = out@;
        let h = hash_tokens(&inputs[n]);
        let rec = clone_record(&inputs[n]);
        let res = insert_entry(&mut out, h, rec);
        proof {
            lemma_leaf_step(pre, out@, inputs@, n as int, res.0 as int, h, rec, res.1);
        }
        n += 1;
    }
    proof {
        assert(inputs@.subrange(0, inputs@.len() as int) =~= inputs@);
    }
    out
}

} // verus!
