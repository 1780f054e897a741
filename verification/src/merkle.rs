//! The tree: level-by-level reduction of the sorted leaf hashes to a root,
//! the recorded parent-to-children relations, and the per-leaf sibling proof
//! paths.

use vstd::prelude::*;

use crate::encoder::Field;
use crate::encoder::entry_source;
use crate::encoder::has_entry_for;
use crate::encoder::has_source;
use crate::encoder::hash_all_tokens;
use crate::encoder::leaf_entries;
use crate::encoder::leaf_hash_of;
use crate::encoder::sorted_entries;
use crate::hashing::NodeHash;
use crate::hashing::combine;
use crate::hashing::combine_hashes;
use crate::hashing::lemma_lex_lt_asymmetric;
use crate::hashing::lex_lt;

verus! {

/// Why a tree cannot be built.
#[derive(Clone, Copy, Debug, PartialEq, Eq)]
pub enum MerkleError {
    /// No records were supplied: no tree is defined for zero leaves.
    EmptyInput,
    /// Two different child pairs produced the same parent hash.  This breaks
    /// the relation map's one-pair-per-parent invariant and is treated as a
    /// fatal internal fault rather than silently overwriting.
    RelationCollision,
}

/// The byte sequences of a row of hashes.
pub open spec fn views_of(s: Seq<NodeHash>) -> Seq<Seq<u8>> {
    s.map_values(|h: NodeHash| h@)
}

/// Element `j` of a level after duplication padding: past the end, the last
/// element stands in.
pub open spec fn vpad_at(l: Seq<Seq<u8>>, j: int) -> Seq<u8> {
    if j < l.len() {
        l[j]
    } else {
        l[l.len() - 1]
    }
}

/// The length of the level above one of `n` elements.
pub open spec fn level_len(n: int) -> int {
    (n + 1) / 2
}

/// Parent `k` of a level: the canonical combination of the padded elements at
/// positions `2k` and `2k + 1`.
pub open spec fn vparent_at(l: Seq<Seq<u8>>, k: int) -> Seq<u8> {
    combine(vpad_at(l, 2 * k), vpad_at(l, 2 * k + 1))
}

/// The whole level above `l`.
pub open spec fn vlevel_up(l: Seq<Seq<u8>>) -> Seq<Seq<u8>> {
    Seq::new(level_len(l.len() as int) as nat, |k: int| vparent_at(l, k))
}

/// The parent keys of the recorded relations.
pub open spec fn key_views(ps: Seq<(NodeHash, (NodeHash, NodeHash))>) -> Seq<Seq<u8>> {
    ps.map_values(|e: (NodeHash, (NodeHash, NodeHash))| e.0@)
}

/// The recorded relations as byte sequences.
pub open spec fn rel_views(ps: Seq<(NodeHash, (NodeHash, NodeHash))>) -> Seq<
    (Seq<u8>, (Seq<u8>, Seq<u8>)),
> {
    ps.map_values(|e: (NodeHash, (NodeHash, NodeHash))| (e.0@, (e.1.0@, e.1.1@)))
}

/// The relations that combining one level records, in pair order.
pub open spec fn level_rels(l: Seq<Seq<u8>>) -> Seq<(Seq<u8>, (Seq<u8>, Seq<u8>))> {
    Seq::new(
        level_len(l.len() as int) as nat,
        |k: int| (vparent_at(l, k), (vpad_at(l, 2 * k), vpad_at(l, 2 * k + 1))),
    )
}

/// All parent keys are distinct: each parent has exactly one recorded pair.
pub open spec fn unique_rel_keys(ps: Seq<(NodeHash, (NodeHash, NodeHash))>) -> bool {
    forall|j1: int, j2: int|
        0 <= j1 < j2 < ps.len() ==> (#[trigger] ps[j1]).0@ != (#[trigger] ps[j2]).0@
}

/// Parent `k` of level `l` collides: its value is already a recorded key in
/// `seen`, or an earlier pair of the same level produced it.
pub open spec fn parent_collides(l: Seq<Seq<u8>>, seen: Seq<Seq<u8>>, k: int) -> bool {
    ||| seen.contains(vparent_at(l, k))
    ||| exists|k2: int| 0 <= k2 < k && #[trigger] vparent_at(l, k2) == vparent_at(l, k)
}

/// Combining level `l` against the keys `seen` hits a parent collision.
pub open spec fn level_collides(l: Seq<Seq<u8>>, seen: Seq<Seq<u8>>) -> bool {
    exists|k: int| 0 <= k < level_len(l.len() as int) && #[trigger] parent_collides(l, seen, k)
}

fn contains_key(v: &Vec<(NodeHash, (NodeHash, NodeHash))>, key: &NodeHash) -> (r: bool)
    ensures
        r == key_views(v@).contains(key@),
{
    let mut j: usize = 0;
    while j < v.len()
        invariant
            0 <= j <= v@.len(),
            forall|m: int| 0 <= m < j ==> (#[trigger] v@[m]).0@ != key@,
        decreases v@.len() - j,
    {
        if v[j].0.equals(key) {
            proof {
                assert(key_views(v@)[j as int] == key@);
            }
            return true;
        }
        j += 1;
    }
    proof {
        assert forall|m: int| 0 <= m < key_views(v@).len() implies key_views(v@)[m] != key@ by {
            assert(key_views(v@)[m] == v@[m].0@);
        }
    }
    false
}

/// Produce the level above `inputs` and record each parent-to-pair relation:
/// an odd level duplicates its last element for the final pair; pairs are
/// combined in order by the canonical rule.  A parent value that is already
/// recorded (or produced twice) is reported as a collision and leaves the
/// relation map unchanged.
pub fn hash(
    inputs: &Vec<NodeHash>,
    products: &mut Vec<(NodeHash, (NodeHash, NodeHash))>,
) -> (r: Result<Vec<NodeHash>, MerkleError>)
    requires
        inputs@.len() >= 1,
        unique_rel_keys(old(products)@),
    ensures
        match r {
            Ok(out) => {
                &&& views_of(out@) == vlevel_up(views_of(inputs@))
                &&& out@.len() == level_len(inputs@.len() as int)
                &&& rel_views(final(products)@) == rel_views(old(products)@) + level_rels(
                    views_of(inputs@),
                )
                &&& key_views(final(products)@) == key_views(old(products)@) + views_of(out@)
                &&& unique_rel_keys(final(products)@)
                &&& !level_collides(views_of(inputs@), key_views(old(products)@))
            },
            Err(e) => {
                &&& e == MerkleError::RelationCollision
                &&& *final(products) == *old(products)
                &&& level_collides(views_of(inputs@), key_views(old(products)@))
            },
        },
{
    let ghost vin = views_of(inputs@);
    let ghost seen0 = key_views(old(products)@);
    let mut padded: Vec<NodeHash> = Vec::new();
    let mut c: usize = 0;
    while c < inputs.len()
        invariant
            0 <= c <= inputs@.len(),
            padded@ =~= inputs@.subrange(0, c as int),
        decreases inputs@.len() - c,
    {
        padded.push(inputs[c]);
        c += 1;
    }
    proof {
        assert(padded@ =~= inputs@);
    }
    if padded.len() % 2 == 1 {
        let last = padded[padded.len() - 1];
        padded.push(last);
    }
    proof {
        assert(padded@.len() == 2 * level_len(vin.len() as int));
        assert forall|j: int| 0 <= j < padded@.len() implies (#[trigger] padded@[j])@ == vpad_at(
            vin,
            j,
        ) by {
            if j < inputs@.len() {
                assert(padded@[j] == inputs@[j]);
                assert(vin[j] == inputs@[j]@);
            } else {
                assert(padded@[j] == inputs@[inputs@.len() - 1]);
                assert(vin[vin.len() - 1] == inputs@[inputs@.len() - 1]@);
            }
        }
    }
    let half = padded.len() / 2;
    let mut out: Vec<NodeHash> = Vec::new();
    let mut fresh: Vec<(NodeHash, (NodeHash, NodeHash))> = Vec::new();
    let mut k: usize = 0;
    let mut i: usize = 0;
    while k < half
        invariant
            0 <= k <= half,
            i == 2 * k,
            half == level_len(vin.len() as int),
            padded@.len() == 2 * half,
            padded@.len() <= usize::MAX,
            inputs@.len() >= 1,
            vin == views_of(inputs@),
            seen0 == key_views(products@),
            unique_rel_keys(products@),
            forall|j: int|
                0 <= j < padded@.len() ==> (#[trigger] padded@[j])@ == vpad_at(vin, j),
            out@.len() == k,
            fresh@.len() == k,
            forall|m: int| 0 <= m < k ==> (#[trigger] out@[m])@ == vparent_at(vin, m),
            forall|m: int|
                0 <= m < k ==> (#[trigger] fresh@[m]) == (
                    out@[m],
                    (padded@[2 * m], padded@[2 * m + 1]),
                ),
            forall|m: int| 0 <= m < k ==> !(#[trigger] parent_collides(vin, seen0, m)),
        decreases half - k,
    {
        proof {
            assert(i + 1 < padded@.len());
        }
        let parent = combine_hashes(&padded[i], &padded[i + 1]);
        proof {
            assert(parent@ == vparent_at(vin, k as int));
        }
        if contains_key(products, &parent) {
            proof {
                assert(parent_collides(vin, seen0, k as int));
                assert(level_collides(vin, seen0));
            }
            return Err(MerkleError::RelationCollision);
        }
        if contains_key(&fresh, &parent) {
            proof {
                let j = choose|j: int|
                    0 <= j < key_views(fresh@).len() && key_views(fresh@)[j] == parent@;
                assert(fresh@[j].0@ == parent@);
                assert(out@[j]@ == vparent_at(vin, j));
                assert(vparent_at(vin, j) == vparent_at(vin, k as int));
                assert(parent_collides(vin, seen0, k as int));
                assert(level_collides(vin, seen0));
            }
            return Err(MerkleError::RelationCollision);
        }
        proof {
            assert forall|m: int|
                0 <= m < key_views(fresh@).len() implies key_views(fresh@)[m] != parent@ by {
                assert(key_views(fresh@)[m] == fresh@[m].0@);
            }
            assert(!parent_collides(vin, seen0, k as int)) by {
                if seen0.contains(vparent_at(vin, k as int)) {
                    assert(key_views(products@).contains(parent@));
                }
                if exists|k2: int|
                    0 <= k2 < k && #[trigger] vparent_at(vin, k2) == vparent_at(vin, k as int) {
                    let k2 = choose|k2: int|
                        0 <= k2 < k && #[trigger] vparent_at(vin, k2) == vparent_at(
                            vin,
                            k as int,
                        );
                    assert(fresh@[k2].0@ == out@[k2]@);
                    assert(key_views(fresh@)[k2] == vparent_at(vin, k2));
                    assert(key_views(fresh@).contains(parent@));
                }
            }
        }
        fresh.push((parent, (padded[i], padded[i + 1])));
        out.push(parent);
        i += 2;
        k += 1;
    }
    proof {
        assert(views_of(out@) =~= vlevel_up(vin));
        assert(rel_views(fresh@) =~= level_rels(vin)) by {
            assert forall|m: int| 0 <= m < k implies rel_views(fresh@)[m] == level_rels(vin)[m] by {
                assert(rel_views(fresh@)[m] == (fresh@[m].0@, (fresh@[m].1.0@, fresh@[m].1.1@)));
            }
        }
        assert(key_views(fresh@) =~= views_of(out@)) by {
            assert forall|m: int| 0 <= m < k implies key_views(fresh@)[m] == views_of(out@)[m] by {
                assert(key_views(fresh@)[m] == fresh@[m].0@);
            }
        }
        assert(!level_collides(vin, seen0));
    }
    let ghost mid = products@;
    let ghost freshs = fresh@;
    products.append(&mut fresh);
    proof {
        assert(rel_views(products@) =~= rel_views(mid) + rel_views(freshs)) by {
            assert forall|m: int| 0 <= m < products@.len() implies rel_views(products@)[m] == (
            rel_views(mid) + rel_views(freshs))[m] by {
                if m < mid.len() {
                    assert(products@[m] == mid[m]);
                } else {
                    assert(products@[m] == freshs[m - mid.len()]);
                }
            }
        }
        assert(key_views(products@) =~= key_views(mid) + key_views(freshs)) by {
            assert forall|m: int| 0 <= m < products@.len() implies key_views(products@)[m] == (
            key_views(mid) + key_views(freshs))[m] by {
                if m < mid.len() {
                    assert(products@[m] == mid[m]);
                } else {
                    assert(products@[m] == freshs[m - mid.len()]);
                }
            }
        }
        assert(unique_rel_keys(products@)) by {
            assert forall|j1: int, j2: int|
                0 <= j1 < j2 < products@.len() implies (#[trigger] products@[j1]).0@ != (
            #[trigger] products@[j2]).0@ by {
                if j1 < mid.len() && j2 >= mid.len() {
                    assert(products@[j1] == mid[j1]);
                    assert(products@[j2] == freshs[j2 - mid.len()]);
                    assert(key_views(freshs)[j2 - mid.len()] == freshs[j2 - mid.len()].0@);
                    if mid[j1].0@ == freshs[j2 - mid.len()].0@ {
                        assert(key_views(mid)[j1] == mid[j1].0@);
                        assert(seen0.contains(vparent_at(vin, j2 - mid.len())));
                        assert(parent_collides(vin, seen0, j2 - mid.len()));
                    }
                } else if j1 >= mid.len() {
                    assert(products@[j1] == freshs[j1 - mid.len()]);
                    assert(products@[j2] == freshs[j2 - mid.len()]);
                    if freshs[j1 - mid.len()].0@ == freshs[j2 - mid.len()].0@ {
                        assert(vparent_at(vin, j1 - mid.len()) == vparent_at(
                            vin,
                            j2 - mid.len(),
                        ));
                        assert(parent_collides(vin, seen0, j2 - mid.len()));
                    }
                } else {
                    assert(products@[j1] == mid[j1]);
                    assert(products@[j2] == mid[j2]);
                }
            }
        }
    }
    Ok(out)
}

} // verus!

verus! {

/// The sibling positions of the walk from leaf position `j` up the levels:
/// at level `i` the leaf's ancestor sits at position `j` halved `i` times.
pub open spec fn pos_at(j: int, i: int) -> int
    decreases i,
{
    if i <= 0 {
        j
    } else {
        pos_at(j, i - 1) / 2
    }
}

/// The position paired with `p` when a level is combined two at a time.
pub open spec fn sibling_index(p: int) -> int {
    if p % 2 == 0 {
        p + 1
    } else {
        p - 1
    }
}

/// The relations recorded while building rows 1 through `i`, in order.
pub open spec fn rels_upto(rows: Seq<Vec<NodeHash>>, i: int) -> Seq<
    (Seq<u8>, (Seq<u8>, Seq<u8>)),
>
    decreases i,
{
    if i <= 0 {
        Seq::empty()
    } else {
        rels_upto(rows, i - 1) + level_rels(views_of(rows[i - 1]@))
    }
}

proof fn lemma_rels_upto_push(rows: Seq<Vec<NodeHash>>, x: Vec<NodeHash>, i: int)
    requires
        0 <= i <= rows.len(),
    ensures
        rels_upto(rows.push(x), i) == rels_upto(rows, i),
    decreases i,
{
    if i > 0 {
        lemma_rels_upto_push(rows, x, i - 1);
        assert(rows.push(x)[i - 1] == rows[i - 1]);
    }
}

/// Reducing `l` level by level, with `seen` the parent keys recorded so far,
/// eventually hits a parent collision.
pub open spec fn build_collides(l: Seq<Seq<u8>>, seen: Seq<Seq<u8>>) -> bool
    decreases l.len(),
{
    if l.len() <= 1 {
        false
    } else {
        level_collides(l, seen) || build_collides(vlevel_up(l), seen + vlevel_up(l))
    }
}

/// Keys in strictly increasing byte-wise order.
pub open spec fn sorted_keys(l: Seq<Seq<u8>>) -> bool {
    forall|j: int, k: int| 0 <= j < k < l.len() ==> lex_lt(#[trigger] l[j], #[trigger] l[k])
}

/// `x` is the leaf hash of some input record.
pub open spec fn key_of_some_input(x: Seq<u8>, inputs: Seq<Vec<Field>>) -> bool {
    exists|i: int| 0 <= i < inputs.len() && x == leaf_hash_of((#[trigger] inputs[i])@)
}

/// `l0` is the sorted sequence of the distinct leaf hashes of `inputs`.
pub open spec fn is_leaf_key_seq(l0: Seq<Seq<u8>>, inputs: Seq<Vec<Field>>) -> bool {
    &&& sorted_keys(l0)
    &&& forall|m: int| 0 <= m < l0.len() ==> key_of_some_input(#[trigger] l0[m], inputs)
    &&& forall|i: int| 0 <= i < inputs.len() ==> l0.contains(leaf_hash_of((#[trigger] inputs[i])@))
}

/// Two strictly sorted sequences with the same members are the same sequence.
pub proof fn lemma_sorted_keys_unique(s1: Seq<Seq<u8>>, s2: Seq<Seq<u8>>)
    requires
        sorted_keys(s1),
        sorted_keys(s2),
        forall|x: Seq<u8>| s1.contains(x) <==> s2.contains(x),
    ensures
        s1 == s2,
    decreases s1.len(),
{
    if s1.len() == 0 {
        if s2.len() > 0 {
            assert(s2.contains(s2[0]));
        }
        assert(s1 =~= s2);
    } else {
        assert(s1.contains(s1[0]));
        assert(s2.contains(s2[0]));
        let j = choose|j: int| 0 <= j < s2.len() && s2[j] == s1[0];
        let m = choose|m: int| 0 <= m < s1.len() && s1[m] == s2[0];
        if j > 0 {
            assert(lex_lt(s2[0], s2[j]));
            if m > 0 {
                assert(lex_lt(s1[0], s1[m]));
                lemma_lex_lt_asymmetric(s1[0], s2[0]);
                assert(false);
            }
        }
        assert(s1[0] == s2[0]);
        let t1 = s1.drop_first();
        let t2 = s2.drop_first();
        assert forall|x: Seq<u8>| t1.contains(x) <==> t2.contains(x) by {
            lemma_tail_membership(s1, x);
            lemma_tail_membership(s2, x);
        }
        lemma_sorted_keys_unique(t1, t2);
        assert forall|i: int| 0 <= i < s1.len() implies s1[i] == s2[i] by {
            if i > 0 {
                assert(t1[i - 1] == s1[i]);
                assert(t2[i - 1] == s2[i]);
            }
        }
        assert(s1 =~= s2);
    }
}

/// Membership in the tail of a strictly sorted sequence: everything but the
/// head.
proof fn lemma_tail_membership(s: Seq<Seq<u8>>, x: Seq<u8>)
    requires
        sorted_keys(s),
        s.len() >= 1,
    ensures
        s.drop_first().contains(x) <==> (s.contains(x) && x != s[0]),
{
    let t = s.drop_first();
    assert(sorted_keys(t)) by {
        assert forall|j: int, k: int| 0 <= j < k < t.len() implies lex_lt(
            #[trigger] t[j],
            #[trigger] t[k],
        ) by {
            assert(t[j] == s[j + 1]);
            assert(t[k] == s[k + 1]);
        }
    }
    if t.contains(x) {
        let m = choose|m: int| 0 <= m < t.len() && t[m] == x;
        assert(t[m] == s[m + 1]);
        assert(s.contains(x));
        assert(lex_lt(s[0], s[m + 1]));
        crate::hashing::lemma_lex_lt_irreflexive(x);
    }
    if s.contains(x) && x != s[0] {
        let m = choose|m: int| 0 <= m < s.len() && s[m] == x;
        assert(m > 0);
        assert(t[m - 1] == s[m]);
        assert(t.contains(x));
    }
}

/// The aggregate: the leaf set (token records by leaf hash), all levels of
/// the tree (`rows`, level 0 first), the recorded parent-to-children
/// relations, the per-leaf sibling proofs, and the root hash.
#[derive(Clone, Debug, PartialEq, Eq)]
pub struct MerkleTree {
    pub token_hash: Vec<(NodeHash, Vec<Field>)>,
    pub rows: Vec<Vec<NodeHash>>,
    pub product_hashes: Vec<(NodeHash, (NodeHash, NodeHash))>,
    pub proofs: Vec<(NodeHash, Vec<NodeHash>)>,
    pub root: NodeHash,
}

impl MerkleTree {
    /// The levels: each one the canonical combination of the one below, only
    /// the last with a single element.
    pub open spec fn wf_levels(&self) -> bool {
        &&& self.rows@.len() >= 1
        &&& self.rows@.last()@.len() == 1
        &&& forall|i: int|
            0 <= i < self.rows@.len() - 1 ==> (#[trigger] self.rows@[i])@.len() > 1
        &&& forall|i: int|
            1 <= i < self.rows@.len() ==> views_of((#[trigger] self.rows@[i])@) == vlevel_up(
                views_of(self.rows@[i - 1]@),
            )
    }

    /// Level 0 is exactly the sorted keys of the leaf set.
    pub open spec fn wf_leaves(&self) -> bool {
        &&& sorted_entries(self.token_hash@)
        &&& self.token_hash@.len() == self.rows@[0]@.len()
        &&& forall|j: int|
            0 <= j < self.token_hash@.len() ==> (#[trigger] self.token_hash@[j]).0@
                == self.rows@[0]@[j]@
    }

    /// The root is the sole element of the last level.
    pub open spec fn wf_root(&self) -> bool {
        self.root@ == self.rows@.last()@[0]@
    }

    /// The relation map records exactly the pairings of every combination
    /// step, level by level, with unique parent keys.
    pub open spec fn wf_relations(&self) -> bool {
        &&& rel_views(self.product_hashes@) == rels_upto(self.rows@, self.rows@.len() - 1)
        &&& unique_rel_keys(self.product_hashes@)
    }

    /// One proof per leaf, in leaf order: entry `j` carries, for each level,
    /// the padded sibling of the leaf's ancestor at that level.
    pub open spec fn wf_proofs(&self) -> bool {
        &&& self.proofs@.len() == self.rows@[0]@.len()
        &&& forall|j: int|
            0 <= j < self.proofs@.len() ==> (#[trigger] self.proofs@[j]).0@ == self.rows@[0]@[j]@
        &&& forall|j: int|
            0 <= j < self.proofs@.len() ==> (#[trigger] self.proofs@[j]).1@.len() == self.rows@.len()
                - 1
        &&& forall|j: int, i: int|
            0 <= j < self.proofs@.len() && 0 <= i < self.rows@.len() - 1 ==> (
            #[trigger] self.proofs@[j].1@[i])@ == vpad_at(
                views_of(self.rows@[i]@),
                sibling_index(pos_at(j, i)),
            )
    }

    /// Everything a constructed tree guarantees.
    pub open spec fn wf(&self) -> bool {
        &&& self.wf_levels()
        &&& self.wf_leaves()
        &&& self.wf_root()
        &&& self.wf_relations()
        &&& self.wf_proofs()
    }
}

} // verus!

verus! {

impl MerkleTree {
    /// Derive every leaf's sibling path by walking the levels: at each level
    /// take the padded sibling of the current position, then move to the
    /// parent position above.  Rebuilds the proof table; nothing else changes.
    pub fn calculate_proofs(&mut self)
        requires
            old(self).wf_levels(),
        ensures
            final(self).token_hash == old(self).token_hash,
            final(self).rows == old(self).rows,
            final(self).product_hashes == old(self).product_hashes,
            final(self).root == old(self).root,
            final(self).wf_proofs(),
    {
        let height = self.rows.len() - 1;
        let width = self.rows[0].len();
        let mut proofs: Vec<(NodeHash, Vec<NodeHash>)> = Vec::new();
        let mut j: usize = 0;
        while j < width
            invariant
                *self == *old(self),
                self.wf_levels(),
                height == self.rows@.len() - 1,
                width == self.rows@[0]@.len(),
                0 <= j <= width,
                proofs@.len() == j,
                forall|m: int|
                    0 <= m < j ==> (#[trigger] proofs@[m]).0@ == self.rows@[0]@[m]@,
                forall|m: int|
                    0 <= m < j ==> (#[trigger] proofs@[m]).1@.len() == height,
                forall|m: int, i: int|
                    0 <= m < j && 0 <= i < height ==> (#[trigger] proofs@[m].1@[i])@ == vpad_at(
                        views_of(self.rows@[i]@),
                        sibling_index(pos_at(m, i)),
                    ),
            decreases width - j,
        {
            let mut pf: Vec<NodeHash> = Vec::new();
            let mut p: usize = j;
            let mut i: usize = 0;
            while i < height
                invariant
                    *self == *old(self),
                    self.wf_levels(),
                    height == self.rows@.len() - 1,
                    width == self.rows@[0]@.len(),
                    0 <= j < width,
                    0 <= i <= height,
                    p == pos_at(j as int, i as int),
                    p < self.rows@[i as int]@.len(),
                    pf@.len() == i,
                    forall|m: int|
                        0 <= m < i ==> (#[trigger] pf@[m])@ == vpad_at(
                            views_of(self.rows@[m]@),
                            sibling_index(pos_at(j as int, m)),
                        ),
                decreases height - i,
            {
                let row_len = self.rows[i].len();
                let s = if p % 2 == 0 {
                    p + 1
                } else {
                    p - 1
                };
                let sib = if s < row_len {
                    self.rows[i][s]
                } else {
                    self.rows[i][row_len - 1]
                };
                proof {
                    let vrow = views_of(self.rows@[i as int]@);
                    assert(vrow.len() == row_len);
                    assert(s == sibling_index(p as int));
                    if s < row_len {
                        assert(sib@ == vrow[s as int]);
                    } else {
                        assert(sib@ == vrow[vrow.len() - 1]);
                    }
                    assert(sib@ == vpad_at(vrow, sibling_index(pos_at(j as int, i as int))));
                    // the parent position is inside the next level
                    assert(views_of(self.rows@[i as int + 1]@) == vlevel_up(vrow));
                    assert(views_of(self.rows@[i as int + 1]@).len() == self.rows@[i as int
                        + 1]@.len());
                    assert(vlevel_up(vrow).len() == level_len(vrow.len() as int));
                    assert(self.rows@[i as int + 1]@.len() == level_len(row_len as int));
                    assert(p / 2 < level_len(row_len as int));
                }
                pf.push(sib);
                p = p / 2;
                i += 1;
            }
            let leaf = self.rows[0][j];
            proofs.push((leaf, pf));
            j += 1;
        }
        self.proofs = proofs;
    }
}

} // verus!

verus! {

impl MerkleTree {
    /// Build the whole tree from the input records: hash them into the leaf
    /// set (records with equal leaf hashes collapse to the later record, so
    /// the leaf count can be below the record count), sort the leaf hashes
    /// into level 0, reduce level by level to the root, record every
    /// relation, and derive every leaf's proof.  An empty input is refused;
    /// so is a parent-hash collision while reducing.
    pub fn new(inputs: &Vec<Vec<Field>>) -> (r: Result<MerkleTree, MerkleError>)
        ensures
            match r {
                Ok(t) => {
                    &&& t.wf()
                    &&& leaf_entries(t.token_hash@, inputs@)
                    &&& inputs@.len() > 0
                    &&& !(exists|l0: Seq<Seq<u8>>|
                        #[trigger] is_leaf_key_seq(l0, inputs@) && build_collides(
                            l0,
                            Seq::empty(),
                        ))
                },
                Err(MerkleError::EmptyInput) => inputs@.len() == 0,
                Err(MerkleError::RelationCollision) => {
                    &&& inputs@.len() > 0
                    &&& exists|l0: Seq<Seq<u8>>|
                        #[trigger] is_leaf_key_seq(l0, inputs@) && build_collides(
                            l0,
                            Seq::empty(),
                        )
                },
            },
    {
        if inputs.len() == 0 {
            return Err(MerkleError::EmptyInput);
        }
        let token_hash = hash_all_tokens(inputs);
        let mut level0: Vec<NodeHash> = Vec::new();
        let mut j: usize = 0;
        while j < token_hash.len()
            invariant
                0 <= j <= token_hash@.len(),
                level0@.len() == j,
                forall|m: int| 0 <= m < j ==> (#[trigger] level0@[m]) == token_hash@[m].0,
            decreases token_hash@.len() - j,
        {
            level0.push(token_hash[j].0);
            j += 1;
        }
        let ghost v0 = views_of(level0@);
        proof {
            assert forall|m: int| 0 <= m < v0.len() implies v0[m] == token_hash@[m].0@ by {
                assert(v0[m] == level0@[m]@);
            }
            assert(is_leaf_key_seq(v0, inputs@)) by {
                assert forall|m: int| 0 <= m < v0.len() implies key_of_some_input(
                    #[trigger] v0[m],
                    inputs@,
                ) by {
                    assert(has_source(token_hash@[m], inputs@));
                    let i = choose|i: int| entry_source(token_hash@[m], inputs@, i);
                    assert(entry_source(token_hash@[m], inputs@, i));
                    assert(v0[m] == leaf_hash_of(inputs@[i]@));
                }
                assert forall|i: int| 0 <= i < inputs@.len() implies v0.contains(
                    leaf_hash_of((#[trigger] inputs@[i])@),
                ) by {
                    let key = leaf_hash_of(inputs@[i]@);
                    assert(has_entry_for(token_hash@, key));
                    let m = choose|m: int|
                        0 <= m < token_hash@.len() && (#[trigger] token_hash@[m]).0@ == key;
                    assert(v0[m] == key);
                }
            }
        }
        let mut products: Vec<(NodeHash, (NodeHash, NodeHash))> = Vec::new();
        let mut rows: Vec<Vec<NodeHash>> = Vec::new();
        proof {
            assert(key_views(products@) =~= Seq::<Seq<u8>>::empty());
            assert(rel_views(products@) =~= Seq::<(Seq<u8>, (Seq<u8>, Seq<u8>))>::empty());
        }
        rows.push(level0);
        while rows[rows.len() - 1].len() != 1
            invariant
                inputs@.len() > 0,
                is_leaf_key_seq(v0, inputs@),
                leaf_entries(token_hash@, inputs@),
                token_hash@.len() == v0.len(),
                forall|m: int|
                    0 <= m < token_hash@.len() ==> (#[trigger] token_hash@[m]).0@ == v0[m],
                rows@.len() >= 1,
                rows@[0]@.len() >= 1,
                v0 == views_of(rows@[0]@),
                rows@.last()@.len() >= 1,
                forall|i: int|
                    0 <= i < rows@.len() - 1 ==> (#[trigger] rows@[i])@.len() > 1,
                forall|i: int|
                    1 <= i < rows@.len() ==> views_of((#[trigger] rows@[i])@) == vlevel_up(
                        views_of(rows@[i - 1]@),
                    ),
                rel_views(products@) == rels_upto(rows@, rows@.len() - 1),
                unique_rel_keys(products@),
                build_collides(v0, Seq::empty()) == build_collides(
                    views_of(rows@.last()@),
                    key_views(products@),
                ),
            decreases rows@.last()@.len(),
        {
            let ghost rows0 = rows@;
            let ghost seen = key_views(products@);
            let ghost vcur = views_of(rows@.last()@);
            let n = rows.len();
            let next = hash(&rows[n - 1], &mut products);
            match next {
                Ok(lvl) => {
                    proof {
                        assert(vcur.len() >= 2);
                        assert(build_collides(vcur, seen) == build_collides(
                            vlevel_up(vcur),
                            seen + vlevel_up(vcur),
                        ));
                        assert(key_views(products@) == seen + vlevel_up(vcur));
                    }
                    rows.push(lvl);
                    proof {
                        assert(rows@.last() == lvl);
                        assert(views_of(lvl@) == vlevel_up(vcur));
                        assert(vlevel_up(vcur).len() == level_len(vcur.len() as int));
                        assert(lvl@.len() >= 1);
                        assert forall|i: int|
                            1 <= i < rows@.len() implies views_of((#[trigger] rows@[i])@)
                            == vlevel_up(views_of(rows@[i - 1]@)) by {
                            if i < rows@.len() - 1 {
                                assert(rows@[i] == rows0[i]);
                                assert(rows@[i - 1] == rows0[i - 1]);
                            } else {
                                assert(rows@[i] == lvl);
                                assert(rows@[i - 1] == rows0[rows0.len() - 1]);
                            }
                        }
                        lemma_rels_upto_push(rows0, lvl, rows0.len() as int - 1);
                        assert(rels_upto(rows@, rows@.len() - 1) == rels_upto(
                            rows0,
                            rows0.len() as int - 1,
                        ) + level_rels(views_of(rows@[rows@.len() - 2]@))) by {
                            assert(rows@[rows@.len() - 2] == rows0[rows0.len() - 1]);
                        }
                    }
                }
                Err(e) => {
                    proof {
                        assert(vcur.len() >= 2);
                        assert(level_collides(vcur, seen));
                        assert(build_collides(vcur, seen));
                        assert(build_collides(v0, Seq::empty()));
                    }
                    return Err(MerkleError::RelationCollision);
                }
            }
        }
        proof {
            assert(!build_collides(views_of(rows@.last()@), key_views(products@)));
            assert(!build_collides(v0, Seq::empty()));
            assert forall|l0: Seq<Seq<u8>>|
                #[trigger] is_leaf_key_seq(l0, inputs@) implies !build_collides(
                l0,
                Seq::empty(),
            ) by {
                assert forall|x: Seq<u8>| l0.contains(x) <==> v0.contains(x) by {
                    if l0.contains(x) {
                        let m = choose|m: int| 0 <= m < l0.len() && l0[m] == x;
                        assert(key_of_some_input(l0[m], inputs@));
                        let i = choose|i: int|
                            0 <= i < inputs@.len() && x == leaf_hash_of((#[trigger] inputs@[i])@);
                        assert(v0.contains(x));
                    }
                    if v0.contains(x) {
                        let m = choose|m: int| 0 <= m < v0.len() && v0[m] == x;
                        assert(key_of_some_input(v0[m], inputs@));
                        let i = choose|i: int|
                            0 <= i < inputs@.len() && x == leaf_hash_of((#[trigger] inputs@[i])@);
                        assert(l0.contains(x));
                    }
                }
                lemma_sorted_keys_unique(l0, v0);
            }
        }
        let root = rows[rows.len() - 1][0];
        let mut tree = MerkleTree {
            token_hash,
            rows,
            product_hashes: products,
            proofs: Vec::new(),
            root,
        };
        proof {
            assert(tree.wf_levels());
            assert(tree.wf_leaves()) by {
                assert forall|j2: int|
                    0 <= j2 < tree.token_hash@.len() implies (
                #[trigger] tree.token_hash@[j2]).0@ == tree.rows@[0]@[j2]@ by {
                    assert(v0[j2] == tree.token_hash@[j2].0@);
                    assert(v0[j2] == tree.rows@[0]@[j2]@);
                }
            }
            assert(tree.wf_root());
            assert(tree.wf_relations());
        }
        tree.calculate_proofs();
        Ok(tree)
    }
}

} // verus!

verus! {

/// Replaying a proof path: combine the accumulator with each sibling hash in
/// order, by the canonical rule.
pub open spec fn fold_combine(acc: Seq<u8>, pf: Seq<Seq<u8>>) -> Seq<u8>
    decreases pf.len(),
{
    if pf.len() == 0 {
        acc
    } else {
        fold_combine(combine(acc, pf[0]), pf.drop_first())
    }
}

proof fn lemma_fold_push(acc: Seq<u8>, s: Seq<Seq<u8>>, x: Seq<u8>)
    ensures
        fold_combine(acc, s.push(x)) == combine(fold_combine(acc, s), x),
    decreases s.len(),
{
    if s.len() == 0 {
        assert(s.push(x)[0] == x);
        assert(s.push(x).drop_first() =~= Seq::<Seq<u8>>::empty());
        assert(fold_combine(acc, s.push(x)) == fold_combine(
            combine(acc, x),
            s.push(x).drop_first(),
        ));
        assert(fold_combine(acc, s) == acc);
    } else {
        assert(s.push(x)[0] == s[0]);
        assert(s.push(x).drop_first() =~= s.drop_first().push(x));
        assert(fold_combine(acc, s.push(x)) == fold_combine(
            combine(acc, s[0]),
            s.drop_first().push(x),
        ));
        assert(fold_combine(acc, s) == fold_combine(combine(acc, s[0]), s.drop_first()));
        lemma_fold_push(combine(acc, s[0]), s.drop_first(), x);
    }
}

/// Climbing `i` levels from leaf position `j`: folding the first `i` proof
/// siblings lands exactly on the leaf's ancestor at level `i`.
proof fn lemma_walk(t: &MerkleTree, j: int, i: int)
    requires
        t.wf_levels(),
        t.wf_proofs(),
        0 <= j < t.rows@[0]@.len(),
        0 <= i <= t.rows@.len() - 1,
    ensures
        0 <= pos_at(j, i) < t.rows@[i]@.len(),
        fold_combine(t.rows@[0]@[j]@, views_of(t.proofs@[j].1@).take(i)) == t.rows@[i]@[pos_at(
            j,
            i,
        )]@,
    decreases i,
{
    let leaf = t.rows@[0]@[j]@;
    let pviews = views_of(t.proofs@[j].1@);
    if i == 0 {
        assert(pviews.take(0) =~= Seq::<Seq<u8>>::empty());
    } else {
        lemma_walk(t, j, i - 1);
        let p = pos_at(j, i - 1);
        let vrow = views_of(t.rows@[i - 1]@);
        let s = sibling_index(p);
        assert(t.proofs@[j].1@.len() == t.rows@.len() - 1);
        assert(pviews.len() == t.rows@.len() - 1);
        assert(pviews.take(i) =~= pviews.take(i - 1).push(pviews[i - 1]));
        lemma_fold_push(leaf, pviews.take(i - 1), pviews[i - 1]);
        assert(pviews[i - 1] == t.proofs@[j].1@[i - 1]@);
        assert(pviews[i - 1] == vpad_at(vrow, s));
        assert(views_of(t.rows@[i]@) == vlevel_up(vrow));
        assert(views_of(t.rows@[i]@).len() == t.rows@[i]@.len());
        assert(vlevel_up(vrow).len() == level_len(vrow.len() as int));
        assert(t.rows@[i]@.len() == level_len(vrow.len() as int));
        assert(0 <= p / 2 < level_len(vrow.len() as int));
        assert(views_of(t.rows@[i]@)[p / 2] == t.rows@[i]@[p / 2]@);
        assert(vlevel_up(vrow)[p / 2] == vparent_at(vrow, p / 2));
        assert(t.rows@[i]@[p / 2]@ == vparent_at(vrow, p / 2));
        assert(t.rows@[i - 1]@[p]@ == vrow[p]);
        assert(vrow[p] == vpad_at(vrow, p));
        if p % 2 == 0 {
            assert(2 * (p / 2) == p);
            assert(vparent_at(vrow, p / 2) == combine(vpad_at(vrow, p), vpad_at(vrow, s)));
        } else {
            assert(2 * (p / 2) == p - 1);
            assert(vparent_at(vrow, p / 2) == combine(vpad_at(vrow, s), vpad_at(vrow, p)));
            crate::hashing::lemma_combine_commutes(vpad_at(vrow, p), vpad_at(vrow, s));
        }
        assert(fold_combine(leaf, pviews.take(i)) == combine(
            fold_combine(leaf, pviews.take(i - 1)),
            pviews[i - 1],
        ));
    }
}

/// ROUND TRIP: replaying any leaf's proof sequence through the canonical
/// combine rule, starting from that leaf's hash, reproduces the root hash
/// exactly.
pub proof fn lemma_round_trip(t: &MerkleTree, j: int)
    requires
        t.wf(),
        0 <= j < t.proofs@.len(),
    ensures
        fold_combine(t.proofs@[j].0@, views_of(t.proofs@[j].1@)) == t.root@,
{
    let height = t.rows@.len() - 1;
    lemma_walk(t, j, height);
    assert(views_of(t.proofs@[j].1@).take(height) =~= views_of(t.proofs@[j].1@));
    assert(pos_at(j, height) == 0);
    assert(t.proofs@[j].0@ == t.rows@[0]@[j]@);
}

/// SINGLE LEAF: a leaf set of size one gives a one-level tree whose root is
/// that leaf's hash, with an empty proof sequence for it.
pub proof fn lemma_single_leaf(t: &MerkleTree)
    requires
        t.wf(),
        t.token_hash@.len() == 1,
    ensures
        t.rows@.len() == 1,
        t.root@ == t.token_hash@[0].0@,
        t.proofs@.len() == 1,
        t.proofs@[0].1@.len() == 0,
{
    if t.rows@.len() > 1 {
        assert(t.rows@[0]@.len() > 1);
        assert(false);
    }
}

/// The two leaf sets hold the same records under the same hashes, entry for
/// entry.
pub open spec fn same_leaf_set(
    s1: Seq<(NodeHash, Vec<Field>)>,
    s2: Seq<(NodeHash, Vec<Field>)>,
) -> bool {
    &&& s1.len() == s2.len()
    &&& forall|m: int|
        0 <= m < s1.len() ==> (#[trigger] s1[m]).0@ == (#[trigger] s2[m]).0@ && s1[m].1@
            == s2[m].1@
}

proof fn lemma_rows_agree(t1: &MerkleTree, t2: &MerkleTree, i: int)
    requires
        t1.wf_levels(),
        t2.wf_levels(),
        views_of(t1.rows@[0]@) == views_of(t2.rows@[0]@),
        0 <= i < t1.rows@.len(),
        i < t2.rows@.len(),
    ensures
        views_of(t1.rows@[i]@) == views_of(t2.rows@[i]@),
    decreases i,
{
    if i > 0 {
        lemma_rows_agree(t1, t2, i - 1);
    }
}

proof fn lemma_rels_upto_congruent(r1: Seq<Vec<NodeHash>>, r2: Seq<Vec<NodeHash>>, i: int)
    requires
        0 <= i <= r1.len(),
        i <= r2.len(),
        forall|m: int| 0 <= m < i ==> views_of((#[trigger] r1[m])@) == views_of(r2[m]@),
    ensures
        rels_upto(r1, i) == rels_upto(r2, i),
    decreases i,
{
    if i > 0 {
        lemma_rels_upto_congruent(r1, r2, i - 1);
    }
}

proof fn lemma_proofs_agree(t1: &MerkleTree, t2: &MerkleTree, j: int)
    requires
        t1.wf_levels(),
        t2.wf_levels(),
        t1.wf_proofs(),
        t2.wf_proofs(),
        t1.rows@.len() == t2.rows@.len(),
        forall|i: int|
            0 <= i < t1.rows@.len() ==> views_of((#[trigger] t1.rows@[i])@) == views_of(
                t2.rows@[i]@,
            ),
        0 <= j < t1.proofs@.len(),
    ensures
        t1.proofs@.len() == t2.proofs@.len(),
        t1.proofs@[j].0@ == t2.proofs@[j].0@,
        views_of(t1.proofs@[j].1@) == views_of(t2.proofs@[j].1@),
{
    assert(views_of(t1.rows@[0]@) == views_of(t2.rows@[0]@));
    assert(t1.rows@[0]@.len() == t2.rows@[0]@.len());
    assert(t1.proofs@[j].0@ == t1.rows@[0]@[j]@);
    assert(t1.rows@[0]@[j]@ == views_of(t1.rows@[0]@)[j]);
    assert(t2.rows@[0]@[j]@ == views_of(t2.rows@[0]@)[j]);
    assert forall|i: int|
        0 <= i < t1.rows@.len() - 1 implies views_of(t1.proofs@[j].1@)[i] == views_of(
        t2.proofs@[j].1@,
    )[i] by {
        assert(views_of(t1.proofs@[j].1@)[i] == t1.proofs@[j].1@[i]@);
        assert(views_of(t2.proofs@[j].1@)[i] == t2.proofs@[j].1@[i]@);
        assert(t1.proofs@[j].1@[i]@ == vpad_at(
            views_of(t1.rows@[i]@),
            sibling_index(pos_at(j, i)),
        ));
        assert(t2.proofs@[j].1@[i]@ == vpad_at(
            views_of(t2.rows@[i]@),
            sibling_index(pos_at(j, i)),
        ));
    }
    assert(views_of(t1.proofs@[j].1@) =~= views_of(t2.proofs@[j].1@));
}

/// DETERMINISM: two well-formed trees over the same leaf set are identical
/// hash for hash: same levels, same root, same relation map, same proofs.
#[verifier::rlimit(100)]
pub proof fn lemma_determinism(t1: &MerkleTree, t2: &MerkleTree)
    requires
        t1.wf(),
        t2.wf(),
        same_leaf_set(t1.token_hash@, t2.token_hash@),
    ensures
        t1.rows@.len() == t2.rows@.len(),
        forall|i: int|
            0 <= i < t1.rows@.len() ==> views_of((#[trigger] t1.rows@[i])@) == views_of(
                t2.rows@[i]@,
            ),
        t1.root@ == t2.root@,
        rel_views(t1.product_hashes@) == rel_views(t2.product_hashes@),
        t1.proofs@.len() == t2.proofs@.len(),
        forall|j: int|
            0 <= j < t1.proofs@.len() ==> (#[trigger] t1.proofs@[j]).0@ == t2.proofs@[j].0@
                && views_of(t1.proofs@[j].1@) == views_of(t2.proofs@[j].1@),
{
    lemma_level0_agree(t1, t2);
    lemma_levels_agree(t1, t2);
    assert(t1.root@ == views_of(t1.rows@[t1.rows@.len() - 1]@)[0]);
    assert(t2.root@ == views_of(t2.rows@[t2.rows@.len() - 1]@)[0]);
    lemma_rels_upto_congruent(t1.rows@, t2.rows@, t1.rows@.len() - 1);
    assert forall|j: int|
        0 <= j < t1.proofs@.len() implies (#[trigger] t1.proofs@[j]).0@ == t2.proofs@[j].0@
            && views_of(t1.proofs@[j].1@) == views_of(t2.proofs@[j].1@) by {
        lemma_proofs_agree(t1, t2, j);
    }
}

#[verifier::rlimit(100)]
#[verifier::spinoff_prover]
proof fn lemma_level0_agree(t1: &MerkleTree, t2: &MerkleTree)
    requires
        t1.rows@.len() >= 1,
        t2.rows@.len() >= 1,
        t1.token_hash@.len() == t1.rows@[0]@.len(),
        t2.token_hash@.len() == t2.rows@[0]@.len(),
        forall|j: int|
            0 <= j < t1.token_hash@.len() ==> (#[trigger] t1.token_hash@[j]).0@
                == t1.rows@[0]@[j]@,
        forall|j: int|
            0 <= j < t2.token_hash@.len() ==> (#[trigger] t2.token_hash@[j]).0@
                == t2.rows@[0]@[j]@,
        same_leaf_set(t1.token_hash@, t2.token_hash@),
    ensures
        views_of(t1.rows@[0]@) == views_of(t2.rows@[0]@),
{
    assert forall|m: int|
        0 <= m < t1.rows@[0]@.len() implies views_of(t1.rows@[0]@)[m] == views_of(
        t2.rows@[0]@,
    )[m] by {
        assert(t1.token_hash@[m].0@ == t2.token_hash@[m].0@);
        assert(t1.token_hash@[m].0@ == t1.rows@[0]@[m]@);
        assert(t2.token_hash@[m].0@ == t2.rows@[0]@[m]@);
    }
    assert(views_of(t1.rows@[0]@) =~= views_of(t2.rows@[0]@));
}

#[verifier::rlimit(100)]
#[verifier::spinoff_prover]
proof fn lemma_levels_agree(t1: &MerkleTree, t2: &MerkleTree)
    requires
        t1.wf_levels(),
        t2.wf_levels(),
        views_of(t1.rows@[0]@) == views_of(t2.rows@[0]@),
    ensures
        t1.rows@.len() == t2.rows@.len(),
        forall|i: int|
            0 <= i < t1.rows@.len() ==> views_of((#[trigger] t1.rows@[i])@) == views_of(
                t2.rows@[i]@,
            ),
{
    if t1.rows@.len() < t2.rows@.len() {
        let i = t1.rows@.len() - 1;
        lemma_rows_agree(t1, t2, i);
        assert(views_of(t1.rows@[i]@).len() == t1.rows@[i]@.len());
        assert(views_of(t2.rows@[i]@).len() == t2.rows@[i]@.len());
        assert(t1.rows@.last() == t1.rows@[i]);
        assert(t1.rows@[i]@.len() == 1);
        assert(t2.rows@[i]@.len() > 1);
        assert(false);
    }
    if t2.rows@.len() < t1.rows@.len() {
        let i = t2.rows@.len() - 1;
        lemma_rows_agree(t1, t2, i);
        assert(views_of(t1.rows@[i]@).len() == t1.rows@[i]@.len());
        assert(views_of(t2.rows@[i]@).len() == t2.rows@[i]@.len());
        assert(t2.rows@.last() == t2.rows@[i]);
        assert(t2.rows@[i]@.len() == 1);
        assert(t1.rows@[i]@.len() > 1);
        assert(false);
    }
    assert forall|i: int|
        0 <= i < t1.rows@.len() implies views_of((#[trigger] t1.rows@[i])@) == views_of(
        t2.rows@[i]@,
    ) by {
        lemma_rows_agree(t1, t2, i);
    }
}

} // verus!

verus! {

/// One output bundle for a leaf: the record's fields, the leaf's
/// sibling proof path, the root hash, and the leaf hash itself.
#[derive(Clone, Debug, PartialEq, Eq)]
pub struct Data {
    pub inputs: Vec<Field>,
    pub proof: Vec<NodeHash>,
    pub root: NodeHash,
    pub leaf: NodeHash,
}

impl Data {
    pub fn new(inputs: Vec<Field>, proof: Vec<NodeHash>, root: NodeHash, leaf: NodeHash) -> (r:
        Data)
        ensures
            r.inputs == inputs,
            r.proof == proof,
            r.root == root,
            r.leaf == leaf,
    {
        Data { inputs, proof, root, leaf }
    }
}

fn clone_hashes(r: &Vec<NodeHash>) -> (out: Vec<NodeHash>)
    ensures
        out@ == r@,
{
    let mut out: Vec<NodeHash> = Vec::new();
    let mut i: usize = 0;
    while i < r.len()
        invariant
            0 <= i <= r@.len(),
            out@ =~= r@.subrange(0, i as int),
        decreases r@.len() - i,
    {
        out.push(r[i]);
        i += 1;
    }
    proof {
        assert(out@ =~= r@);
    }
    out
}

impl MerkleTree {
    /// The per-leaf output bundles, in leaf order: entry `j` pairs the record
    /// and proof of leaf `j` with the tree's root.
    pub fn bundles(&self) -> (r: Vec<Data>)
        requires
            self.token_hash@.len() == self.proofs@.len(),
        ensures
            r@.len() == self.token_hash@.len(),
            forall|j: int|
                0 <= j < r@.len() ==> {
                    &&& (#[trigger] r@[j]).inputs@ == self.token_hash@[j].1@
                    &&& r@[j].proof@ == self.proofs@[j].1@
                    &&& r@[j].root == self.root
                    &&& r@[j].leaf == self.token_hash@[j].0
                },
    {
        let mut r: Vec<Data> = Vec::new();
        let mut j: usize = 0;
        while j < self.token_hash.len()
            invariant
                0 <= j <= self.token_hash@.len(),
                self.token_hash@.len() == self.proofs@.len(),
                r@.len() == j,
                forall|m: int|
                    0 <= m < j ==> {
                        &&& (#[trigger] r@[m]).inputs@ == self.token_hash@[m].1@
                        &&& r@[m].proof@ == self.proofs@[m].1@
                        &&& r@[m].root == self.root
                        &&& r@[m].leaf == self.token_hash@[m].0
                    },
            decreases self.token_hash@.len() - j,
        {
            let rec = crate::encoder::clone_record(&self.token_hash[j].1);
            let pf = clone_hashes(&self.proofs[j].1);
            r.push(Data::new(rec, pf, self.root, self.token_hash[j].0));
            j += 1;
        }
        r
    }
}

} // verus!
