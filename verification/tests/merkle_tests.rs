use ethers::types::Address;
use ethers::types::U256;
use merkle_generator::Field;
use merkle_generator::MerkleError;
use merkle_generator::MerkleTree;
use merkle_generator::NodeHash;
use merkle_generator::combine_hashes;
use merkle_generator::hash;
use merkle_generator::hash_all_tokens;
use merkle_generator::hash_tokens;

fn uint_field(x: U256) -> Field {
    let mut b = [0u8; 32];
    x.to_big_endian(&mut b);
    Field::Uint(b)
}

fn addr_field(s: &str) -> Field {
    Field::Address(s.parse::<Address>().unwrap().0)
}

fn input_tokens() -> Vec<Vec<Field>> {
    let deployer = addr_field("0x599A9d94b12dD3313211BD1AE9E35a30c0753f5E");
    vec![
        vec![
            deployer,
            uint_field(U256::from(250) * U256::exp10(18)),
            uint_field(U256::from(0)),
        ],
        vec![
            deployer,
            uint_field(U256::from(0)),
            uint_field(U256::from(125) * U256::exp10(18)),
        ],
        vec![deployer, uint_field(U256::from(0)), uint_field(U256::from(0))],
    ]
}

fn uint_record(n: u64) -> Vec<Field> {
    vec![uint_field(U256::from(n))]
}

fn hex32(s: &str) -> [u8; 32] {
    let mut b = [0u8; 32];
    for i in 0..32 {
        b[i] = u8::from_str_radix(&s[2 * i..2 * i + 2], 16).unwrap();
    }
    b
}

fn replay(leaf: &NodeHash, proof: &[NodeHash], root: &NodeHash) -> bool {
    let mut acc = *leaf;
    for s in proof {
        acc = combine_hashes(&acc, s);
    }
    acc == *root
}

#[test]
fn generation_test_hash_by_leaves() {
    let input_tokens = input_tokens();
    let tree = MerkleTree::new(&input_tokens).unwrap();
    println!("Merkle Tree: {:#?}", tree)
}

#[test]
fn lib_test_hash_by_leaves() {
    let input_tokens = input_tokens();
    let tree = MerkleTree::new(&input_tokens).unwrap();
    println!("Merkle Tree: {:#?}", tree)
}

#[test]
fn empty_input_is_refused() {
    let empty: Vec<Vec<Field>> = vec![];
    assert_eq!(MerkleTree::new(&empty), Err(MerkleError::EmptyInput));
}

#[test]
fn single_leaf_tree_root_is_leaf() {
    let inputs = vec![uint_record(7)];
    let tree = MerkleTree::new(&inputs).unwrap();
    assert_eq!(tree.rows.len(), 1);
    assert_eq!(tree.token_hash.len(), 1);
    assert_eq!(tree.root, tree.token_hash[0].0);
    assert_eq!(tree.root, hash_tokens(&inputs[0]));
    assert_eq!(tree.proofs.len(), 1);
    assert!(tree.proofs[0].1.is_empty());
    assert!(tree.product_hashes.is_empty());
}

#[test]
fn combine_is_commutative() {
    let a = NodeHash::new([3u8; 32]);
    let b = NodeHash::new([200u8; 32]);
    assert_eq!(combine_hashes(&a, &b), combine_hashes(&b, &a));
    assert_eq!(combine_hashes(&a, &a), combine_hashes(&a, &a));
}

#[test]
fn combine_zero_hashes_matches_known_digest() {
    // keccak256 of 64 zero bytes
    let zero = NodeHash::new([0u8; 32]);
    let expected = NodeHash::new(hex32(
        "ad3228b676f7d3cd4284a5443f17f1962b36e491b30a40b2405849e597ba5fb5",
    ));
    assert_eq!(combine_hashes(&zero, &zero), expected);
}

#[test]
fn leaf_hash_matches_known_digest() {
    // keccak256 of one zero ABI word
    let expected = NodeHash::new(hex32(
        "290decd9548b62a8d60345a988386fc84ba6bc95484008f6362f93160ef3e563",
    ));
    assert_eq!(hash_tokens(&uint_record(0)), expected);
}

#[test]
fn distinct_records_hash_differently() {
    assert_ne!(hash_tokens(&uint_record(1)), hash_tokens(&uint_record(2)));
    assert_eq!(hash_tokens(&uint_record(1)), hash_tokens(&uint_record(1)));
}

#[test]
fn leaf_set_is_sorted_and_deduplicated() {
    let inputs = vec![uint_record(5), uint_record(9), uint_record(5)];
    let entries = hash_all_tokens(&inputs);
    assert_eq!(entries.len(), 2);
    assert!(entries[0].0.less_than(&entries[1].0));
    for e in &entries {
        assert_eq!(e.0, hash_tokens(&e.1));
    }
}

#[test]
fn level_hasher_duplicates_last_on_odd_width() {
    let a = hash_tokens(&uint_record(1));
    let b = hash_tokens(&uint_record(2));
    let c = hash_tokens(&uint_record(3));
    let level = vec![a, b, c];
    let mut products = Vec::new();
    let out = hash(&level, &mut products).unwrap();
    assert_eq!(out.len(), 2);
    assert_eq!(out[0], combine_hashes(&a, &b));
    assert_eq!(out[1], combine_hashes(&c, &c));
    assert_eq!(products.len(), 2);
    assert_eq!(products[0], (out[0], (a, b)));
    assert_eq!(products[1], (out[1], (c, c)));
}

#[test]
fn relation_collision_is_reported() {
    let a = hash_tokens(&uint_record(1));
    let b = hash_tokens(&uint_record(2));
    let parent = combine_hashes(&a, &b);
    let mut products = vec![(parent, (a, b))];
    let r = hash(&vec![a, b], &mut products);
    assert_eq!(r, Err(MerkleError::RelationCollision));
    assert_eq!(products.len(), 1);
}

#[test]
fn four_leaf_structure_and_first_proof() {
    let inputs = vec![uint_record(1), uint_record(2), uint_record(3), uint_record(4)];
    let tree = MerkleTree::new(&inputs).unwrap();
    assert_eq!(tree.rows.len(), 3);
    let l0 = &tree.rows[0];
    assert_eq!(l0.len(), 4);
    // level 0 is sorted ascending
    for w in l0.windows(2) {
        assert!(w[0].less_than(&w[1]));
    }
    let l1 = &tree.rows[1];
    assert_eq!(l1.len(), 2);
    assert_eq!(l1[0], combine_hashes(&l0[0], &l0[1]));
    assert_eq!(l1[1], combine_hashes(&l0[2], &l0[3]));
    assert_eq!(tree.rows[2].len(), 1);
    assert_eq!(tree.root, combine_hashes(&l1[0], &l1[1]));
    // the proof of the first leaf is its sibling, then the other branch
    assert_eq!(tree.proofs[0].0, l0[0]);
    assert_eq!(tree.proofs[0].1, vec![l0[1], l1[1]]);
}

#[test]
fn proofs_replay_to_root() {
    let mut inputs = input_tokens();
    inputs.push(uint_record(11));
    inputs.push(uint_record(12));
    let tree = MerkleTree::new(&inputs).unwrap();
    assert_eq!(tree.proofs.len(), 5);
    for (leaf, proof) in &tree.proofs {
        assert!(replay(leaf, proof, &tree.root));
    }
}

#[test]
fn build_is_order_independent() {
    let inputs = vec![uint_record(1), uint_record(2), uint_record(3)];
    let reversed = vec![uint_record(3), uint_record(2), uint_record(1)];
    let t1 = MerkleTree::new(&inputs).unwrap();
    let t2 = MerkleTree::new(&reversed).unwrap();
    assert_eq!(t1, t2);
}

#[test]
fn colliding_records_collapse_to_one_leaf() {
    let twice = vec![uint_record(8), uint_record(8), uint_record(3)];
    let once = vec![uint_record(8), uint_record(3)];
    let t1 = MerkleTree::new(&twice).unwrap();
    assert_eq!(t1.token_hash.len(), 2);
    assert_eq!(t1.rows[0].len(), 2);
    assert_eq!(t1.proofs.len(), 2);
    assert_eq!(t1, MerkleTree::new(&once).unwrap());
}

#[test]
fn bundles_project_the_tree() {
    let inputs = vec![uint_record(1), uint_record(2), uint_record(3)];
    let tree = MerkleTree::new(&inputs).unwrap();
    let bundles = tree.bundles();
    assert_eq!(bundles.len(), tree.token_hash.len());
    for (j, b) in bundles.iter().enumerate() {
        assert_eq!(b.leaf, tree.token_hash[j].0);
        assert_eq!(b.inputs, tree.token_hash[j].1);
        assert_eq!(b.proof, tree.proofs[j].1);
        assert_eq!(b.root, tree.root);
        assert!(replay(&b.leaf, &b.proof, &b.root));
    }
}
