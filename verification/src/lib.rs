//! A binary Merkle hash tree over a set of leaf records.

pub mod encoder;
pub mod hashing;
pub mod merkle;

pub use encoder::Field;
pub use encoder::hash_all_tokens;
pub use encoder::hash_tokens;
pub use hashing::NodeHash;
pub use hashing::combine_hashes;
pub use merkle::Data;
pub use merkle::MerkleError;
pub use merkle::MerkleTree;
pub use merkle::hash;
