//! Binary merkle tree storage engine.
//!
//! A tree is a root value and a backend that holds the inner nodes: each inner
//! node is stored under the hash of its two children, with a count of the
//! references that are held on it. `Raw` reads and writes such a tree by
//! generalized merkle index; `MerkleTuple`, `MerkleVec` and `PackedVec` are
//! sequences built on it; `ProvingBackend` records what reads touch, as `Proofs` that can be
//! made compact and populate another backend.
//!
//! The contracts are stated over a model of the backend (`store`) and of reads
//! and writes (`tree`). What holds of them is proved in `laws`, `counting`,
//! `tidy`, `order`, `sequence` and `compact`.

pub mod backend;
pub mod compact;
pub mod counting;
pub mod digest;
pub mod error;
pub mod index;
pub mod laws;
pub mod memory;
pub mod order;
pub mod packed;
pub mod packed_vec;
pub mod proofs;
pub mod proving;
pub mod raw;
pub mod scalar;
pub mod sequence;
pub mod serialize;
pub mod slots;
pub mod store;
pub mod tidy;
pub mod tree;
pub mod tuple;
pub mod value;
pub mod vec;

pub use crate::backend::{EmptyBackend, ReadBackend, WriteBackend};
pub use crate::compact::Compact;
pub use crate::digest::{Sha256Construct, Sha256WordConstruct};
pub use crate::error::Error;
pub use crate::index::{Index, IndexRoute, IndexSelection};
pub use crate::memory::InMemoryBackend;
pub use crate::packed_vec::{DanglingPackedVec, OwnedPackedVec, PackedVec};
pub use crate::proofs::{KeySet, Proofs};
pub use crate::proving::ProvingBackend;
pub use crate::raw::{DanglingRaw, OwnedRaw, Raw};
pub use crate::tuple::{DanglingMerkleTuple, MerkleTuple, OwnedMerkleTuple};
pub use crate::value::{Construct, Dangling, Owned, RootStatus, Value};
pub use crate::vec::{DanglingMerkleVec, MerkleVec, OwnedMerkleVec};
