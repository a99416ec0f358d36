//! A single-writer demo blockchain node: proof-of-work mining, a verified
//! text encoding of blocks, chain assembly with linkage checking, and
//! wholesale adoption of a peer's chain.
pub mod digits;
pub mod text;
pub mod timestamp;
pub mod block;
pub mod codec;
pub mod block_chain;
pub mod settings;
pub mod node;

pub use block::Block;
pub use block_chain::{BlockChain, ChainError};
pub use node::{MinerNode, SyncError};
pub use timestamp::Timestamp;
