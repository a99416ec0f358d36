//! The configuration a node runs with.
use vstd::prelude::*;

verus! {

/// How blocks are mined and where they are stored.
#[derive(Debug, Clone)]
pub struct BlockSettings {
    /// The difficulty: how many leading `'0'` characters a block hash needs.
    pub number_of_zeroes: usize,
    /// The directory under which each node keeps its chain.
    pub chain_directory: String,
}

#[derive(Debug, Clone)]
pub struct Settings {
    pub block_settings: BlockSettings,
}

} // verus!
