use rustchain::block::Block;
use rustchain::block_chain::{BlockChain, ChainError};
use rustchain::codec::{decode_blocks, encode_blocks};
use rustchain::timestamp::Timestamp;

const DIFFICULTY: usize = 2;

fn at(secs: u32) -> Timestamp {
    Timestamp::new(2020, 6, 1, 12, secs / 60, secs % 60, 0).unwrap()
}

fn empty_chain() -> BlockChain {
    BlockChain { node_blocks: Vec::new(), chain_dir: String::from("chain/3000"), difficulty: DIFFICULTY }
}

/// A linked chain of `n` blocks, mined at fixed instants.
fn mined_chain(n: usize) -> BlockChain {
    let mut chain = BlockChain::new_at(String::from("chain/3000"), DIFFICULTY, &Vec::new(), at(0)).unwrap();
    let mut s: u32 = 1;
    while chain.len() < n {
        chain.mine_at(at(s)).unwrap();
        s += 1;
    }
    chain
}

fn stored(chain: &BlockChain) -> Vec<String> {
    chain.save_chain().into_iter().map(|(_, text)| text).collect()
}

#[test]
fn chain_equality() {
    let blocks1 = vec![Block::default(), Block::default()];
    let blocks2 = vec![Block::default(), Block::default()];

    let mut chain1 = BlockChain { node_blocks: blocks1, chain_dir: String::default(), difficulty: DIFFICULTY };
    let mut chain2 = BlockChain { node_blocks: blocks2, chain_dir: String::default(), difficulty: DIFFICULTY };

    assert_eq!(chain1, chain2);

    chain2.node_blocks.push(Block::default());

    assert_ne!(chain1, chain2);

    chain1.node_blocks.push(Block::create_first_block(DIFFICULTY).unwrap());

    assert_ne!(chain1, chain2);
}

#[test]
fn open_empty_directory_gives_genesis() {
    let chain = BlockChain::new(String::from("chain/3000"), DIFFICULTY, &Vec::new()).unwrap();
    assert_eq!(chain.len(), 1);
    let g = &chain.node_blocks[0];
    assert_eq!(g.index, 0);
    assert_eq!(g.prev_hash, "");
    assert!(g.is_valid(DIFFICULTY));
    assert_eq!(chain.chain_dir, "chain/3000");
}

#[test]
fn sync_orders_blocks_by_index() {
    let chain = mined_chain(5);
    let mut texts = stored(&chain);
    texts.reverse();
    texts.swap(1, 3);
    let mut other = empty_chain();
    assert_eq!(other.sync(&texts), Ok(()));
    assert_eq!(other, chain);
    for (i, b) in other.node_blocks.iter().enumerate() {
        assert_eq!(b.index as usize, i);
        if i > 0 {
            assert_eq!(b.prev_hash, other.node_blocks[i - 1].hash);
        }
    }
}

#[test]
fn sync_reports_the_first_undecodable_file() {
    let chain = mined_chain(3);
    let mut texts = stored(&chain);
    texts[1] = String::from("not a block");
    texts[2] = String::from("nor this");
    let mut other = mined_chain(1);
    assert_eq!(other.sync(&texts), Err(ChainError::Decode(1)));
    assert_eq!(other.len(), 1);
}

#[test]
fn sync_of_nothing_is_empty() {
    let mut other = mined_chain(1);
    assert_eq!(other.sync(&Vec::new()), Err(ChainError::Empty));
    assert_eq!(other.len(), 1);
}

#[test]
fn sync_rejects_a_broken_link() {
    let mut chain = mined_chain(4);
    chain.node_blocks[2].prev_hash = String::from("00ff");
    let mut other = empty_chain();
    assert_eq!(other.sync(&stored(&chain)), Err(ChainError::Integrity(2)));
    assert_eq!(other.len(), 0);
}

#[test]
fn sync_rejects_a_gap_in_indices() {
    let chain = mined_chain(4);
    let mut texts = stored(&chain);
    texts.remove(1);
    let mut other = empty_chain();
    assert!(matches!(other.sync(&texts), Err(ChainError::Integrity(_))));
}

#[test]
fn sync_rejects_a_repeated_index() {
    let chain = mined_chain(3);
    let mut texts = stored(&chain);
    texts[2] = texts[1].clone();
    let mut other = empty_chain();
    assert_eq!(other.sync(&texts), Err(ChainError::Integrity(1)));
}

#[test]
fn sync_rejects_a_chain_not_starting_at_genesis() {
    let mut chain = mined_chain(2);
    chain.node_blocks[0].prev_hash = String::from("x");
    let mut other = empty_chain();
    assert_eq!(other.sync(&stored(&chain)), Err(ChainError::Integrity(0)));
}

#[test]
fn mine_appends_successor_of_highest_block() {
    let mut chain = mined_chain(3);
    // put the highest block first: mining still builds on it
    chain.node_blocks.swap(0, 2);
    let top_hash = chain.node_blocks[0].hash.clone();
    assert_eq!(chain.mine_at(at(50)), Ok(()));
    assert_eq!(chain.len(), 4);
    let new = &chain.node_blocks[3];
    assert_eq!(new.index, 3);
    assert_eq!(new.prev_hash, top_hash);
    assert_eq!(new.data, "I block 2");
    assert!(new.is_valid(DIFFICULTY));
    assert_eq!(chain.mine(), Ok(()));
    assert_eq!(chain.node_blocks[4].index, 4);
}

#[test]
fn mine_on_empty_chain_fails() {
    let mut chain = empty_chain();
    assert_eq!(chain.mine_at(at(1)), Err(ChainError::Empty));
}

#[test]
fn mine_with_the_clock_on_empty_chain_fails() {
    let mut chain = empty_chain();
    assert_eq!(chain.mine(), Err(ChainError::Empty));
    assert_eq!(chain.len(), 0);
}

#[test]
fn mine_past_the_last_index_fails() {
    let mut chain = empty_chain();
    chain.node_blocks.push(Block { index: u32::MAX, ..Block::default() });
    assert_eq!(chain.mine_at(at(1)), Err(ChainError::IndexOverflow));
    assert_eq!(chain.len(), 1);
}

#[test]
fn save_chain_lists_one_file_per_block() {
    let chain = mined_chain(3);
    let files = chain.save_chain();
    assert_eq!(files.len(), 3);
    for (i, (name, text)) in files.iter().enumerate() {
        assert_eq!(name, &format!("{}.chain", i));
        assert_eq!(text, &chain.node_blocks[i].serialize());
    }
}

#[test]
fn chains_compare_by_length() {
    let a = mined_chain(3);
    let b = mined_chain(2);
    assert!(a.is_longer_than(&b));
    assert!(!b.is_longer_than(&a));
    assert!(!a.is_longer_than(&a));
}

#[test]
fn block_list_round_trip() {
    let chain = mined_chain(3);
    let text = chain.to_json();
    assert!(text.starts_with("[{\"index\":0,"));
    assert_eq!(text, encode_blocks(&chain.node_blocks));
    let back = decode_blocks(&text).unwrap();
    assert_eq!(back.len(), 3);
    for (a, b) in back.iter().zip(chain.node_blocks.iter()) {
        assert_eq!(a.serialize(), b.serialize());
    }
    assert_eq!(encode_blocks(&Vec::new()), "[]");
    assert_eq!(decode_blocks("[]").unwrap().len(), 0);
    assert!(decode_blocks("").is_none());
    assert!(decode_blocks("[").is_none());
    assert!(decode_blocks(&text[..text.len() - 1]).is_none());
    assert!(decode_blocks(&text.replace("},{", "} ,{")).is_none());
}
