use rustchain::block::Block;
use rustchain::node::{chain_dir_for, MinerNode, SyncError};
use rustchain::settings::BlockSettings;

fn settings() -> BlockSettings {
    BlockSettings { number_of_zeroes: 2, chain_directory: String::from("test_chaindata") }
}

#[test]
fn concurrent_mine() {
    let settings = settings();

    let mut main_node = MinerNode::new(3000, &settings, &Vec::new()).unwrap();

    // a node over an empty directory bootstraps with an initial block
    assert_eq!(main_node.block_chain.len(), 1);

    // Start by mining 6 blocks
    main_node.mine_to_size(6).unwrap();

    // what the main node serves and stores
    let served = main_node.block_chain.to_json();
    let main_files = main_node.block_chain.save_chain();

    {
        let mut secondary_node = MinerNode::new(3001, &settings, &Vec::new()).unwrap();

        assert_eq!(secondary_node.block_chain.len(), 1);

        // Pull the main node's chain
        secondary_node.chain_sync(&served).unwrap();

        assert_eq!(main_node.block_chain, secondary_node.block_chain);
        assert_eq!(secondary_node.block_chain.save_chain(), main_files);
    }

    // reopening the secondary node's directory gives the same chain
    let stored: Vec<String> = main_files.into_iter().map(|(_, text)| text).collect();
    let secondary_node = MinerNode::new(3001, &settings, &stored).unwrap();

    assert_eq!(main_node.block_chain, secondary_node.block_chain);
}

#[test]
fn mine_to_size_six_gives_a_linked_chain() {
    let mut node = MinerNode::new(3002, &settings(), &Vec::new()).unwrap();
    node.mine_to_size(6).unwrap();
    let blocks = &node.block_chain.node_blocks;
    assert_eq!(blocks.len(), 6);
    for (i, b) in blocks.iter().enumerate() {
        assert_eq!(b.index as usize, i);
        assert!(b.is_valid(2));
        if i > 0 {
            assert_eq!(b.prev_hash, blocks[i - 1].hash);
        }
    }
    assert_eq!(blocks[0].prev_hash, "");
    // a smaller target leaves the chain as it is
    node.mine_to_size(3).unwrap();
    assert_eq!(node.block_chain.len(), 6);
}

#[test]
fn chain_sync_adopts_a_broken_chain() {
    let mut a = MinerNode::new(3003, &settings(), &Vec::new()).unwrap();
    a.mine_to_size(5).unwrap();
    a.block_chain.node_blocks[3].prev_hash = String::from("does not match");
    let body = a.block_chain.to_json();
    let mut b = MinerNode::new(3004, &settings(), &Vec::new()).unwrap();
    assert_eq!(b.chain_sync(&body), Ok(()));
    assert_eq!(b.block_chain.len(), 5);
    assert_eq!(b.block_chain.node_blocks[3].prev_hash, "does not match");
    assert_eq!(b.block_chain, a.block_chain);
}

#[test]
fn chain_sync_rejects_an_undecodable_answer() {
    let mut b = MinerNode::new(3005, &settings(), &Vec::new()).unwrap();
    let before = b.block_chain.node_blocks[0].hash.clone();
    assert_eq!(b.chain_sync("<html>not found</html>"), Err(SyncError::Undecodable));
    assert_eq!(b.block_chain.len(), 1);
    assert_eq!(b.block_chain.node_blocks[0].hash, before);
}

#[test]
fn mine_to_size_leaves_a_long_enough_chain() {
    let mut node = MinerNode::new(3007, &settings(), &Vec::new()).unwrap();
    node.mine_to_size(3).unwrap();
    let hashes: Vec<String> = node.block_chain.node_blocks.iter().map(|b| b.hash.clone()).collect();
    assert_eq!(node.mine_to_size(2), Ok(()));
    assert_eq!(node.mine_to_size(3), Ok(()));
    let after: Vec<String> = node.block_chain.node_blocks.iter().map(|b| b.hash.clone()).collect();
    assert_eq!(after, hashes);
}

#[test]
fn node_directory_is_base_slash_port() {
    assert_eq!(chain_dir_for("chaindata", 3000), "chaindata/3000");
    let node = MinerNode::new(3001, &settings(), &Vec::new()).unwrap();
    assert_eq!(node.block_chain.chain_dir, "test_chaindata/3001");
    assert_eq!(node.port, 3001);
    assert_eq!(node.block_chain.difficulty, 2);
}

#[test]
fn node_over_corrupt_files_fails() {
    let stored = vec![Block::default().serialize(), String::from("garbage")];
    assert!(MinerNode::new(3006, &settings(), &stored).is_err());
}
