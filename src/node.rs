//! A miner node: a chain bound to a port, grown by mining and replaced by
//! pulling a peer's chain.
use vstd::prelude::*;
use crate::block::{first_block_data, meets_difficulty, mined_block, BlockView};
use crate::block_chain::{
    decodes_to,
    lemma_mine_keeps_linked, mine_step, mined_after, places, linked, BlockChain, ChainError,
};
use crate::codec::{decode_block, decode_blocks, decode_list};
use crate::digits::decimal;
use crate::settings::BlockSettings;
use crate::text::{push_char, push_decimal};
use crate::timestamp::Timestamp;

verus! {

/// Why pulling a peer's chain failed.
#[derive(Debug, PartialEq, Eq, Structural)]
pub enum SyncError {
    /// The peer could not be reached or did not answer with success.
    Unreachable,
    /// The peer's answer is not the encoding of a sequence of blocks.
    Undecodable,
}

/// The directory of the node on `port` under `base`: `<base>/<port>`.
pub open spec fn chain_dir_of(base: Seq<char>, port: nat) -> Seq<char> {
    base + seq!['/'] + decimal(port)
}

pub fn chain_dir_for(base: &str, port: u16) -> (r: String)
    ensures
        r@ == chain_dir_of(base@, port as nat),
{
    let mut s = String::from_str(base);
    push_char(&mut s, '/');
    push_decimal(&mut s, port as u64);
    assert(s@ =~= chain_dir_of(base@, port as nat));
    s
}

pub struct MinerNode {
    pub port: u16,
    pub block_chain: BlockChain,
}

impl MinerNode {
    /// A node on `port`, its chain opened from the stored texts of the
    /// directory `<chain_directory>/<port>`.
    pub fn new(port: u16, settings: &BlockSettings, stored: &Vec<String>) -> (r: Result<
        MinerNode,
        ChainError,
    >)
        ensures
            r matches Ok(n) ==> n.port == port && n.block_chain.chain_dir@ == chain_dir_of(
                settings.chain_directory@,
                port as nat,
            ) && n.block_chain.difficulty == settings.number_of_zeroes && linked(
                n.block_chain.blocks(),
            ),
            stored.len() == 0 ==> (r matches Ok(n) ==> n.block_chain.blocks().len() == 1
                && n.block_chain.blocks()[0].timestamp.wf() && mined_block(
                0,
                n.block_chain.blocks()[0].timestamp,
                Seq::empty(),
                first_block_data(),
                settings.number_of_zeroes as nat,
            ) == Some(n.block_chain.blocks()[0]) && meets_difficulty(
                n.block_chain.blocks()[0].hash,
                settings.number_of_zeroes as nat,
            )),
            stored.len() > 0 ==> (r matches Ok(n) ==> exists|d: Seq<BlockView>|
                decodes_to(stored@, d) && places(d, n.block_chain.blocks())),
            stored.len() > 0 ==> (r is Ok <==> exists|d: Seq<BlockView>|
                decodes_to(stored@, d)
                    && exists|s: Seq<BlockView>| places(d, s) && linked(s)),
    {
        let dir = chain_dir_for(settings.chain_directory.as_str(), port);
        match BlockChain::new(dir, settings.number_of_zeroes, stored) {
            Ok(c) => Ok(MinerNode { port, block_chain: c }),
            Err(e) => Err(e),
        }
    }

    /// Mines until the chain holds at least `size` blocks. The blocks
    /// already there stay; each new block is mined on top of the highest.
    /// A chain that is long enough is left as it is.
    pub fn mine_to_size(&mut self, size: usize) -> (r: Result<(), ChainError>)
        ensures
            old(self).block_chain.blocks().len() >= size ==> r is Ok && final(self).block_chain
                == old(self).block_chain,
            old(self).block_chain.blocks().len() == 0 && size > 0 <==> r == Err::<(), ChainError>(
                ChainError::Empty,
            ),
            final(self).port == old(self).port,
            final(self).block_chain.chain_dir == old(self).block_chain.chain_dir,
            final(self).block_chain.difficulty == old(self).block_chain.difficulty,
            final(self).block_chain.blocks().len() >= old(self).block_chain.blocks().len(),
            final(self).block_chain.blocks().take(old(self).block_chain.blocks().len() as int)
                == old(self).block_chain.blocks(),
            r is Ok ==> final(self).block_chain.blocks().len() == (if old(self).block_chain.blocks().len()
                >= size {
                old(self).block_chain.blocks().len()
            } else {
                size as nat
            }),
            linked(old(self).block_chain.blocks()) ==> linked(final(self).block_chain.blocks()),
            forall|k: int|
                old(self).block_chain.blocks().len() <= k < final(self).block_chain.blocks().len()
                    ==> #[trigger] mined_after(
                    final(self).block_chain.blocks(),
                    k,
                    final(self).block_chain.difficulty as nat,
                ),
    {
        let ghost start = self.block_chain.blocks();
        while self.block_chain.len() < size
            invariant
                self.port == old(self).port,
                self.block_chain.chain_dir == old(self).block_chain.chain_dir,
                self.block_chain.difficulty == old(self).block_chain.difficulty,
                start == old(self).block_chain.blocks(),
                self.block_chain.blocks().len() >= start.len(),
                self.block_chain.blocks().len() <= (if start.len() >= size {
                    start.len()
                } else {
                    size as nat
                }),
                self.block_chain.blocks().take(start.len() as int) == start,
                linked(start) ==> linked(self.block_chain.blocks()),
                start.len() >= size ==> self.block_chain == old(self).block_chain,
                start.len() == 0 ==> self.block_chain.blocks().len() == 0,
                forall|k: int|
                    start.len() <= k < self.block_chain.blocks().len() ==> #[trigger] mined_after(
                        self.block_chain.blocks(),
                        k,
                        self.block_chain.difficulty as nat,
                    ),
            decreases size - self.block_chain.blocks().len(),
        {
            let ghost before = self.block_chain.blocks();
            match self.block_chain.mine() {
                Ok(()) => {
                    proof {
                        let after = self.block_chain.blocks();
                        let t = choose|t: Timestamp|
                            t.wf() && #[trigger] mine_step(
                                before,
                                t,
                                self.block_chain.difficulty as nat,
                            ) == Ok::<Seq<BlockView>, ChainError>(after);
                        assert(after.len() == before.len() + 1);
                        if linked(start) {
                            lemma_mine_keeps_linked(before, t, self.block_chain.difficulty as nat);
                        }
                        assert(after.take(before.len() as int) =~= before);
                        assert(after.take(start.len() as int) =~= start);
                        assert forall|k: int|
                            start.len() <= k < after.len() implies #[trigger] mined_after(
                                after,
                                k,
                                self.block_chain.difficulty as nat,
                            ) by {
                            assert(after.take(k) =~= before.take(k)) by {
                                if k < before.len() {
                                    assert(after.take(k) =~= before.take(k));
                                }
                            }
                            if k + 1 < after.len() {
                                assert(after.take(k + 1) =~= before.take(k + 1));
                                assert(mined_after(before, k, self.block_chain.difficulty as nat));
                            } else {
                                assert(after.take(k + 1) =~= after);
                                assert(before.take(k) =~= before);
                                assert(mine_step(after.take(k), t, self.block_chain.difficulty as nat)
                                    == Ok::<Seq<BlockView>, ChainError>(after.take(k + 1)));
                            }
                        }
                    }
                },
                Err(e) => {
                    return Err(e);
                },
            }
        }
        Ok(())
    }

    /// Replaces this node's chain with the blocks that a peer's answer
    /// encodes. The blocks are not checked for linkage or proof of work.
    /// The caller persists the new chain.
    pub fn chain_sync(&mut self, body: &str) -> (r: Result<(), SyncError>)
        ensures
            final(self).port == old(self).port,
            final(self).block_chain.chain_dir == old(self).block_chain.chain_dir,
            final(self).block_chain.difficulty == old(self).block_chain.difficulty,
            r is Ok ==> decode_list(body@) == Some(final(self).block_chain.blocks()),
            r is Err ==> r == Err::<(), SyncError>(SyncError::Undecodable) && decode_list(body@) is None
                && final(self).block_chain.blocks() == old(self).block_chain.blocks(),
    {
        match decode_blocks(body) {
            Some(v) => {
                self.block_chain.adopt(v);
                Ok(())
            },
            None => Err(SyncError::Undecodable),
        }
    }
}

} // verus!
