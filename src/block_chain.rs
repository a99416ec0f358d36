//! The chain: an ordered sequence of blocks bound to a storage directory.
use vstd::prelude::*;
use crate::block::{first_block_data, meets_difficulty, mined_block, successor_data, Block, BlockView};
use crate::codec::{decode_block, encode_block, encode_blocks, encode_list, views};
use crate::digits::decimal;
use crate::text::push_decimal;
use crate::timestamp::Timestamp;

verus! {

/// Why a chain could not be loaded or grown.
#[derive(Debug, PartialEq, Eq, Structural)]
pub enum ChainError {
    /// The stored text at this position is not the encoding of a block.
    Decode(usize),
    /// There are no blocks.
    Empty,
    /// The blocks do not form a chain. Where they can be ordered by index,
    /// the first position at which the linkage breaks; otherwise an index
    /// that prevents the ordering.
    Integrity(usize),
    /// The highest index is `u32::MAX`: no successor can be numbered.
    IndexOverflow,
    /// No nonce below `u64::MAX` solves the proof of work.
    Exhausted,
    /// The clock reads before 1970, after the year 9999, or in a leap second.
    Clock,
}

/// Block `i` of `s` links to what precedes it: the genesis block has index
/// 0 and no previous hash; every later block follows its predecessor's
/// index and names its hash.
pub open spec fn link_ok(s: Seq<BlockView>, i: int) -> bool {
    if i == 0 {
        s[0].index == 0 && s[0].prev_hash.len() == 0
    } else {
        s[i].prev_hash == s[i - 1].hash && s[i].index == s[i - 1].index + 1
    }
}

/// The linkage invariant of a chain.
pub open spec fn linked(s: Seq<BlockView>) -> bool {
    s.len() > 0 && forall|i: int| 0 <= i < s.len() ==> #[trigger] link_ok(s, i)
}

/// `s` is `d` ordered by index, where the indices of `d` are exactly
/// `0..d.len()`.
pub open spec fn places(d: Seq<BlockView>, s: Seq<BlockView>) -> bool {
    &&& s.len() == d.len()
    &&& forall|j: int| 0 <= j < d.len() ==> #[trigger] d[j].index < s.len() && s[d[j].index as int]
        == d[j]
    &&& forall|j: int, k: int|
        0 <= j < d.len() && 0 <= k < d.len() && j != k ==> #[trigger] d[j].index != #[trigger] d[k].index
    &&& forall|i: int| 0 <= i < s.len() ==> #[trigger] held(d, i)
}

/// Some block of `d` has index `i`.
pub open spec fn held(d: Seq<BlockView>, i: int) -> bool {
    exists|j: int| 0 <= j < d.len() && #[trigger] d[j].index == i
}

/// `d` is what the stored texts decode to, one block per text.
pub open spec fn decodes_to(stored: Seq<String>, d: Seq<BlockView>) -> bool {
    d.len() == stored.len() && forall|k: int|
        0 <= k < d.len() ==> decode_block(#[trigger] stored[k]@) == Some(d[k])
}

/// `i` is an index that no ordering of `d` by index can hold: a block holds
/// it but it is past the end, two blocks hold it, or it is below the count
/// and no block holds it.
pub open spec fn index_fault(d: Seq<BlockView>, i: int) -> bool {
    ||| (exists|j: int| 0 <= j < d.len() && #[trigger] d[j].index == i && i >= d.len())
    ||| (exists|j: int, k: int|
        0 <= j < k < d.len() && #[trigger] d[j].index == i && #[trigger] d[k].index == i)
    ||| (0 <= i < d.len() && !held(d, i))
}

/// `i` is the first position at which `s` breaks the linkage invariant.
pub open spec fn first_break(s: Seq<BlockView>, i: int) -> bool {
    &&& 0 <= i < s.len()
    &&& !link_ok(s, i)
    &&& forall|k: int| 0 <= k < i ==> #[trigger] link_ok(s, k)
}

/// At most one arrangement of a set of blocks by index exists.
pub proof fn lemma_places_unique(d: Seq<BlockView>, s1: Seq<BlockView>, s2: Seq<BlockView>)
    requires
        places(d, s1),
        places(d, s2),
    ensures
        s1 == s2,
{
    assert forall|i: int| 0 <= i < s1.len() implies s1[i] == s2[i] by {
        assert(held(d, i));
        let j = choose|j: int| 0 <= j < d.len() && #[trigger] d[j].index == i;
        assert(s1[d[j].index as int] == d[j]);
        assert(s2[d[j].index as int] == d[j]);
    }
    assert(s1 =~= s2);
}

/// Decodes each stored text; the position of the first that fails.
fn decode_all(stored: &Vec<String>) -> (r: Result<Vec<Block>, usize>)
    ensures
        match r {
            Ok(v) => v.len() == stored.len() && forall|k: int|
                0 <= k < v.len() ==> decode_block(#[trigger] stored@[k]@) == Some(v@[k]@),
            Err(k) => k < stored.len() && decode_block(stored@[k as int]@) is None && forall|j: int|
                0 <= j < k ==> decode_block(#[trigger] stored@[j]@) is Some,
        },
{
    let mut v: Vec<Block> = Vec::new();
    let mut k: usize = 0;
    while k < stored.len()
        invariant
            k <= stored.len(),
            v.len() == k,
            forall|j: int| 0 <= j < k ==> decode_block(#[trigger] stored@[j]@) == Some(v@[j]@),
        decreases stored.len() - k,
    {
        match Block::deserialize(stored[k].as_str()) {
            Some(b) => {
                v.push(b);
            },
            None => {
                return Err(k);
            },
        }
        k = k + 1;
    }
    Ok(v)
}

/// Orders blocks by index, where their indices are exactly `0..n`.
/// Otherwise an index at which that fails: one past the end, one held
/// twice, or one that no block holds.
fn arrange(d: &Vec<Block>) -> (r: Result<Vec<Block>, usize>)
    requires
        d.len() > 0,
    ensures
        r matches Ok(s) ==> places(views(d@), views(s@)),
        r is Err ==> forall|s: Seq<BlockView>| !places(views(d@), s),
        r matches Err(i) ==> index_fault(views(d@), i as int),
{
    let n = d.len();
    let ghost dv = views(d@);
    let mut slots: Vec<Option<Block>> = Vec::new();
    let mut i: usize = 0;
    while i < n
        invariant
            i <= n,
            n == d.len(),
            slots.len() == i,
            forall|k: int| 0 <= k < i ==> slots@[k] is None,
        decreases n - i,
    {
        slots.push(None);
        i = i + 1;
    }
    let mut j: usize = 0;
    while j < n
        invariant
            j <= n,
            n == d.len(),
            dv == views(d@),
            slots.len() == n,
            forall|i: int| 0 <= i < n ==> (#[trigger] slots@[i] is None <==> forall|k: int|
                0 <= k < j ==> dv[k].index != i),
            forall|i: int|
                0 <= i < n && #[trigger] slots@[i] is Some ==> exists|k: int|
                    0 <= k < j && dv[k].index == i && slots@[i]->Some_0@ == dv[k],
            forall|k: int| 0 <= k < j ==> #[trigger] dv[k].index < n && slots@[dv[k].index as int] is Some
                && slots@[dv[k].index as int]->Some_0@ == dv[k],
            forall|k1: int, k2: int|
                0 <= k1 < j && 0 <= k2 < j && k1 != k2 ==> #[trigger] dv[k1].index
                    != #[trigger] dv[k2].index,
        decreases n - j,
    {
        let idx = d[j].index as usize;
        if idx >= n {
            proof {
                assert(dv[j as int].index == idx);
                assert(0 <= j < dv.len() && dv[j as int].index == idx as int && idx >= dv.len());
            }
            return Err(idx);
        }
        let taken = match &slots[idx] {
            Some(_) => true,
            None => false,
        };
        if taken {
            proof {
                assert(dv[j as int].index == idx);
                let k = choose|k: int| 0 <= k < j && dv[k].index == idx && slots@[idx as int]->Some_0@ == dv[k];
                assert forall|s: Seq<BlockView>| !places(views(d@), s) by {
                    if places(views(d@), s) {
                        assert(dv[k].index == dv[j as int].index);
                    }
                }
                assert(0 <= k < j < dv.len() && dv[k].index == idx as int && dv[j as int].index
                    == idx as int);
            }
            return Err(idx);
        }
        let b = d[j].clone();
        let ghost before = slots@;
        slots.set(idx, Some(b));
        proof {
            assert(dv[j as int] == d@[j as int]@);
            assert forall|i: int| 0 <= i < n implies (#[trigger] slots@[i] is None <==> forall|k: int|
                0 <= k < j + 1 ==> dv[k].index != i) by {
                if i != idx {
                    assert(slots@[i] == before[i]);
                }
            }
        }
        j = j + 1;
    }
    let mut s: Vec<Block> = Vec::new();
    let mut i: usize = 0;
    while i < n
        invariant
            i <= n,
            n == d.len(),
            dv == views(d@),
            slots.len() == n,
            s.len() == i,
            forall|i: int| 0 <= i < n ==> (#[trigger] slots@[i] is None <==> forall|k: int|
                0 <= k < n ==> dv[k].index != i),
            forall|i: int|
                0 <= i < n && #[trigger] slots@[i] is Some ==> exists|k: int|
                    0 <= k < n && dv[k].index == i && slots@[i]->Some_0@ == dv[k],
            forall|k: int| 0 <= k < i ==> (#[trigger] slots@[k]) is Some,
            forall|k: int| 0 <= k < i ==> #[trigger] views(s@)[k] == slots@[k]->Some_0@,
        decreases n - i,
    {
        match &slots[i] {
            Some(b) => {
                let ghost before = views(s@);
                s.push(b.clone());
                assert(views(s@) =~= before.push(b@));
            },
            None => {
                proof {
                    assert forall|t: Seq<BlockView>| !places(views(d@), t) by {
                        if places(views(d@), t) {
                            assert(held(dv, i as int));
                            let k = choose|k: int| 0 <= k < dv.len() && #[trigger] dv[k].index == i;
                        }
                    }
                    assert(!held(dv, i as int));
                }
                return Err(i);
            },
        }
        i = i + 1;
    }
    proof {
        let sv = views(s@);
        assert forall|k: int| 0 <= k < dv.len() implies #[trigger] dv[k].index < sv.len() && sv[dv[k].index as int] == dv[k] by {}
        assert forall|i: int| 0 <= i < sv.len() implies #[trigger] held(dv, i) by {
            assert(slots@[i] is Some);
        }
    }
    Ok(s)
}

/// The first position at which `s` breaks the linkage invariant.
fn first_broken_link(s: &Vec<Block>) -> (r: Option<usize>)
    requires
        s.len() > 0,
    ensures
        match r {
            None => linked(views(s@)),
            Some(i) => i < s.len() && !link_ok(views(s@), i as int) && forall|k: int|
                0 <= k < i ==> #[trigger] link_ok(views(s@), k),
        },
{
    let ghost sv = views(s@);
    if s[0].index != 0 || s[0].prev_hash.as_str().unicode_len() != 0 {
        return Some(0);
    }
    let mut i: usize = 1;
    while i < s.len()
        invariant
            1 <= i <= s.len(),
            sv == views(s@),
            forall|k: int| 0 <= k < i ==> #[trigger] link_ok(sv, k),
        decreases s.len() - i,
    {
        if s[i].prev_hash != s[i - 1].hash || s[i - 1].index == u32::MAX || s[i].index != s[i
            - 1].index + 1 {
            return Some(i);
        }
        i = i + 1;
    }
    None
}

/// `m` holds the highest index of `s`, and no earlier block holds it.
pub open spec fn is_top(s: Seq<BlockView>, m: int) -> bool {
    &&& 0 <= m < s.len()
    &&& forall|j: int| 0 <= j < s.len() ==> #[trigger] s[j].index <= s[m].index
    &&& forall|j: int| 0 <= j < m ==> #[trigger] s[j].index < s[m].index
}

/// The position of the block with the highest index (the first, were
/// there several).
pub open spec fn top_of(s: Seq<BlockView>) -> int {
    choose|m: int| is_top(s, m)
}

proof fn lemma_top_unique(s: Seq<BlockView>, a: int, b: int)
    requires
        is_top(s, a),
    ensures
        is_top(s, top_of(s)),
        top_of(s) == a,
{
    let c = top_of(s);
    assert(is_top(s, c));
    if c < a {
        assert(s[c].index < s[a].index);
    } else if a < c {
        assert(s[a].index < s[c].index);
    }
}

proof fn lemma_top_exists(s: Seq<BlockView>)
    requires
        s.len() > 0,
    ensures
        is_top(s, top_of(s)),
    decreases s.len(),
{
    if s.len() == 1 {
        assert(is_top(s, 0));
    } else {
        let p = s.drop_last();
        lemma_top_exists(p);
        let m = top_of(p);
        if s.last().index > s[m].index {
            assert(is_top(s, s.len() - 1)) by {
                assert forall|j: int| 0 <= j < s.len() - 1 implies #[trigger] s[j].index < s[s.len()
                    - 1].index by {
                    assert(s[j] == p[j]);
                }
            }
        } else {
            assert(is_top(s, m)) by {
                assert forall|j: int| 0 <= j < s.len() implies #[trigger] s[j].index <= s[m].index by {
                    if j < s.len() - 1 {
                        assert(s[j] == p[j]);
                    }
                }
                assert forall|j: int| 0 <= j < m implies #[trigger] s[j].index < s[m].index by {
                    assert(s[j] == p[j]);
                }
            }
        }
    }
}

/// Mining on a non-empty chain appends exactly one block, after the blocks
/// already there: its index is one past the highest index, its previous
/// hash is the hash of the block with that index, and its hash meets the
/// difficulty.
pub proof fn lemma_mine_appends_successor(s: Seq<BlockView>, t: Timestamp, d: nat)
    requires
        s.len() > 0,
        mine_step(s, t, d) is Ok,
    ensures
        ({
            let ns = mine_step(s, t, d)->Ok_0;
            let m = top_of(s);
            &&& 0 <= m < s.len()
            &&& forall|j: int| 0 <= j < s.len() ==> #[trigger] s[j].index <= s[m].index
            &&& ns.len() == s.len() + 1
            &&& ns.take(s.len() as int) == s
            &&& ns.last().index == s[m].index + 1
            &&& ns.last().prev_hash == s[m].hash
            &&& crate::block::meets_difficulty(ns.last().hash, d)
        }),
{
    lemma_top_exists(s);
    let top = s[top_of(s)];
    let prefix = crate::block::header_prefix(
        (top.index + 1) as nat,
        top.hash,
        successor_data(top.index),
        t,
    );
    crate::block::lemma_mined_meets(prefix, d);
    let ns = mine_step(s, t, d)->Ok_0;
    assert(ns.take(s.len() as int) =~= s);
}

proof fn lemma_linked_indices(s: Seq<BlockView>, i: int)
    requires
        linked(s),
        0 <= i < s.len(),
    ensures
        s[i].index == i,
    decreases i,
{
    assert(link_ok(s, i));
    if i > 0 {
        lemma_linked_indices(s, i - 1);
    }
}

/// Mining on a linked chain gives a linked chain: in a linked chain the
/// highest block is the last one.
pub proof fn lemma_mine_keeps_linked(s: Seq<BlockView>, t: Timestamp, d: nat)
    requires
        linked(s),
        mine_step(s, t, d) is Ok,
    ensures
        linked(mine_step(s, t, d)->Ok_0),
{
    let n = s.len() as int;
    assert forall|j: int| 0 <= j < n implies #[trigger] s[j].index == j by {
        lemma_linked_indices(s, j);
    }
    assert(is_top(s, n - 1));
    lemma_top_unique(s, n - 1, top_of(s));
    let ns = mine_step(s, t, d)->Ok_0;
    assert forall|i: int| 0 <= i < ns.len() implies #[trigger] link_ok(ns, i) by {
        if i < n {
            assert(link_ok(s, i));
            assert(ns[i] == s[i]);
            if i > 0 {
                assert(ns[i - 1] == s[i - 1]);
            }
        }
    }
}

/// What mining on top of the highest block of a non-empty `s` gives.
pub open spec fn mine_step(s: Seq<BlockView>, now: Timestamp, d: nat) -> Result<
    Seq<BlockView>,
    ChainError,
> {
    let top = s[top_of(s)];
    if top.index == u32::MAX {
        Err(ChainError::IndexOverflow)
    } else {
        match mined_block(
            (top.index + 1) as nat,
            now,
            top.hash,
            successor_data(top.index),
            d,
        ) {
            Some(v) => Ok(s.push(v)),
            None => Err(ChainError::Exhausted),
        }
    }
}

/// Block `k` of `s` is what mining on top of the blocks before it gives,
/// at some instant.
pub open spec fn mined_after(s: Seq<BlockView>, k: int, d: nat) -> bool {
    exists|t: Timestamp|
        t.wf() && #[trigger] mine_step(s.take(k), t, d) == Ok::<Seq<BlockView>, ChainError>(
            s.take(k + 1),
        )
}

/// The file that holds a block: its index, with the extension `chain`.
pub open spec fn file_name_of(index: nat) -> Seq<char> {
    decimal(index) + seq!['.', 'c', 'h', 'a', 'i', 'n']
}

impl Block {
    /// The name of the file that holds this block.
    pub fn file_name(&self) -> (r: String)
        ensures
            r@ == file_name_of(self.index as nat),
    {
        let mut s = String::new();
        push_decimal(&mut s, self.index as u64);
        s.append(".chain");
        proof {
            reveal_strlit(".chain");
            assert(s@ =~= file_name_of(self.index as nat));
        }
        s
    }
}

/// The blocks of one node, in order, with the directory that stores them
/// (one file per block) and the difficulty that mining meets.
#[derive(Debug)]
pub struct BlockChain {
    pub node_blocks: Vec<Block>,
    pub chain_dir: String,
    pub difficulty: usize,
}

impl BlockChain {
    pub open spec fn blocks(&self) -> Seq<BlockView> {
        views(self.node_blocks@)
    }

    /// Loads the chain from the stored texts of its block files, in any
    /// order. Succeeds exactly where each text decodes and the blocks,
    /// ordered by index, satisfy the linkage invariant; the chain is then
    /// that ordering. On failure the chain is left as it was.
    pub fn sync(&mut self, stored: &Vec<String>) -> (r: Result<(), ChainError>)
        ensures
            r is Ok ==> exists|d: Seq<BlockView>|
                decodes_to(stored@, d)
                    && places(d, final(self).blocks()) && linked(final(self).blocks()),
            r is Err ==> final(self).blocks() == old(self).blocks(),
            final(self).chain_dir == old(self).chain_dir,
            final(self).difficulty == old(self).difficulty,
            r matches Err(ChainError::Decode(k)) ==> k < stored.len() && decode_block(
                stored@[k as int]@,
            ) is None && forall|j: int| 0 <= j < k ==> decode_block(#[trigger] stored@[j]@) is Some,
            r == Err::<(), ChainError>(ChainError::Empty) <==> stored.len() == 0,
            r matches Err(ChainError::Integrity(_)) ==> forall|d: Seq<BlockView>|
                decodes_to(stored@, d)
                    ==> forall|s: Seq<BlockView>| places(d, s) ==> !linked(s),
            r matches Err(ChainError::Integrity(i)) ==> forall|d: Seq<BlockView>|
                #[trigger] decodes_to(stored@, d) ==> ((exists|s: Seq<BlockView>| places(d, s))
                    ==> forall|s: Seq<BlockView>| places(d, s) ==> first_break(s, i as int)) && (!(
                exists|s: Seq<BlockView>| places(d, s)) ==> index_fault(d, i as int)),
            r is Err ==> (r matches Err(ChainError::Decode(_)) || r matches Err(ChainError::Empty)
                || r matches Err(ChainError::Integrity(_))),
    {
        if stored.len() == 0 {
            return Err(ChainError::Empty);
        }
        let decoded = match decode_all(stored) {
            Ok(v) => v,
            Err(k) => {
                return Err(ChainError::Decode(k));
            },
        };
        let ghost dv = views(decoded@);
        proof {
            assert forall|d: Seq<BlockView>|
                decodes_to(stored@, d)
                implies d == dv by {
                assert forall|k: int| 0 <= k < d.len() implies d[k] == dv[k] by {
                    assert(decode_block(stored@[k]@) == Some(d[k]));
                }
                assert(d =~= dv);
            }
        }
        let arranged = match arrange(&decoded) {
            Ok(s) => s,
            Err(i) => {
                proof {
                    assert forall|d: Seq<BlockView>| #[trigger] decodes_to(stored@, d) implies ((
                    exists|s: Seq<BlockView>| places(d, s)) ==> forall|s: Seq<BlockView>|
                        places(d, s) ==> first_break(s, i as int)) && (!(exists|s: Seq<BlockView>|
                        places(d, s)) ==> index_fault(d, i as int)) by {
                        assert(d == dv);
                    }
                }
                return Err(ChainError::Integrity(i));
            },
        };
        match first_broken_link(&arranged) {
            Some(i) => {
                proof {
                    assert forall|s: Seq<BlockView>| places(dv, s) implies !linked(s) && first_break(
                        s,
                        i as int,
                    ) by {
                        lemma_places_unique(dv, s, views(arranged@));
                    }
                    assert(places(dv, views(arranged@)));
                    assert forall|d: Seq<BlockView>| #[trigger] decodes_to(stored@, d) implies ((
                    exists|s: Seq<BlockView>| places(d, s)) ==> forall|s: Seq<BlockView>|
                        places(d, s) ==> first_break(s, i as int)) && (!(exists|s: Seq<BlockView>|
                        places(d, s)) ==> index_fault(d, i as int)) by {
                        assert(d == dv);
                        assert(places(d, views(arranged@)));
                        assert forall|s: Seq<BlockView>| places(d, s) implies first_break(
                            s,
                            i as int,
                        ) by {
                            lemma_places_unique(dv, s, views(arranged@));
                        }
                    }
                }
                Err(ChainError::Integrity(i))
            },
            None => {
                proof {
                    assert forall|k: int| 0 <= k < dv.len() implies decode_block(
                        #[trigger] stored@[k]@,
                    ) == Some(dv[k]) by {
                        assert(dv[k] == decoded@[k]@);
                    }
                    assert(decodes_to(stored@, dv));
                }
                self.node_blocks = arranged;
                Ok(())
            },
        }
    }

    /// Opens a chain over the stored texts of its directory. Where none is
    /// stored, the chain is the first block, mined at `now`; the caller
    /// writes it out.
    pub fn new_at(chain_dir: String, difficulty: usize, stored: &Vec<String>, now: Timestamp) -> (r:
        Result<BlockChain, ChainError>)
        requires
            now.wf(),
        ensures
            r matches Ok(c) ==> c.chain_dir@ == chain_dir@ && c.difficulty == difficulty
                && linked(c.blocks()),
            stored.len() > 0 ==> (r matches Ok(c) ==> exists|d: Seq<BlockView>|
                decodes_to(stored@, d) && places(d, c.blocks())),
            stored.len() == 0 ==> match r {
                Ok(c) => mined_block(0, now, Seq::empty(), first_block_data(), difficulty as nat)
                    == Some(c.blocks()[0]) && c.blocks().len() == 1 && meets_difficulty(
                    c.blocks()[0].hash,
                    difficulty as nat,
                ),
                Err(e) => e == ChainError::Exhausted && mined_block(
                    0,
                    now,
                    Seq::empty(),
                    first_block_data(),
                    difficulty as nat,
                ) is None,
            },
            stored.len() > 0 ==> (r is Ok <==> exists|d: Seq<BlockView>|
                decodes_to(stored@, d)
                    && exists|s: Seq<BlockView>| places(d, s) && linked(s)),
    {
        let mut chain = BlockChain { node_blocks: Vec::new(), chain_dir, difficulty };
        if stored.len() == 0 {
            match Block::create_first_block_at(now, difficulty) {
                Some(b) => {
                    chain.node_blocks.push(b);
                    proof {
                        assert(chain.blocks().len() == 1);
                        assert(link_ok(chain.blocks(), 0));
                    }
                    Ok(chain)
                },
                None => Err(ChainError::Exhausted),
            }
        } else {
            match chain.sync(stored) {
                Ok(()) => Ok(chain),
                Err(e) => {
                    proof {
                        if let ChainError::Decode(k) = e {
                            assert forall|d: Seq<BlockView>|
                                decodes_to(stored@, d) implies !exists|s: Seq<BlockView>|
                                places(d, s) && linked(s) by {
                                assert(decode_block(stored@[k as int]@) == Some(d[k as int]));
                            }
                        }
                    }
                    Err(e)
                },
            }
        }
    }

    /// Opens a chain, stamping a new first block with the current time.
    pub fn new(chain_dir: String, difficulty: usize, stored: &Vec<String>) -> (r: Result<
        BlockChain,
        ChainError,
    >)
        ensures
            r matches Ok(c) ==> c.chain_dir@ == chain_dir@ && c.difficulty == difficulty
                && linked(c.blocks()),
            stored.len() == 0 ==> (r matches Ok(c) ==> c.blocks().len() == 1
                && c.blocks()[0].timestamp.wf() && mined_block(
                0,
                c.blocks()[0].timestamp,
                Seq::empty(),
                first_block_data(),
                difficulty as nat,
            ) == Some(c.blocks()[0]) && meets_difficulty(c.blocks()[0].hash, difficulty as nat)),
            stored.len() > 0 ==> (r matches Ok(c) ==> exists|d: Seq<BlockView>|
                decodes_to(stored@, d) && places(d, c.blocks())),
            stored.len() > 0 ==> (r is Ok <==> exists|d: Seq<BlockView>|
                decodes_to(stored@, d)
                    && exists|s: Seq<BlockView>| places(d, s) && linked(s)),
    {
        match Timestamp::now() {
            Some(t) => BlockChain::new_at(chain_dir, difficulty, stored, t),
            None => {
                if stored.len() == 0 {
                    Err(ChainError::Clock)
                } else {
                    // the instant stamps only a new first block, which is not made here
                    BlockChain::new_at(chain_dir, difficulty, stored, Timestamp::epoch())
                }
            },
        }
    }

    /// Grows the chain by one block mined at `now` on top of the block with
    /// the highest index.
    pub fn mine_at(&mut self, now: Timestamp) -> (r: Result<(), ChainError>)
        requires
            now.wf(),
        ensures
            final(self).chain_dir == old(self).chain_dir,
            final(self).difficulty == old(self).difficulty,
            old(self).blocks().len() == 0 ==> r == Err::<(), ChainError>(ChainError::Empty),
            r is Err ==> final(self).blocks() == old(self).blocks(),
            old(self).blocks().len() > 0 ==> match mine_step(
                old(self).blocks(),
                now,
                old(self).difficulty as nat,
            ) {
                Ok(ns) => r is Ok && final(self).blocks() == ns,
                Err(e) => r == Err::<(), ChainError>(e),
            },
    {
        if self.node_blocks.len() == 0 {
            return Err(ChainError::Empty);
        }
        let ghost sv = self.blocks();
        let mut m: usize = 0;
        let mut j: usize = 1;
        while j < self.node_blocks.len()
            invariant
                sv == self.blocks(),
                1 <= j <= self.node_blocks.len(),
                m < j,
                forall|k: int| 0 <= k < j ==> #[trigger] sv[k].index <= sv[m as int].index,
                forall|k: int| 0 <= k < m ==> #[trigger] sv[k].index < sv[m as int].index,
            decreases self.node_blocks.len() - j,
        {
            if self.node_blocks[j].index > self.node_blocks[m].index {
                m = j;
            }
            j = j + 1;
        }
        proof {
            assert(is_top(sv, m as int));
            lemma_top_unique(sv, m as int, top_of(sv));
        }
        let top = &self.node_blocks[m];
        if top.index == u32::MAX {
            return Err(ChainError::IndexOverflow);
        }
        match top.mine_block_at(now, self.difficulty) {
            Some(b) => {
                self.node_blocks.push(b);
                assert(self.blocks() =~= sv.push(b@));
                Ok(())
            },
            None => Err(ChainError::Exhausted),
        }
    }

    /// Grows the chain by one block stamped with the current time. An empty
    /// chain fails before the clock is read.
    pub fn mine(&mut self) -> (r: Result<(), ChainError>)
        ensures
            final(self).chain_dir == old(self).chain_dir,
            final(self).difficulty == old(self).difficulty,
            old(self).blocks().len() == 0 <==> r == Err::<(), ChainError>(ChainError::Empty),
            r is Err ==> final(self).blocks() == old(self).blocks(),
            r is Ok ==> exists|t: Timestamp|
                t.wf() && #[trigger] mine_step(old(self).blocks(), t, old(self).difficulty as nat)
                    == Ok::<Seq<BlockView>, ChainError>(final(self).blocks()),
            r is Ok ==> ({
                let s = old(self).blocks();
                let ns = final(self).blocks();
                let m = top_of(s);
                &&& 0 <= m < s.len()
                &&& forall|j: int| 0 <= j < s.len() ==> #[trigger] s[j].index <= s[m].index
                &&& ns.len() == s.len() + 1
                &&& ns.take(s.len() as int) == s
                &&& ns.last().index == s[m].index + 1
                &&& ns.last().prev_hash == s[m].hash
                &&& meets_difficulty(ns.last().hash, old(self).difficulty as nat)
            }),
    {
        if self.node_blocks.len() == 0 {
            return Err(ChainError::Empty);
        }
        match Timestamp::now() {
            Some(t) => {
                let r = self.mine_at(t);
                proof {
                    if r is Ok {
                        assert(mine_step(old(self).blocks(), t, old(self).difficulty as nat)
                            == Ok::<Seq<BlockView>, ChainError>(final(self).blocks()));
                        lemma_mine_appends_successor(
                            old(self).blocks(),
                            t,
                            old(self).difficulty as nat,
                        );
                    }
                }
                r
            },
            None => Err(ChainError::Clock),
        }
    }

    /// Replaces the blocks wholesale, without checking them.
    pub fn adopt(&mut self, blocks: Vec<Block>)
        ensures
            final(self).node_blocks@ == blocks@,
            final(self).chain_dir == old(self).chain_dir,
            final(self).difficulty == old(self).difficulty,
    {
        self.node_blocks = blocks;
    }

    pub fn len(&self) -> (r: usize)
        ensures
            r == self.blocks().len(),
    {
        self.node_blocks.len()
    }

    /// The files that persist the chain: for each block, in order, its file
    /// name and its encoding.
    pub fn save_chain(&self) -> (r: Vec<(String, String)>)
        ensures
            r.len() == self.blocks().len(),
            forall|k: int|
                0 <= k < r.len() ==> (#[trigger] r@[k]).0@ == file_name_of(self.blocks()[k].index)
                    && r@[k].1@ == encode_block(self.blocks()[k]),
    {
        let mut out: Vec<(String, String)> = Vec::new();
        let mut k: usize = 0;
        while k < self.node_blocks.len()
            invariant
                k <= self.node_blocks.len(),
                out.len() == k,
                forall|j: int|
                    0 <= j < k ==> (#[trigger] out@[j]).0@ == file_name_of(self.blocks()[j].index)
                        && out@[j].1@ == encode_block(self.blocks()[j]),
            decreases self.node_blocks.len() - k,
        {
            let b = &self.node_blocks[k];
            out.push((b.file_name(), b.serialize()));
            k = k + 1;
        }
        out
    }

    /// The encoding of all blocks, in order: what the chain is served as.
    pub fn to_json(&self) -> (r: String)
        ensures
            r@ == encode_list(self.blocks()),
    {
        encode_blocks(&self.node_blocks)
    }

    /// This chain has more blocks than `other`. Length alone decides.
    pub fn is_longer_than(&self, other: &BlockChain) -> (r: bool)
        ensures
            r == (self.blocks().len() > other.blocks().len()),
    {
        self.node_blocks.len() > other.node_blocks.len()
    }
}

/// Two block sequences hold the same blocks in order, by hash and index.
pub open spec fn same_blocks(a: Seq<BlockView>, b: Seq<BlockView>) -> bool {
    a.len() == b.len() && forall|k: int| 0 <= k < a.len() ==> #[trigger] same_at(a, b, k)
}

pub open spec fn same_at(a: Seq<BlockView>, b: Seq<BlockView>, k: int) -> bool {
    a[k].hash == b[k].hash && a[k].index == b[k].index
}

impl PartialEq for BlockChain {
    fn eq(&self, other: &BlockChain) -> (r: bool)
        ensures
            r == same_blocks(self.blocks(), other.blocks()),
    {
        if self.node_blocks.len() != other.node_blocks.len() {
            return false;
        }
        proof {
            assert(self.blocks().len() == other.blocks().len());
        }
        let mut k: usize = 0;
        while k < self.node_blocks.len()
            invariant
                k <= self.node_blocks.len(),
                self.node_blocks.len() == other.node_blocks.len(),
                forall|j: int| 0 <= j < k ==> #[trigger] same_at(self.blocks(), other.blocks(), j),
            decreases self.node_blocks.len() - k,
        {
            let same = self.node_blocks[k] == other.node_blocks[k];
            proof {
                assert(self.blocks()[k as int] == self.node_blocks@[k as int]@);
                assert(other.blocks()[k as int] == other.node_blocks@[k as int]@);
            }
            if !same {
                proof {
                    assert(!(self.blocks()[k as int].hash == other.blocks()[k as int].hash
                        && self.blocks()[k as int].index == other.blocks()[k as int].index));
                    if same_blocks(self.blocks(), other.blocks()) {
                        assert(same_at(self.blocks(), other.blocks(), k as int));
                    }
                }
                return false;
            }
            assert(same_at(self.blocks(), other.blocks(), k as int));
            k = k + 1;
        }
        true
    }
}

impl vstd::std_specs::cmp::PartialEqSpecImpl for BlockChain {
    open spec fn obeys_eq_spec() -> bool {
        true
    }

    open spec fn eq_spec(&self, other: &BlockChain) -> bool {
        same_blocks(self.blocks(), other.blocks())
    }
}

} // verus!
