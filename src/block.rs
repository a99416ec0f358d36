//! A block of the chain and its proof-of-work search.
use vstd::prelude::*;
use crypto::digest::Digest;
use crypto::sha2::Sha256;
use crate::digits::decimal;
use crate::text::{chars_of, push_decimal};
use crate::timestamp::{utc_display, Timestamp};

verus! {

/// The lower-case hex SHA-256 digest of the UTF-8 bytes of `s`.
pub uninterp spec fn sha256_hex(s: Seq<char>) -> Seq<char>;

/// Every character is a lower-case hex digit.
pub open spec fn is_lower_hex(h: Seq<char>) -> bool {
    forall|i: int| 0 <= i < h.len() ==> ('0' <= #[trigger] h[i] <= '9') || ('a' <= h[i] <= 'f')
}

/// Relies on rust-crypto's `Sha256` with `Digest::input_str` and
/// `Digest::result_str`: the hex digest of the string's bytes, two digits
/// from `0-9a-f` for each of the 32 output bytes.
#[verifier::external_body]
fn sha256_of(s: &str) -> (r: String)
    ensures
        r@ == sha256_hex(s@),
        r@.len() == 64,
        is_lower_hex(r@),
{
    let mut sha = Sha256::new();
    sha.input_str(s);
    sha.result_str()
}

/// The first `d` characters of `h` exist and are all `'0'`.
pub open spec fn meets_difficulty(h: Seq<char>, d: nat) -> bool {
    d <= h.len() && forall|i: int| 0 <= i < d ==> h[i] == '0'
}

/// The header of a block without its nonce: index, previous hash, data
/// and timestamp, one after the other.
pub open spec fn header_prefix(
    index: nat,
    prev_hash: Seq<char>,
    data: Seq<char>,
    timestamp: Timestamp,
) -> Seq<char> {
    decimal(index) + prev_hash + data + utc_display(timestamp)
}

/// The digest of the header with nonce `n`.
pub open spec fn nonce_hash(prefix: Seq<char>, n: nat) -> Seq<char> {
    sha256_hex(prefix + decimal(n))
}

/// `n` is the least nonce whose digest meets the difficulty.
pub open spec fn first_solution(prefix: Seq<char>, d: nat, n: nat) -> bool {
    &&& meets_difficulty(nonce_hash(prefix, n), d)
    &&& forall|m: nat| m < n ==> !meets_difficulty(#[trigger] nonce_hash(prefix, m), d)
}

/// The hash that proof of work gives the header `prefix`: the digest of the
/// least nonce below `u64::MAX` that meets the difficulty, if any does.
pub open spec fn mined_hash(prefix: Seq<char>, d: nat) -> Option<Seq<char>> {
    if exists|n: nat| n < u64::MAX && first_solution(prefix, d, n) {
        let n = choose|n: nat| n < u64::MAX && first_solution(prefix, d, n);
        Some(nonce_hash(prefix, n))
    } else {
        None
    }
}

pub proof fn lemma_first_solution_unique(prefix: Seq<char>, d: nat, a: nat, b: nat)
    requires
        first_solution(prefix, d, a),
        first_solution(prefix, d, b),
    ensures
        a == b,
{
    if a < b {
        assert(!meets_difficulty(nonce_hash(prefix, a), d));
    } else if b < a {
        assert(!meets_difficulty(nonce_hash(prefix, b), d));
    }
}

/// Whether the first `d` characters of `h` exist and are all `'0'`.
pub fn has_zero_prefix(h: &str, d: usize) -> (r: bool)
    ensures
        r == meets_difficulty(h@, d as nat),
{
    let v = chars_of(h);
    if d > v.len() {
        return false;
    }
    let mut i: usize = 0;
    while i < d
        invariant
            d <= v.len(),
            v@ == h@,
            i <= d,
            forall|j: int| 0 <= j < i ==> v@[j] == '0',
        decreases d - i,
    {
        if v[i] != '0' {
            return false;
        }
        i = i + 1;
    }
    true
}

/// Proof of work: tries the nonces from 0 upwards, below `u64::MAX`, and
/// returns the first whose digest meets the difficulty, with that digest.
pub fn search_nonce(prefix: &str, difficulty: usize) -> (r: Option<(u64, String)>)
    ensures
        match r {
            Some((n, h)) => n < u64::MAX && first_solution(prefix@, difficulty as nat, n as nat)
                && h@ == nonce_hash(prefix@, n as nat) && h@.len() == 64 && is_lower_hex(h@),
            None => forall|m: nat| m < u64::MAX ==> !meets_difficulty(
                #[trigger] nonce_hash(prefix@, m),
                difficulty as nat,
            ),
        },
        difficulty > 64 ==> r is None,
{
    let mut nonce: u64 = 0;
    while nonce < u64::MAX
        invariant
            forall|m: nat| m < nonce ==> !meets_difficulty(
                #[trigger] nonce_hash(prefix@, m),
                difficulty as nat,
            ),
        decreases u64::MAX - nonce,
    {
        let mut header = String::new();
        header.append(prefix);
        push_decimal(&mut header, nonce);
        let h = sha256_of(header.as_str());
        if has_zero_prefix(h.as_str(), difficulty) {
            return Some((nonce, h));
        }
        nonce = nonce + 1;
    }
    None
}

pub proof fn lemma_search_result(prefix: Seq<char>, d: nat, n: nat)
    requires
        n < u64::MAX,
        first_solution(prefix, d, n),
    ensures
        mined_hash(prefix, d) == Some(nonce_hash(prefix, n)),
{
    let m = choose|m: nat| m < u64::MAX && first_solution(prefix, d, m);
    lemma_first_solution_unique(prefix, d, n, m);
}

pub proof fn lemma_search_none(prefix: Seq<char>, d: nat)
    requires
        forall|m: nat| m < u64::MAX ==> !meets_difficulty(#[trigger] nonce_hash(prefix, m), d),
    ensures
        mined_hash(prefix, d) is None,
{
    if exists|n: nat| n < u64::MAX && first_solution(prefix, d, n) {
        let n = choose|n: nat| n < u64::MAX && first_solution(prefix, d, n);
        assert(!meets_difficulty(nonce_hash(prefix, n), d));
    }
}

/// A mined hash meets the difficulty it was mined for.
pub proof fn lemma_mined_meets(prefix: Seq<char>, d: nat)
    ensures
        mined_hash(prefix, d) matches Some(h) ==> meets_difficulty(h, d),
{
}

/// A block's contents, as mathematical values.
pub struct BlockView {
    pub index: nat,
    pub timestamp: Timestamp,
    pub prev_hash: Seq<char>,
    pub hash: Seq<char>,
    pub data: Seq<char>,
}

/// One unit of the chain. Two blocks are the same block when their hash
/// and index agree.
#[derive(Debug)]
pub struct Block {
    pub index: u32,
    pub timestamp: Timestamp,
    pub prev_hash: String,
    pub hash: String,
    pub data: String,
}

impl View for Block {
    type V = BlockView;

    open spec fn view(&self) -> BlockView {
        BlockView {
            index: self.index as nat,
            timestamp: self.timestamp,
            prev_hash: self.prev_hash@,
            hash: self.hash@,
            data: self.data@,
        }
    }
}

/// The payload of the block that follows a block of index `i`.
pub open spec fn successor_data(i: nat) -> Seq<char> {
    seq!['I', ' ', 'b', 'l', 'o', 'c', 'k', ' '] + decimal(i)
}

pub open spec fn first_block_data() -> Seq<char> {
    seq!['F', 'i', 'r', 's', 't', ' ', 'b', 'l', 'o', 'c', 'k', ' ', 'd', 'a', 't', 'a']
}

/// What `Block::new` gives for these fields: the block with the mined hash,
/// where one exists below the nonce bound.
pub open spec fn mined_block(
    index: nat,
    timestamp: Timestamp,
    prev_hash: Seq<char>,
    data: Seq<char>,
    d: nat,
) -> Option<BlockView> {
    match mined_hash(header_prefix(index, prev_hash, data, timestamp), d) {
        Some(h) => Some(
            BlockView { index, timestamp, prev_hash, hash: h, data },
        ),
        None => None,
    }
}

impl Clone for Block {
    fn clone(&self) -> (r: Block)
        ensures
            r@ == self@,
    {
        Block {
            index: self.index,
            timestamp: self.timestamp,
            prev_hash: self.prev_hash.clone(),
            hash: self.hash.clone(),
            data: self.data.clone(),
        }
    }
}

impl PartialEq for Block {
    fn eq(&self, other: &Block) -> (r: bool)
        ensures
            r == (self.hash@ == other.hash@ && self.index == other.index),
    {
        self.hash == other.hash && self.index == other.index
    }
}

impl vstd::std_specs::cmp::PartialEqSpecImpl for Block {
    open spec fn obeys_eq_spec() -> bool {
        true
    }

    open spec fn eq_spec(&self, other: &Block) -> bool {
        self.hash@ == other.hash@ && self.index == other.index
    }
}

impl Block {
    /// An empty block: index 0, stamped with the Unix epoch, with empty
    /// hashes and payload.
    pub fn default() -> (r: Block)
        ensures
            r.index == 0,
            r.timestamp.wf() && r.timestamp.year == 1970 && r.timestamp.month == 1 && r.timestamp.day
                == 1 && r.timestamp.hour == 0 && r.timestamp.minute == 0 && r.timestamp.second == 0
                && r.timestamp.nanosecond == 0,
            r.prev_hash@.len() == 0,
            r.hash@.len() == 0,
            r.data@.len() == 0,
    {
        Block {
            index: 0,
            timestamp: Timestamp::epoch(),
            prev_hash: String::new(),
            hash: String::new(),
            data: String::new(),
        }
    }

    /// A block whose hash is found by proof of work over its header.
    /// `None` only where no nonce below `u64::MAX` meets the difficulty.
    pub fn new(index: u32, timestamp: Timestamp, prev_hash: String, data: String, difficulty: usize) -> (r:
        Option<Block>)
        requires
            timestamp.wf(),
        ensures
            r matches Some(b) ==> meets_difficulty(b.hash@, difficulty as nat) && b.hash@.len() == 64
                && is_lower_hex(b.hash@),
            difficulty > 64 ==> r is None,
            match (r, mined_block(index as nat, timestamp, prev_hash@, data@, difficulty as nat)) {
                (Some(b), Some(v)) => b@ == v,
                (None, None) => true,
                _ => false,
            },
    {
        let mut prefix = String::new();
        push_decimal(&mut prefix, index as u64);
        prefix.append(prev_hash.as_str());
        prefix.append(data.as_str());
        let shown = timestamp.display();
        prefix.append(shown.as_str());
        assert(prefix@ =~= header_prefix(index as nat, prev_hash@, data@, timestamp));
        match search_nonce(prefix.as_str(), difficulty) {
            Some((n, h)) => {
                proof {
                    lemma_search_result(prefix@, difficulty as nat, n as nat);
                }
                Some(Block { index, timestamp, prev_hash, hash: h, data })
            },
            None => {
                proof {
                    lemma_search_none(prefix@, difficulty as nat);
                }
                None
            },
        }
    }

    /// The first block of a chain: index 0, no previous hash, a fixed payload.
    pub fn create_first_block_at(timestamp: Timestamp, difficulty: usize) -> (r: Option<Block>)
        requires
            timestamp.wf(),
        ensures
            r matches Some(b) ==> b.index == 0 && b.prev_hash@.len() == 0 && meets_difficulty(
                b.hash@,
                difficulty as nat,
            ) && b.hash@.len() == 64,
            match (r, mined_block(0, timestamp, Seq::empty(), first_block_data(), difficulty as nat)) {
                (Some(b), Some(v)) => b@ == v,
                (None, None) => true,
                _ => false,
            },
    {
        let data = String::from_str("First block data");
        proof {
            reveal_strlit("First block data");
            assert(data@ =~= first_block_data());
        }
        Block::new(0, timestamp, String::new(), data, difficulty)
    }

    /// The first block of a chain, stamped with the current time. `None`
    /// where the clock is out of range or the search fails.
    pub fn create_first_block(difficulty: usize) -> (r: Option<Block>)
        ensures
            r matches Some(b) ==> b.index == 0 && b.prev_hash@.len() == 0 && b.data@
                == first_block_data() && b.timestamp.wf() && meets_difficulty(
                b.hash@,
                difficulty as nat,
            ) && b.hash@.len() == 64 && mined_block(
                0,
                b.timestamp,
                Seq::empty(),
                first_block_data(),
                difficulty as nat,
            ) == Some(b@),
    {
        match Timestamp::now() {
            Some(t) => Block::create_first_block_at(t, difficulty),
            None => None,
        }
    }

    /// The successor of this block at `timestamp`: the next index, this
    /// block's hash as its previous hash, and the payload `I block <index>`.
    /// `None` where the index would overflow or the search fails.
    pub fn mine_block_at(&self, timestamp: Timestamp, difficulty: usize) -> (r: Option<Block>)
        requires
            timestamp.wf(),
        ensures
            r matches Some(b) ==> b.index == self.index + 1 && b.prev_hash@ == self.hash@
                && meets_difficulty(b.hash@, difficulty as nat) && b.hash@.len() == 64,
            self.index < u32::MAX ==> match (
                r,
                mined_block(
                    (self.index + 1) as nat,
                    timestamp,
                    self.hash@,
                    successor_data(self.index as nat),
                    difficulty as nat,
                ),
            ) {
                (Some(b), Some(v)) => b@ == v,
                (None, None) => true,
                _ => false,
            },
            self.index == u32::MAX ==> r is None,
    {
        if self.index == u32::MAX {
            return None;
        }
        let mut data = String::from_str("I block ");
        push_decimal(&mut data, self.index as u64);
        proof {
            reveal_strlit("I block ");
            assert(data@ =~= successor_data(self.index as nat));
        }
        Block::new(self.index + 1, timestamp, self.hash.clone(), data, difficulty)
    }

    /// The successor of this block, stamped with the current time.
    pub fn mine_block(&self, difficulty: usize) -> (r: Option<Block>)
        ensures
            r matches Some(b) ==> b.index == self.index + 1 && b.prev_hash@ == self.hash@ && b.data@
                == successor_data(self.index as nat) && b.timestamp.wf() && meets_difficulty(
                b.hash@,
                difficulty as nat,
            ) && b.hash@.len() == 64 && mined_block(
                (self.index + 1) as nat,
                b.timestamp,
                self.hash@,
                successor_data(self.index as nat),
                difficulty as nat,
            ) == Some(b@),
    {
        match Timestamp::now() {
            Some(t) => self.mine_block_at(t, difficulty),
            None => None,
        }
    }

    /// Whether the stored hash begins with `difficulty` zeros. The hash is
    /// not recomputed from the other fields.
    pub fn is_valid(&self, difficulty: usize) -> (r: bool)
        ensures
            r == meets_difficulty(self.hash@, difficulty as nat),
    {
        has_zero_prefix(self.hash.as_str(), difficulty)
    }
}

} // verus!
