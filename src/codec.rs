//! The text encoding of blocks and of block sequences: a JSON object per
//! block, `{"index":..,"timestamp":"..","prev_hash":"..","hash":"..","data":".."}`,
//! and a JSON array of them for a sequence. The text is compact JSON with
//! the keys in this order, strings escaped and timestamps written as
//! serde_json and chrono's serialisation write them; decoding accepts
//! exactly such text.
use vstd::prelude::*;
use crate::block::{Block, BlockView};
use crate::digits::{all_digits, decimal, digits_value, is_digit, lemma_decimal, padded, pow10};
use crate::text::{chars_of, escape, lemma_pow10_mono, lemma_unescape_escape, push_char,
    push_decimal, push_escaped, read_escaped, read_number};
use crate::timestamp::{
    fraction_digits, fraction_text, lemma_fields_padded, lemma_fraction_digits, lemma_rfc3339_len,
    Timestamp,
};

verus! {

pub open spec fn lit_index_open() -> Seq<char> {
    seq!['{', '"', 'i', 'n', 'd', 'e', 'x', '"', ':']
}

pub open spec fn lit_timestamp_key() -> Seq<char> {
    seq![',', '"', 't', 'i', 'm', 'e', 's', 't', 'a', 'm', 'p', '"', ':', '"']
}

pub open spec fn lit_prev_hash_key() -> Seq<char> {
    seq!['"', ',', '"', 'p', 'r', 'e', 'v', '_', 'h', 'a', 's', 'h', '"', ':', '"']
}

pub open spec fn lit_hash_key() -> Seq<char> {
    seq!['"', ',', '"', 'h', 'a', 's', 'h', '"', ':', '"']
}

pub open spec fn lit_data_key() -> Seq<char> {
    seq!['"', ',', '"', 'd', 'a', 't', 'a', '"', ':', '"']
}

pub open spec fn lit_block_close() -> Seq<char> {
    seq!['"', '}']
}

/// A block view that a `Block` can hold: its index fits in `u32` and its
/// timestamp names an instant.
pub open spec fn valid_view(b: BlockView) -> bool {
    b.index <= u32::MAX && b.timestamp.wf()
}

/// The encoding of one block.
pub open spec fn encode_block(b: BlockView) -> Seq<char> {
    lit_index_open() + decimal(b.index) + lit_timestamp_key() + b.timestamp.rfc3339()
        + lit_prev_hash_key() + escape(b.prev_hash) + lit_hash_key() + escape(b.hash)
        + lit_data_key() + escape(b.data) + lit_block_close()
}

/// What decoding `s` gives: the valid block whose encoding is `s`, if any.
pub open spec fn decode_block(s: Seq<char>) -> Option<BlockView> {
    if exists|b: BlockView| valid_view(b) && encode_block(b) == s {
        Some(choose|b: BlockView| valid_view(b) && encode_block(b) == s)
    } else {
        None
    }
}

/// The encoding of `b` stands in `s` from position `i`.
pub open spec fn encodes_at(s: Seq<char>, i: int, b: BlockView) -> bool {
    &&& valid_view(b)
    &&& 0 <= i
    &&& i + encode_block(b).len() <= s.len()
    &&& s.subrange(i, i + encode_block(b).len()) == encode_block(b)
}

proof fn lemma_piece(s: Seq<char>, i: int, x: Seq<char>, y: Seq<char>)
    requires
        0 <= i,
        i + x.len() + y.len() <= s.len(),
        s.subrange(i, i + x.len() + y.len()) == x + y,
    ensures
        s.subrange(i, i + x.len()) == x,
        s.subrange(i + x.len(), i + x.len() + y.len()) == y,
{
    assert(s.subrange(i, i + x.len()) =~= (x + y).subrange(0, x.len() as int));
    assert(s.subrange(i + x.len(), i + x.len() + y.len()) =~= (x + y).subrange(
        x.len() as int,
        (x.len() + y.len()) as int,
    ));
}

proof fn lemma_char_at(s: Seq<char>, a: int, x: Seq<char>, k: int)
    requires
        0 <= a,
        a + x.len() <= s.len(),
        s.subrange(a, a + x.len()) == x,
        0 <= k < x.len(),
    ensures
        s[a + k] == x[k],
{
    assert(s.subrange(a, a + x.len())[k] == s[a + k]);
}

pub open spec fn ts_start(i: int, b: BlockView) -> int {
    i + 9 + decimal(b.index).len() + 14
}

pub open spec fn prev_start(i: int, b: BlockView) -> int {
    ts_start(i, b) + b.timestamp.rfc3339().len() + 15
}

pub open spec fn hash_start(i: int, b: BlockView) -> int {
    prev_start(i, b) + escape(b.prev_hash).len() + 10
}

pub open spec fn data_start(i: int, b: BlockView) -> int {
    hash_start(i, b) + escape(b.hash).len() + 10
}

/// A run of digits that is `x` stands at `a`, and a non-digit follows it.
pub open spec fn digit_run(s: Seq<char>, a: int, x: Seq<char>) -> bool {
    &&& 0 <= a
    &&& a + x.len() < s.len()
    &&& s.subrange(a, a + x.len()) == x
    &&& all_digits(x)
    &&& !is_digit(s[a + x.len()])
}

/// The RFC 3339 text of `t` stands at `t0`, and a quote follows it.
pub open spec fn ts_at(s: Seq<char>, t0: int, t: Timestamp) -> bool {
    &&& t.wf()
    &&& 0 <= t0
    &&& t0 + t.rfc3339().len() + 1 <= s.len()
    &&& s.subrange(t0, t0 + t.rfc3339().len()) == t.rfc3339()
    &&& s[t0 + t.rfc3339().len()] == '"'
}

proof fn lemma_ts_layout(s: Seq<char>, t0: int, t: Timestamp)
    requires
        ts_at(s, t0, t),
    ensures
        digit_run(s, t0, padded(t.year as nat, 4)),
        digit_run(s, t0 + 5, padded(t.month as nat, 2)),
        digit_run(s, t0 + 8, padded(t.day as nat, 2)),
        digit_run(s, t0 + 11, padded(t.hour as nat, 2)),
        digit_run(s, t0 + 14, padded(t.minute as nat, 2)),
        digit_run(s, t0 + 17, padded(t.second as nat, 2)),
        t.nanosecond == 0 ==> s[t0 + 19] == 'Z',
        t.nanosecond != 0 ==> s[t0 + 19] == '.' && digit_run(
            s,
            t0 + 20,
            fraction_digits(t.nanosecond as nat),
        ),
        t.rfc3339().len() == 20 + fraction_text(t.nanosecond as nat).len(),
        t0 + 20 <= s.len(),
{
    lemma_fields_padded(t);
    lemma_rfc3339_len(t);
    let y = padded(t.year as nat, 4);
    let mo = padded(t.month as nat, 2);
    let d = padded(t.day as nat, 2);
    let h = padded(t.hour as nat, 2);
    let mi = padded(t.minute as nat, 2);
    let se = padded(t.second as nat, 2);
    let r = t.rfc3339();
    let head = y + seq!['-'] + mo + seq!['-'] + d + seq!['T'] + h + seq![':'] + mi + seq![':'] + se;
    assert(head.len() == 19);
    assert(r =~= head + fraction_text(t.nanosecond as nat) + seq!['Z']);
    assert(s.subrange(t0, t0 + 4) =~= y) by {
        assert forall|k: int| 0 <= k < 4 implies s.subrange(t0, t0 + 4)[k] == y[k] by {
            lemma_char_at(s, t0, r, k);
        }
    }
    assert(s.subrange(t0 + 5, t0 + 7) =~= mo) by {
        assert forall|k: int| 0 <= k < 2 implies s.subrange(t0 + 5, t0 + 7)[k] == mo[k] by {
            lemma_char_at(s, t0, r, 5 + k);
        }
    }
    assert(s.subrange(t0 + 8, t0 + 10) =~= d) by {
        assert forall|k: int| 0 <= k < 2 implies s.subrange(t0 + 8, t0 + 10)[k] == d[k] by {
            lemma_char_at(s, t0, r, 8 + k);
        }
    }
    assert(s.subrange(t0 + 11, t0 + 13) =~= h) by {
        assert forall|k: int| 0 <= k < 2 implies s.subrange(t0 + 11, t0 + 13)[k] == h[k] by {
            lemma_char_at(s, t0, r, 11 + k);
        }
    }
    assert(s.subrange(t0 + 14, t0 + 16) =~= mi) by {
        assert forall|k: int| 0 <= k < 2 implies s.subrange(t0 + 14, t0 + 16)[k] == mi[k] by {
            lemma_char_at(s, t0, r, 14 + k);
        }
    }
    assert(s.subrange(t0 + 17, t0 + 19) =~= se) by {
        assert forall|k: int| 0 <= k < 2 implies s.subrange(t0 + 17, t0 + 19)[k] == se[k] by {
            lemma_char_at(s, t0, r, 17 + k);
        }
    }
    lemma_char_at(s, t0, r, 4);
    lemma_char_at(s, t0, r, 7);
    lemma_char_at(s, t0, r, 10);
    lemma_char_at(s, t0, r, 13);
    lemma_char_at(s, t0, r, 16);
    lemma_char_at(s, t0, r, 19);
    if t.nanosecond != 0 {
        let fd = fraction_digits(t.nanosecond as nat);
        lemma_fraction_digits(t.nanosecond as nat);
        let w = fd.len() as int;
        assert(r =~= head + seq!['.'] + fd + seq!['Z']);
        assert(s.subrange(t0 + 20, t0 + 20 + w) =~= fd) by {
            assert forall|k: int| 0 <= k < w implies s.subrange(t0 + 20, t0 + 20 + w)[k] == fd[k] by {
                lemma_char_at(s, t0, r, 20 + k);
            }
        }
        lemma_char_at(s, t0, r, 20 + w);
    }
}

/// Where each field of `b` stands when its encoding stands at `i`.
proof fn lemma_block_layout(s: Seq<char>, i: int, b: BlockView)
    requires
        encodes_at(s, i, b),
    ensures
        digit_run(s, i + 9, decimal(b.index)),
        decimal(b.index).len() <= 10,
        ts_at(s, ts_start(i, b), b.timestamp),
        s.subrange(prev_start(i, b), prev_start(i, b) + escape(b.prev_hash).len()) == escape(
            b.prev_hash,
        ),
        s[prev_start(i, b) + escape(b.prev_hash).len()] == '"',
        s.subrange(hash_start(i, b), hash_start(i, b) + escape(b.hash).len()) == escape(b.hash),
        s[hash_start(i, b) + escape(b.hash).len()] == '"',
        s.subrange(data_start(i, b), data_start(i, b) + escape(b.data).len()) == escape(b.data),
        s[data_start(i, b) + escape(b.data).len()] == '"',
        data_start(i, b) + escape(b.data).len() + 2 == i + encode_block(b).len(),
        prev_start(i, b) + escape(b.prev_hash).len() < s.len(),
        hash_start(i, b) + escape(b.hash).len() < s.len(),
        data_start(i, b) + escape(b.data).len() < s.len(),
{
    let l1 = lit_index_open();
    let dd = decimal(b.index);
    let l2 = lit_timestamp_key();
    let tt = b.timestamp.rfc3339();
    let l3 = lit_prev_hash_key();
    let pp = escape(b.prev_hash);
    let l4 = lit_hash_key();
    let hh = escape(b.hash);
    let l5 = lit_data_key();
    let ee = escape(b.data);
    let l6 = lit_block_close();
    crate::timestamp::lemma_rfc3339_len(b.timestamp);
    lemma_decimal(b.index);
    assert(pow10(10) == 10000000000nat) by {
        reveal_with_fuel(pow10, 11);
    }
    let a1 = l1 + dd;
    let a2 = a1 + l2;
    let a3 = a2 + tt;
    let a4 = a3 + l3;
    let a5 = a4 + pp;
    let a6 = a5 + l4;
    let a7 = a6 + hh;
    let a8 = a7 + l5;
    let a9 = a8 + ee;
    assert(encode_block(b) == a9 + l6);
    lemma_piece(s, i, a9, l6);
    lemma_piece(s, i, a8, ee);
    lemma_piece(s, i, a7, l5);
    lemma_piece(s, i, a6, hh);
    lemma_piece(s, i, a5, l4);
    lemma_piece(s, i, a4, pp);
    lemma_piece(s, i, a3, l3);
    lemma_piece(s, i, a2, tt);
    lemma_piece(s, i, a1, l2);
    lemma_piece(s, i, l1, dd);
    lemma_char_at(s, i + a1.len(), l2, 0);
    lemma_char_at(s, i + a3.len(), l3, 0);
    lemma_char_at(s, i + a5.len(), l4, 0);
    lemma_char_at(s, i + a7.len(), l5, 0);
    lemma_char_at(s, i + a9.len(), l6, 0);
}

/// Where `x` and `y` are both maximal runs of digits at `a`, they are equal.
proof fn lemma_digit_run_unique(s: Seq<char>, a: int, x: Seq<char>, y: Seq<char>)
    requires
        digit_run(s, a, x),
        digit_run(s, a, y),
    ensures
        x == y,
{
    if x.len() < y.len() {
        lemma_char_at(s, a, y, x.len() as int);
    } else if y.len() < x.len() {
        lemma_char_at(s, a, x, y.len() as int);
    }
}

/// At most one valid block's encoding stands at a given position.
proof fn lemma_encodes_at_unique(s: Seq<char>, i: int, b1: BlockView, b2: BlockView)
    requires
        encodes_at(s, i, b1),
        encodes_at(s, i, b2),
    ensures
        b1 == b2,
{
    lemma_block_layout(s, i, b1);
    lemma_block_layout(s, i, b2);
    lemma_decimal(b1.index);
    lemma_decimal(b2.index);
    lemma_digit_run_unique(s, i + 9, decimal(b1.index), decimal(b2.index));
    let t0 = ts_start(i, b1);
    let t1 = b1.timestamp;
    let t2 = b2.timestamp;
    lemma_ts_layout(s, t0, t1);
    lemma_ts_layout(s, t0, t2);
    lemma_fields_padded(t1);
    lemma_fields_padded(t2);
    lemma_digit_run_unique(s, t0, padded(t1.year as nat, 4), padded(t2.year as nat, 4));
    lemma_digit_run_unique(s, t0 + 5, padded(t1.month as nat, 2), padded(t2.month as nat, 2));
    lemma_digit_run_unique(s, t0 + 8, padded(t1.day as nat, 2), padded(t2.day as nat, 2));
    lemma_digit_run_unique(s, t0 + 11, padded(t1.hour as nat, 2), padded(t2.hour as nat, 2));
    lemma_digit_run_unique(s, t0 + 14, padded(t1.minute as nat, 2), padded(t2.minute as nat, 2));
    lemma_digit_run_unique(s, t0 + 17, padded(t1.second as nat, 2), padded(t2.second as nat, 2));
    if t1.nanosecond != 0 && t2.nanosecond != 0 {
        let f1 = fraction_digits(t1.nanosecond as nat);
        let f2 = fraction_digits(t2.nanosecond as nat);
        lemma_fraction_digits(t1.nanosecond as nat);
        lemma_fraction_digits(t2.nanosecond as nat);
        lemma_digit_run_unique(s, t0 + 20, f1, f2);
    }
    assert(t1 == t2);
    let p = prev_start(i, b1);
    lemma_unescape_escape(s, p, b1.prev_hash);
    lemma_unescape_escape(s, p, b2.prev_hash);
    let h = hash_start(i, b1);
    lemma_unescape_escape(s, h, b1.hash);
    lemma_unescape_escape(s, h, b2.hash);
    let d = data_start(i, b1);
    lemma_unescape_escape(s, d, b1.data);
    lemma_unescape_escape(s, d, b2.data);
}

/// Two valid blocks with the same encoding are the same.
pub proof fn lemma_encode_block_injective(b1: BlockView, b2: BlockView)
    requires
        valid_view(b1),
        valid_view(b2),
        encode_block(b1) == encode_block(b2),
    ensures
        b1 == b2,
{
    let s = encode_block(b1);
    assert(s.subrange(0, s.len() as int) =~= s);
    lemma_encodes_at_unique(s, 0, b1, b2);
}

/// Decoding the encoding of a valid block gives that block back.
pub proof fn lemma_block_round_trip(b: BlockView)
    requires
        valid_view(b),
    ensures
        decode_block(encode_block(b)) == Some(b),
{
    let c = choose|c: BlockView| valid_view(c) && encode_block(c) == encode_block(b);
    lemma_encode_block_injective(b, c);
}

/// `p + k`, where it does not pass `n`.
fn advance(p: usize, k: usize, n: usize) -> (r: Option<usize>)
    ensures
        r == if p + k <= n {
            Some((p + k) as usize)
        } else {
            None::<usize>
        },
{
    if p <= n && k <= n - p {
        Some(p + k)
    } else {
        None
    }
}

/// Reads the `w` digits at `a`, which a non-digit follows.
fn read_field(s: &Vec<char>, a: usize, w: usize) -> (r: Option<u32>)
    requires
        1 <= w <= 9,
        a + w < s.len(),
    ensures
        r matches Some(v) ==> v < pow10(w as nat),
        forall|x: Seq<char>| digit_run(s@, a as int, x) && x.len() == w ==> r == Some(
            digits_value(x) as u32,
        ),
{
    match read_number(s, a, w) {
        Some((v, e)) => {
            if e == a + w {
                proof {
                    lemma_pow10_mono(w as nat, 9);
                    reveal_with_fuel(pow10, 10);
                    assert forall|x: Seq<char>|
                        digit_run(s@, a as int, x) && x.len() == w implies v as u32 == digits_value(
                        x,
                    ) as u32 by {
                        assert(s@.subrange(a as int, a + w) == x);
                    }
                }
                Some(v as u32)
            } else {
                proof {
                    assert forall|x: Seq<char>|
                        digit_run(s@, a as int, x) && x.len() == w implies false by {
                        assert(s@.subrange(a as int, a + w) == x);
                    }
                }
                None
            }
        },
        None => {
            proof {
                assert forall|x: Seq<char>|
                    digit_run(s@, a as int, x) && x.len() == w implies false by {
                    assert(s@.subrange(a as int, a + w) == x);
                }
            }
            None
        },
    }
}

/// Reads the encoding of a timestamp at `t0`.
fn read_timestamp(s: &Vec<char>, t0: usize, Ghost(t): Ghost<Timestamp>) -> (r: Option<(Timestamp, usize)>)
    requires
        t0 + 20 <= s.len(),
    ensures
        r matches Some((x, e)) ==> x.wf() && t0 < e <= s.len(),
        ts_at(s@, t0 as int, t) ==> r == Some((t, (t0 + t.rfc3339().len()) as usize)),
{
    let ghost hit = ts_at(s@, t0 as int, t);
    proof {
        if hit {
            lemma_ts_layout(s@, t0 as int, t);
            lemma_fields_padded(t);
        }
        reveal_with_fuel(pow10, 10);
    }
    let y = match read_field(s, t0, 4) { Some(v) => v, None => return None };
    let mo = match read_field(s, t0 + 5, 2) { Some(v) => v, None => return None };
    let d = match read_field(s, t0 + 8, 2) { Some(v) => v, None => return None };
    let h = match read_field(s, t0 + 11, 2) { Some(v) => v, None => return None };
    let mi = match read_field(s, t0 + 14, 2) { Some(v) => v, None => return None };
    let se = match read_field(s, t0 + 17, 2) { Some(v) => v, None => return None };
    let (ns, end): (u32, usize) = if s[t0 + 19] == 'Z' {
        (0, t0 + 20)
    } else if s[t0 + 19] == '.' {
        if s.len() - t0 <= 20 {
            return None;
        }
        proof {
            if hit {
                assert(t.nanosecond != 0);
                let fd = fraction_digits(t.nanosecond as nat);
                lemma_fraction_digits(t.nanosecond as nat);
                assert(s@.subrange(t0 + 20, t0 + 20 + fd.len()) == fd);
            }
        }
        let (v, e) = match read_number(s, t0 + 20, 9) { Some(x) => x, None => return None };
        if e >= s.len() {
            return None;
        }
        let w = e - (t0 + 20);
        proof {
            if hit && t.nanosecond != 0 {
                let fd = fraction_digits(t.nanosecond as nat);
                lemma_fraction_digits(t.nanosecond as nat);
                assert(s@.subrange(t0 + 20, t0 + 20 + fd.len()) == fd);
                assert(e == t0 + 20 + fd.len());
                assert(v == digits_value(fd));
            }
        }
        let ns: u32 = if w == 3 {
            (v as u32) * 1_000_000
        } else if w == 6 {
            (v as u32) * 1000
        } else if w == 9 {
            v as u32
        } else {
            return None;
        };
        (ns, e + 1)
    } else {
        return None;
    };
    proof {
        if hit {
            assert(ns == t.nanosecond);
            assert(end == t0 + t.rfc3339().len());
        }
    }
    match Timestamp::new(y as i32, mo, d, h, mi, se, ns) {
        Some(x) => Some((x, end)),
        None => None,
    }
}

impl Block {
    /// The block's encoding.
    pub fn serialize(&self) -> (r: String)
        ensures
            r@ == encode_block(self@),
    {
        let mut s = String::new();
        s.append("{\"index\":");
        push_decimal(&mut s, self.index as u64);
        s.append(",\"timestamp\":\"");
        self.timestamp.push_rfc3339(&mut s);
        s.append("\",\"prev_hash\":\"");
        push_escaped(&mut s, self.prev_hash.as_str());
        s.append("\",\"hash\":\"");
        push_escaped(&mut s, self.hash.as_str());
        s.append("\",\"data\":\"");
        push_escaped(&mut s, self.data.as_str());
        s.append("\"}");
        proof {
            reveal_strlit("{\"index\":");
            reveal_strlit(",\"timestamp\":\"");
            reveal_strlit("\",\"prev_hash\":\"");
            reveal_strlit("\",\"hash\":\"");
            reveal_strlit("\",\"data\":\"");
            reveal_strlit("\"}");
            assert(s@ =~= encode_block(self@));
        }
        s
    }
}

/// Reads a block at position `i`: the block, if the text there has the
/// block's shape, and the position after it. Where the encoding of a valid
/// block stands at `i`, that block is the one read.
fn parse_block_at(s: &Vec<char>, i: usize, Ghost(target): Ghost<BlockView>) -> (r: Option<(Block, usize)>)
    ensures
        r matches Some((x, e)) ==> valid_view(x@) && i < e <= s.len(),
        encodes_at(s@, i as int, target) ==> (r matches Some((x, e)) && x@ == target && e == i
            + encode_block(target).len()),
{
    let ghost hit = encodes_at(s@, i as int, target);
    proof {
        if hit {
            lemma_block_layout(s@, i as int, target);
            lemma_decimal(target.index);
            lemma_unescape_escape(s@, prev_start(i as int, target), target.prev_hash);
            lemma_unescape_escape(s@, hash_start(i as int, target), target.hash);
            lemma_unescape_escape(s@, data_start(i as int, target), target.data);
        }
    }
    let n = s.len();
    let p1 = match advance(i, 9, n) { Some(p) => p, None => return None };
    let (idx, e1) = match read_number(s, p1, 10) { Some(x) => x, None => {
        proof { if hit { assert(s@.subrange(p1 as int, p1 + decimal(target.index).len()) == decimal(target.index)); } }
        return None
    } };
    proof {
        if hit {
            assert(s@.subrange(p1 as int, p1 + decimal(target.index).len()) == decimal(target.index));
            assert(e1 == p1 + decimal(target.index).len());
        }
    }
    if idx > u32::MAX as u64 {
        return None;
    }
    let t0 = match advance(e1, 14, n) { Some(p) => p, None => return None };
    if n - t0 < 20 {
        return None;
    }
    let (ts, t_end) = match read_timestamp(s, t0, Ghost(target.timestamp)) {
        Some(x) => x,
        None => return None,
    };
    let p2 = match advance(t_end, 15, n) { Some(p) => p, None => return None };
    let (prev, e2) = match read_escaped(s, p2) { Some(x) => x, None => return None };
    let p3 = match advance(e2, 9, n) { Some(p) => p, None => return None };
    let (hash, e3) = match read_escaped(s, p3) { Some(x) => x, None => return None };
    let p4 = match advance(e3, 9, n) { Some(p) => p, None => return None };
    let (data, e4) = match read_escaped(s, p4) { Some(x) => x, None => return None };
    let end = match advance(e4, 1, n) { Some(p) => p, None => return None };
    if end <= i {
        return None;
    }
    let b = Block { index: idx as u32, timestamp: ts, prev_hash: prev, hash, data };
    proof {
        if hit {
            assert(b@ == target);
        }
    }
    Some((b, end))
}

/// Decodes one block: exactly `decode_block` of the text.
pub fn decode_block_text(text: &str) -> (r: Option<Block>)
    ensures
        match r {
            Some(x) => decode_block(text@) == Some(x@),
            None => decode_block(text@) is None,
        },
{
    let v = chars_of(text);
    let ghost target = choose|b: BlockView| valid_view(b) && encode_block(b) == text@;
    proof {
        assert(v@.subrange(0, v@.len() as int) =~= v@);
    }
    match parse_block_at(&v, 0, Ghost(target)) {
        Some((b, e)) => {
            if e == v.len() {
                let enc = b.serialize();
                let t = String::from_str(text);
                if enc == t {
                    proof {
                        lemma_block_round_trip(b@);
                    }
                    return Some(b);
                }
            }
            None
        },
        None => None,
    }
}

impl Block {
    /// Decodes a block from its encoding; `None` where the text is not the
    /// encoding of a valid block.
    pub fn deserialize(contents: &str) -> (r: Option<Block>)
        ensures
            match r {
                Some(x) => decode_block(contents@) == Some(x@),
                None => decode_block(contents@) is None,
            },
    {
        decode_block_text(contents)
    }
}

/// The views of a sequence of blocks.
pub open spec fn views(v: Seq<Block>) -> Seq<BlockView> {
    v.map_values(|b: Block| b@)
}

pub open spec fn all_valid(bs: Seq<BlockView>) -> bool {
    forall|k: int| 0 <= k < bs.len() ==> valid_view(#[trigger] bs[k])
}

/// The block encodings of `bs`, separated by commas.
pub open spec fn list_body(bs: Seq<BlockView>) -> Seq<char>
    decreases bs.len(),
{
    if bs.len() == 0 {
        Seq::empty()
    } else if bs.len() == 1 {
        encode_block(bs[0])
    } else {
        list_body(bs.drop_last()) + seq![','] + encode_block(bs.last())
    }
}

/// The encoding of a sequence of blocks: a JSON array of block objects.
pub open spec fn encode_list(bs: Seq<BlockView>) -> Seq<char> {
    seq!['['] + list_body(bs) + seq![']']
}

proof fn lemma_body_step(bs: Seq<BlockView>, k: int)
    requires
        0 <= k < bs.len(),
    ensures
        list_body(bs.take(k + 1)) == list_body(bs.take(k)) + (if k == 0 {
            Seq::<char>::empty()
        } else {
            seq![',']
        }) + encode_block(bs[k]),
{
    assert(bs.take(k + 1).drop_last() =~= bs.take(k));
    if k == 0 {
        assert(list_body(bs.take(0)) =~= Seq::<char>::empty());
        assert(list_body(bs.take(1)) =~= Seq::<char>::empty() + Seq::<char>::empty()
            + encode_block(bs[0]));
    }
}

proof fn lemma_body_prefix(bs: Seq<BlockView>, m: int)
    requires
        0 <= m <= bs.len(),
    ensures
        list_body(bs.take(m)).len() <= list_body(bs).len(),
        list_body(bs).subrange(0, list_body(bs.take(m)).len() as int) == list_body(bs.take(m)),
    decreases bs.len(),
{
    if m == bs.len() {
        assert(bs.take(m) =~= bs);
        assert(list_body(bs).subrange(0, list_body(bs).len() as int) =~= list_body(bs));
    } else {
        let d = bs.drop_last();
        assert(d.take(m) =~= bs.take(m));
        lemma_body_prefix(d, m);
        lemma_body_step(bs, bs.len() - 1);
        assert(bs.take(bs.len() - 1) =~= d);
        assert(bs.take(bs.len() as int) =~= bs);
        let p = list_body(bs.take(m));
        assert(list_body(bs).subrange(0, p.len() as int) =~= list_body(d).subrange(
            0,
            p.len() as int,
        ));
    }
}

/// Where the list encoding of `bs` is `s`, block `k` stands at its offset,
/// and a comma or the closing bracket follows it.
#[verifier::rlimit(60)]
proof fn lemma_list_layout(s: Seq<char>, bs: Seq<BlockView>, k: int)
    requires
        all_valid(bs),
        s == encode_list(bs),
        0 <= k < bs.len(),
    ensures
        encodes_at(
            s,
            1 + list_body(bs.take(k)).len() + (if k == 0 {
                0int
            } else {
                1int
            }),
            bs[k],
        ),
        1 + list_body(bs.take(k + 1)).len() == 1 + list_body(bs.take(k)).len() + (if k == 0 {
            0int
        } else {
            1int
        }) + encode_block(bs[k]).len(),
        1 + list_body(bs.take(k + 1)).len() < s.len(),
        k + 1 < bs.len() ==> s[(1 + list_body(bs.take(k + 1)).len()) as int] == ',',
        k + 1 == bs.len() ==> s[(1 + list_body(bs.take(k + 1)).len()) as int] == ']'
            && 1 + list_body(bs.take(k + 1)).len() + 1 == s.len(),
{
    lemma_body_step(bs, k);
    lemma_body_prefix(bs, k + 1);
    let body = list_body(bs);
    let q = list_body(bs.take(k + 1));
    let p = list_body(bs.take(k));
    let sep: int = if k == 0 {
        0
    } else {
        1
    };
    let e = encode_block(bs[k]);
    let a = 1 + p.len() + sep;
    assert(s.subrange(a, a + e.len()) =~= e) by {
        assert forall|j: int| 0 <= j < e.len() implies s.subrange(a, a + e.len())[j] == e[j] by {
            assert(s[a + j] == body[a + j - 1]);
            assert(body[a + j - 1] == body.subrange(0, q.len() as int)[a + j - 1]);
        }
    }
    if k + 1 < bs.len() {
        lemma_body_step(bs, k + 1);
        lemma_body_prefix(bs, k + 2);
        let q2 = list_body(bs.take(k + 2));
        assert(q2[q.len() as int] == ',');
        assert(body[q.len() as int] == body.subrange(0, q2.len() as int)[q.len() as int]);
    } else {
        assert(bs.take(k + 1) =~= bs);
    }
}

/// Where block `k` of `bs` starts in its list encoding.
#[verifier::opaque]
pub open spec fn block_pos(bs: Seq<BlockView>, k: int) -> int {
    1 + list_body(bs.take(k)).len() + (if k == 0 {
        0int
    } else {
        1int
    })
}

/// Where block `k` of `bs` ends in its list encoding.
#[verifier::opaque]
pub open spec fn block_end(bs: Seq<BlockView>, k: int) -> int {
    (1 + list_body(bs.take(k + 1)).len()) as int
}

proof fn lemma_list_step(s: Seq<char>, bs: Seq<BlockView>, k: int)
    requires
        all_valid(bs),
        s == encode_list(bs),
        0 <= k < bs.len(),
    ensures
        encodes_at(s, block_pos(bs, k), bs[k]),
        block_end(bs, k) == block_pos(bs, k) + encode_block(bs[k]).len(),
        block_end(bs, k) < s.len(),
        k + 1 < bs.len() ==> s[block_end(bs, k)] == ',' && block_pos(bs, k + 1) == block_end(bs, k)
            + 1,
        k + 1 == bs.len() ==> s[block_end(bs, k)] == ']',
        block_pos(bs, 0) == 1,
{
    reveal(block_pos);
    reveal(block_end);
    lemma_list_layout(s, bs, k);
    assert(list_body(bs.take(0)) =~= Seq::<char>::empty());
}

/// What decoding `s` as a sequence gives: the valid blocks whose list
/// encoding is `s`, if any.
pub open spec fn decode_list(s: Seq<char>) -> Option<Seq<BlockView>> {
    if exists|bs: Seq<BlockView>| all_valid(bs) && encode_list(bs) == s {
        Some(choose|bs: Seq<BlockView>| all_valid(bs) && encode_list(bs) == s)
    } else {
        None
    }
}

proof fn lemma_list_agree(s: Seq<char>, t1: Seq<BlockView>, t2: Seq<BlockView>, k: int)
    requires
        all_valid(t1),
        all_valid(t2),
        s == encode_list(t1),
        s == encode_list(t2),
        0 <= k < t1.len(),
        k < t2.len(),
    ensures
        forall|j: int| 0 <= j <= k ==> t1[j] == t2[j],
        block_end(t1, k) == block_end(t2, k),
    decreases k,
{
    lemma_list_step(s, t1, k);
    lemma_list_step(s, t2, k);
    if k > 0 {
        lemma_list_agree(s, t1, t2, k - 1);
        lemma_list_step(s, t1, k - 1);
        lemma_list_step(s, t2, k - 1);
    }
    lemma_encodes_at_unique(s, block_pos(t1, k), t1[k], t2[k]);
}

/// Two valid block sequences with the same encoding are the same.
pub proof fn lemma_encode_list_injective(t1: Seq<BlockView>, t2: Seq<BlockView>)
    requires
        all_valid(t1),
        all_valid(t2),
        encode_list(t1) == encode_list(t2),
    ensures
        t1 == t2,
{
    let s = encode_list(t1);
    if t1.len() == 0 || t2.len() == 0 {
        if t1.len() > 0 {
            lemma_list_step(s, t1, 0);
            lemma_char_at(s, 1, encode_block(t1[0]), 0);
            assert(list_body(t2) =~= Seq::<char>::empty());
        } else if t2.len() > 0 {
            lemma_list_step(s, t2, 0);
            lemma_char_at(s, 1, encode_block(t2[0]), 0);
            assert(list_body(t1) =~= Seq::<char>::empty());
        }
        assert(t1 =~= t2);
    } else {
        let n1 = t1.len() as int;
        let n2 = t2.len() as int;
        if n1 < n2 {
            lemma_list_agree(s, t1, t2, n1 - 1);
            lemma_list_step(s, t1, n1 - 1);
            lemma_list_step(s, t2, n1 - 1);
        } else if n2 < n1 {
            lemma_list_agree(s, t1, t2, n2 - 1);
            lemma_list_step(s, t1, n2 - 1);
            lemma_list_step(s, t2, n2 - 1);
        } else {
            lemma_list_agree(s, t1, t2, n1 - 1);
            assert(t1 =~= t2);
        }
    }
}

/// Decoding the encoding of valid blocks gives those blocks back.
pub proof fn lemma_list_round_trip(bs: Seq<BlockView>)
    requires
        all_valid(bs),
    ensures
        decode_list(encode_list(bs)) == Some(bs),
{
    let c = choose|c: Seq<BlockView>| all_valid(c) && encode_list(c) == encode_list(bs);
    lemma_encode_list_injective(bs, c);
}

/// Encodes a sequence of blocks.
pub fn encode_blocks(blocks: &Vec<Block>) -> (r: String)
    ensures
        r@ == encode_list(views(blocks@)),
{
    let mut s = String::new();
    push_char(&mut s, '[');
    let mut i: usize = 0;
    while i < blocks.len()
        invariant
            i <= blocks.len(),
            s@ == seq!['['] + list_body(views(blocks@).take(i as int)),
        decreases blocks.len() - i,
    {
        proof {
            lemma_body_step(views(blocks@), i as int);
        }
        if i > 0 {
            push_char(&mut s, ',');
        }
        let e = blocks[i].serialize();
        s.append(e.as_str());
        i = i + 1;
        assert(s@ =~= seq!['['] + list_body(views(blocks@).take(i as int)));
    }
    push_char(&mut s, ']');
    assert(views(blocks@).take(i as int) =~= views(blocks@));
    assert(s@ =~= encode_list(views(blocks@)));
    s
}

proof fn lemma_not_list(s: Seq<char>)
    requires
        !(exists|bs: Seq<BlockView>| all_valid(bs) && encode_list(bs) == s),
    ensures
        forall|bs: Seq<BlockView>| all_valid(bs) ==> encode_list(bs) != s,
{
}

/// Decodes a sequence of blocks: exactly `decode_list` of the text.
#[verifier::rlimit(40)]
pub fn decode_blocks(text: &str) -> (r: Option<Vec<Block>>)
    ensures
        match r {
            Some(v) => decode_list(text@) == Some(views(v@)),
            None => decode_list(text@) is None,
        },
{
    let s = chars_of(text);
    let ghost target = choose|bs: Seq<BlockView>| all_valid(bs) && encode_list(bs) == text@;
    let ghost hit = exists|bs: Seq<BlockView>| all_valid(bs) && encode_list(bs) == text@;
    proof {
        if hit {
            assert(all_valid(target) && encode_list(target) == text@);
            if target.len() == 0 {
                assert(list_body(target) =~= Seq::<char>::empty());
            }
        }
    }
    if s.len() < 2 || s[0] != '[' {
        proof {
            lemma_not_list(text@);
        }
        return None;
    }
    let mut out: Vec<Block> = Vec::new();
    proof {
        if hit && target.len() > 0 {
            lemma_list_step(s@, target, 0);
        }
    }
    if s[1] == ']' {
        proof {
            if hit && target.len() > 0 {
                lemma_list_step(s@, target, 0);
                lemma_char_at(s@, 1, encode_block(target[0]), 0);
            }
            if hit {
                assert(views(out@) =~= target);
            }
        }
    } else {
        let mut pos: usize = 1;
        loop
            invariant_except_break
                hit ==> out.len() < target.len() && views(out@) == target.take(out.len() as int)
                    && pos == block_pos(target, out.len() as int),
            invariant
                1 <= pos <= s.len(),
                s@ == text@,
                all_valid(views(out@)),
                hit == exists|bs: Seq<BlockView>| all_valid(bs) && encode_list(bs) == text@,
                hit ==> all_valid(target) && encode_list(target) == text@,
            ensures
                all_valid(views(out@)),
                hit ==> views(out@) == target,
            decreases s.len() - pos,
        {
            let ghost k = out.len() as int;
            proof {
                if hit {
                    lemma_list_step(s@, target, k);
                }
            }
            let (b, e) = match parse_block_at(&s, pos, Ghost(target[k])) {
                Some(x) => x,
                None => {
                    proof {
                        if hit {
                            assert(encodes_at(s@, pos as int, target[k]));
                        }
                        lemma_not_list(text@);
                    }
                    return None;
                },
            };
            proof {
                if hit {
                    assert(b@ == target[k]);
                    assert(e == block_end(target, k));
                }
            }
            let ghost before = views(out@);
            out.push(b);
            proof {
                assert(views(out@) =~= before.push(b@));
                if hit {
                    assert(target.take(k + 1) =~= target.take(k).push(target[k]));
                }
                assert forall|j: int| 0 <= j < views(out@).len() implies valid_view(
                    #[trigger] views(out@)[j],
                ) by {
                    if j < k {
                        assert(views(out@)[j] == before[j]);
                    }
                }
            }
            if e >= s.len() {
                proof {
                    if hit {
                        assert(false);
                    }
                }
                proof {
                    lemma_not_list(text@);
                }
                return None;
            }
            if s[e] == ']' {
                proof {
                    if hit {
                        assert(k + 1 == target.len());
                        assert(target.take(k + 1) =~= target);
                    }
                }
                break;
            } else if s[e] == ',' {
                proof {
                    if hit {
                        assert(k + 1 < target.len());
                        assert(views(out@) == target.take(k + 1));
                        assert(out.len() == k + 1);
                    }
                }
                pos = e + 1;
                proof {
                    if hit {
                        assert(pos == block_pos(target, out.len() as int));
                    }
                }
            } else {
                proof {
                    if hit {
                        assert(false);
                    }
                }
                proof {
                    lemma_not_list(text@);
                }
                return None;
            }
        }
    }
    let enc = encode_blocks(&out);
    let t = String::from_str(text);
    if enc == t {
        proof {
            lemma_list_round_trip(views(out@));
        }
        Some(out)
    } else {
        proof {
            if hit {
                if target.len() == 0 {
                    assert(list_body(target) =~= Seq::<char>::empty());
                    assert(views(out@) =~= target);
                } else {
                    assert(target.take(target.len() as int) =~= target);
                }
            }
        }
        None
    }
}

} // verus!
