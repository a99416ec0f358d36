//! Building and scanning text: digits, quoted strings with escapes.
use vstd::prelude::*;
use crate::digits::{all_digits, decimal, digit_char, digit_of, digits_value, is_digit, padded, pow10};

verus! {

/// Relies on `String::push`: appends one character.
#[verifier::external_body]
pub(crate) fn push_char(s: &mut String, c: char)
    ensures
        final(s)@ == old(s)@.push(c),
{
    s.push(c)
}

/// Relies on `str::chars` collected into a `Vec`: the characters in order.
#[verifier::external_body]
pub(crate) fn chars_of(s: &str) -> (r: Vec<char>)
    ensures
        r@ == s@,
{
    s.chars().collect()
}

/// Appends the shortest decimal text of `n`.
pub(crate) fn push_decimal(s: &mut String, n: u64)
    ensures
        final(s)@ == old(s)@ + decimal(n as nat),
    decreases n,
{
    if n >= 10 {
        push_decimal(s, n / 10);
    }
    push_char(s, digit_of(n % 10));
    assert(final(s)@ =~= old(s)@ + decimal(n as nat));
}

/// Appends the last `w` digits of `n`, with leading zeros.
pub(crate) fn push_padded(s: &mut String, n: u32, w: usize)
    ensures
        final(s)@ == old(s)@ + padded(n as nat, w as nat),
    decreases w,
{
    if w > 0 {
        push_padded(s, n / 10, w - 1);
        push_char(s, digit_of((n % 10) as u64));
        assert(final(s)@ =~= old(s)@ + padded(n as nat, w as nat));
    } else {
        assert(final(s)@ =~= old(s)@ + padded(n as nat, w as nat));
    }
}

/// A character that JSON does not allow unescaped inside a string.
pub open spec fn is_control(c: char) -> bool {
    (c as u32) < 0x20
}

/// The lower-case hex digit for `d < 16`.
pub open spec fn hex_char(d: nat) -> char {
    if d < 10 {
        digit_char(d)
    } else {
        ((d + 87) as u8) as char
    }
}

/// The value of a lower-case hex digit.
pub open spec fn hex_value(c: char) -> Option<nat> {
    if '0' <= c && c <= '9' {
        Some((c as int - 48) as nat)
    } else if 'a' <= c && c <= 'f' {
        Some((c as int - 87) as nat)
    } else {
        None
    }
}

/// The letter of a control character's short escape (`\b`, `\f`, `\n`,
/// `\r`, `\t`), if it has one.
pub open spec fn short_escape(c: char) -> Option<char> {
    if c == '\u{8}' {
        Some('b')
    } else if c == '\u{c}' {
        Some('f')
    } else if c == '\n' {
        Some('n')
    } else if c == '\r' {
        Some('r')
    } else if c == '\t' {
        Some('t')
    } else {
        None
    }
}

/// The control character that a short escape's letter stands for.
pub open spec fn short_unescape(e: char) -> Option<char> {
    if e == 'b' {
        Some('\u{8}')
    } else if e == 'f' {
        Some('\u{c}')
    } else if e == 'n' {
        Some('\n')
    } else if e == 'r' {
        Some('\r')
    } else if e == 't' {
        Some('\t')
    } else {
        None
    }
}

/// How a character stands inside a JSON string: a quote and a backslash
/// are preceded by a backslash; a control character takes its short escape
/// where it has one, else `\u00xx`.
pub open spec fn escape_char(c: char) -> Seq<char> {
    if c == '"' || c == '\\' {
        seq!['\\', c]
    } else if short_escape(c) is Some {
        seq!['\\', short_escape(c)->Some_0]
    } else if is_control(c) {
        seq!['\\', 'u', '0', '0', hex_char((c as u32 / 16) as nat), hex_char((c as u32 % 16) as nat)]
    } else {
        seq![c]
    }
}

/// The text of `x` inside a JSON string.
pub open spec fn escape(x: Seq<char>) -> Seq<char>
    decreases x.len(),
{
    if x.len() == 0 {
        Seq::empty()
    } else {
        escape_char(x[0]) + escape(x.drop_first())
    }
}

/// Reading a quoted string's body from position `i` up to its closing
/// quote: the characters it denotes and the position after the quote.
/// `\uXXXX` is read from its last two hex digits; `\b`, `\f`, `\n`, `\r`
/// and `\t` stand for their control characters.
pub open spec fn unescape_from(s: Seq<char>, i: int) -> Option<(Seq<char>, int)>
    decreases s.len() - i,
{
    if i < 0 || i >= s.len() {
        None
    } else if s[i] == '"' {
        Some((Seq::empty(), i + 1))
    } else if s[i] == '\\' {
        if i + 1 >= s.len() {
            None
        } else if s[i + 1] == 'u' {
            if i + 5 >= s.len() {
                None
            } else {
                match (hex_value(s[i + 4]), hex_value(s[i + 5])) {
                    (Some(h), Some(l)) => prepend(
                        ((16 * h + l) as u8) as char,
                        unescape_from(s, i + 6),
                    ),
                    _ => None,
                }
            }
        } else {
            match short_unescape(s[i + 1]) {
                Some(c) => prepend(c, unescape_from(s, i + 2)),
                None => prepend(s[i + 1], unescape_from(s, i + 2)),
            }
        }
    } else {
        prepend(s[i], unescape_from(s, i + 1))
    }
}

pub open spec fn prepend(c: char, r: Option<(Seq<char>, int)>) -> Option<(Seq<char>, int)> {
    match r {
        Some((x, e)) => Some((seq![c] + x, e)),
        None => None,
    }
}

pub open spec fn prepend_all(o: Seq<char>, r: Option<(Seq<char>, int)>) -> Option<(Seq<char>, int)> {
    match r {
        Some((x, e)) => Some((o + x, e)),
        None => None,
    }
}

pub proof fn lemma_escape_push(x: Seq<char>, c: char)
    ensures
        escape(x.push(c)) == escape(x) + escape_char(c),
    decreases x.len(),
{
    if x.len() == 0 {
        assert(x =~= Seq::<char>::empty());
        assert(x.push(c).drop_first() =~= Seq::<char>::empty());
        assert(x.push(c)[0] == c);
        assert(escape(x.push(c)) =~= escape(x) + escape_char(c));
    } else {
        lemma_escape_push(x.drop_first(), c);
        assert(x.push(c).drop_first() =~= x.drop_first().push(c));
        assert(escape(x.push(c)) =~= escape(x) + escape_char(c));
    }
}

proof fn lemma_control_char(c: char)
    requires
        (c as u32) < 32,
    ensures
        (((c as u32) as u8) as char) == c,
{
}

proof fn lemma_hex_roundtrip(d: nat)
    requires
        d < 16,
    ensures
        hex_value(hex_char(d)) == Some(d),
        hex_char(d) != '"' && hex_char(d) != '\\',
{
}

/// A quoted string's body, followed by its closing quote, reads back as
/// the characters it was made from.
pub proof fn lemma_unescape_escape(s: Seq<char>, i: int, x: Seq<char>)
    requires
        0 <= i,
        i + escape(x).len() < s.len(),
        s.subrange(i, i + escape(x).len()) == escape(x),
        s[i + escape(x).len()] == '"',
    ensures
        unescape_from(s, i) == Some((x, i + escape(x).len() + 1)),
    decreases x.len(),
{
    let e = escape(x);
    if x.len() == 0 {
        assert(x =~= Seq::<char>::empty());
    } else {
        let c = x[0];
        let t = x.drop_first();
        let k = escape_char(c).len() as int;
        assert(e == escape_char(c) + escape(t));
        assert(s.subrange(i + k, i + k + escape(t).len()) =~= escape(t)) by {
            assert forall|j: int| 0 <= j < escape(t).len() implies s.subrange(
                i + k,
                i + k + escape(t).len(),
            )[j] == escape(t)[j] by {
                assert(s[i + k + j] == s.subrange(i, i + e.len())[k + j]);
            }
        }
        assert forall|j: int| 0 <= j < k implies s[i + j] == escape_char(c)[j] by {
            assert(s[i + j] == s.subrange(i, i + e.len())[j]);
        }
        if c != '"' && c != '\\' && short_escape(c) is None && is_control(c) {
            let v = c as u32;
            let h = (v / 16) as nat;
            let l = (v % 16) as nat;
            lemma_hex_roundtrip(h);
            lemma_hex_roundtrip(l);
            assert(16 * h + l == v as nat);
            lemma_control_char(c);
            assert((((16 * h + l) as u8) as char) == c);
        }
        lemma_unescape_escape(s, i + k, t);
        assert(seq![c] + t =~= x);
    }
}

fn hex_of(d: u32) -> (c: char)
    requires
        d < 16,
    ensures
        c == hex_char(d as nat),
{
    if d < 10 {
        ((d as u8) + 48) as char
    } else {
        ((d as u8) + 87) as char
    }
}

/// Appends `x` as a JSON string's body.
pub(crate) fn push_escaped(s: &mut String, x: &str)
    ensures
        final(s)@ == old(s)@ + escape(x@),
{
    let v = chars_of(x);
    let mut i: usize = 0;
    while i < v.len()
        invariant
            i <= v.len(),
            v@ == x@,
            s@ == old(s)@ + escape(v@.subrange(0, i as int)),
        decreases v.len() - i,
    {
        let c = v[i];
        proof {
            lemma_escape_push(v@.subrange(0, i as int), c);
            assert(v@.subrange(0, i as int).push(c) =~= v@.subrange(0, i + 1));
        }
        let short = short_escape_of(c);
        if c == '"' || c == '\\' {
            push_char(s, '\\');
            push_char(s, c);
        } else if short.is_some() {
            push_char(s, '\\');
            push_char(s, short.unwrap());
        } else if (c as u32) < 0x20 {
            push_char(s, '\\');
            push_char(s, 'u');
            push_char(s, '0');
            push_char(s, '0');
            push_char(s, hex_of(c as u32 / 16));
            push_char(s, hex_of(c as u32 % 16));
        } else {
            push_char(s, c);
        }
        i = i + 1;
        assert(s@ =~= old(s)@ + escape(v@.subrange(0, i as int)));
    }
    assert(v@.subrange(0, i as int) =~= x@);
}

fn short_escape_of(c: char) -> (r: Option<char>)
    ensures
        r == short_escape(c),
{
    if c == '\u{8}' {
        Some('b')
    } else if c == '\u{c}' {
        Some('f')
    } else if c == '\n' {
        Some('n')
    } else if c == '\r' {
        Some('r')
    } else if c == '\t' {
        Some('t')
    } else {
        None
    }
}

fn short_unescape_of(e: char) -> (r: Option<char>)
    ensures
        r == short_unescape(e),
{
    if e == 'b' {
        Some('\u{8}')
    } else if e == 'f' {
        Some('\u{c}')
    } else if e == 'n' {
        Some('\n')
    } else if e == 'r' {
        Some('\r')
    } else if e == 't' {
        Some('\t')
    } else {
        None
    }
}

fn hex_digit_value(c: char) -> (r: Option<u32>)
    ensures
        match (r, hex_value(c)) {
            (Some(v), Some(w)) => v == w && v < 16,
            (None, None) => true,
            _ => false,
        },
{
    if '0' <= c && c <= '9' {
        Some(c as u32 - 48)
    } else if 'a' <= c && c <= 'f' {
        Some(c as u32 - 87)
    } else {
        None
    }
}

/// Reads a quoted string's body from position `i` up to its closing quote.
pub(crate) fn read_escaped(s: &Vec<char>, start: usize) -> (r: Option<(String, usize)>)
    ensures
        match (r, unescape_from(s@, start as int)) {
            (Some((x, e)), Some((y, f))) => x@ == y && e as int == f,
            (None, None) => true,
            _ => false,
        },
{
    let mut out = String::new();
    let mut i: usize = start;
    while i < s.len()
        invariant
            start <= i,
            unescape_from(s@, start as int) == prepend_all(out@, unescape_from(s@, i as int)),
        decreases s.len() - i,
    {
        let c = s[i];
        if c == '"' {
            assert(out@ + Seq::<char>::empty() =~= out@);
            return Some((out, i + 1));
        } else if c == '\\' {
            if i + 1 >= s.len() {
                return None;
            }
            let (d, step): (char, usize) = if s[i + 1] == 'u' {
                if s.len() - i <= 5 {
                    return None;
                }
                match (hex_digit_value(s[i + 4]), hex_digit_value(s[i + 5])) {
                    (Some(h), Some(l)) => ((((16 * h + l) as u8) as char), 6),
                    _ => {
                        return None;
                    },
                }
            } else {
                match short_unescape_of(s[i + 1]) {
                    Some(c) => (c, 2),
                    None => (s[i + 1], 2),
                }
            };
            proof {
                assert(unescape_from(s@, i as int) == prepend(d, unescape_from(s@, i + step)));
                match unescape_from(s@, i + step) {
                    Some((x, e)) => {
                        assert(out@ + (seq![d] + x) =~= out@.push(d) + x);
                    },
                    None => {},
                }
            }
            push_char(&mut out, d);
            i = i + step;
        } else {
            proof {
                match unescape_from(s@, i + 1) {
                    Some((x, e)) => {
                        assert(out@ + (seq![c] + x) =~= out@.push(c) + x);
                    },
                    None => {},
                }
            }
            push_char(&mut out, c);
            i = i + 1;
        }
    }
    None
}

/// Reads a run of at most `max` digits at position `i`: its value and the
/// position after it. `None` where no digit stands there or the run is longer.
pub(crate) fn read_number(s: &Vec<char>, start: usize, max: usize) -> (r: Option<(u64, usize)>)
    requires
        max <= 19,
    ensures
        match r {
            Some((v, e)) => start < e <= s.len() && e - start <= max && all_digits(
                s@.subrange(start as int, e as int),
            ) && v == digits_value(s@.subrange(start as int, e as int)) && v < pow10(
                (e - start) as nat,
            ) && (e == s.len() || !is_digit(s@[e as int])),
            None => true,
        },
        forall|e: int|
            start < e <= s.len() && e - start <= max && all_digits(
                #[trigger] s@.subrange(start as int, e),
            ) && (e == s.len() || !is_digit(s@[e])) ==> r == Some(
                (digits_value(s@.subrange(start as int, e)) as u64, e as usize),
            ),
{
    if start >= s.len() {
        return None;
    }
    let mut v: u64 = 0;
    let mut i: usize = start;
    while i < s.len() && '0' <= s[i] && s[i] <= '9' && i - start < max
        invariant
            start <= i <= s.len(),
            i - start <= max,
            all_digits(s@.subrange(start as int, i as int)),
            v == digits_value(s@.subrange(start as int, i as int)),
            v < pow10((i - start) as nat),
            max <= 19,
        decreases s.len() - i,
    {
        let c = s[i];
        let d: u64 = (c as u32 - 48) as u64;
        proof {
            let k = (i - start) as nat;
            let k1 = (k + 1) as nat;
            lemma_pow10_mono(k1, 19);
            lemma_pow10_19();
            assert(pow10(k1) == 10 * pow10(k));
            let p = pow10(k) as int;
            assert(v * 10 + d < 10 * p) by (nonlinear_arith)
                requires v < p, d < 10;
            assert(s@.subrange(start as int, i + 1).drop_last() =~= s@.subrange(start as int, i as int));
        }
        v = v * 10 + d;
        i = i + 1;
        assert(all_digits(s@.subrange(start as int, i as int))) by {
            assert forall|j: int| 0 <= j < i - start implies is_digit(
                #[trigger] s@.subrange(start as int, i as int)[j],
            ) by {
                if j < i - 1 - start {
                    assert(s@.subrange(start as int, i as int)[j] == s@.subrange(
                        start as int,
                        i - 1,
                    )[j]);
                }
            }
        }
    }
    let ok = i > start && (i == s.len() || !('0' <= s[i] && s[i] <= '9'));
    proof {
        assert forall|e: int|
            start < e <= s.len() && e - start <= max && all_digits(
                #[trigger] s@.subrange(start as int, e),
            ) && (e == s.len() || !is_digit(s@[e])) implies e == i && ok by {
            if e < i {
                assert(s@[e] == s@.subrange(start as int, i as int)[e - start]);
            } else if e > i {
                assert(s@[i as int] == s@.subrange(start as int, e)[i - start]);
            }
        }
    }
    if ok {
        Some((v, i))
    } else {
        None
    }
}

proof fn lemma_pow10_19()
    ensures
        pow10(19) == 10000000000000000000nat,
{
    reveal_with_fuel(pow10, 20);
}

pub proof fn lemma_pow10_mono(a: nat, b: nat)
    requires
        a <= b,
    ensures
        pow10(a) <= pow10(b),
    decreases b,
{
    if a < b {
        lemma_pow10_mono(a, (b - 1) as nat);
        assert(pow10(b) == 10 * pow10((b - 1) as nat));
    }
}

} // verus!
