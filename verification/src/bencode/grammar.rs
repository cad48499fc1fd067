//! The bencode format, stated as spec functions over byte sequences.
//!
//! Every parsing function here starts at a position `p` of an input `s` and
//! either succeeds with a value and the position just past it, or fails with a
//! failure and the position where the decoder stops.  They follow the decoder
//! step by step, so that the decoder's contracts can say exactly what it does.
use vstd::prelude::*;
use vstd::utf8::*;

verus! {

pub const DICT_START: u8 = 100;  // 'd'
pub const LIST_START: u8 = 108;  // 'l'
pub const INT_START: u8 = 105;  // 'i'
pub const END: u8 = 101;  // 'e'
pub const COLON: u8 = 58;  // ':'
pub const MINUS: u8 = 45;  // '-'
pub const ZERO: u8 = 48;  // '0'
pub const NINE: u8 = 57;  // '9'

/// The mathematical model of a bencoded value.
pub enum BValue {
    Int(int),
    Bytes(Seq<u8>),
    Str(Seq<char>),
    List(Seq<BValue>),
    Dict(Seq<(Seq<char>, BValue)>),
}

/// The model of a decoding failure.
pub enum DecodeFailure {
    Eof,
    ExtraneousData,
    InvalidByte(u8),
    InvalidDict,
    InvalidNumber,
    InvalidUtf8,
    MissingField(Seq<char>),
    UnexpectedByte(u8, u8),
}

pub open spec fn is_digit(b: u8) -> bool {
    ZERO <= b <= NINE
}

/// Bytes that may appear in a number.
pub open spec fn is_number_byte(b: u8) -> bool {
    b == MINUS || is_digit(b)
}

pub open spec fn all_digits(t: Seq<u8>) -> bool {
    forall|i: int| 0 <= i < t.len() ==> is_digit(#[trigger] t[i])
}

/// The value of a sequence of decimal digits.
pub open spec fn digits_value(t: Seq<u8>) -> nat
    decreases t.len(),
{
    if t.len() == 0 {
        0
    } else {
        digits_value(t.drop_last()) * 10 + (t.last() - ZERO) as nat
    }
}

/// The first position at or after `p` that does not hold a number byte.
pub open spec fn number_run_end(s: Seq<u8>, p: int) -> int
    decreases s.len() - p,
{
    if p < 0 || p >= s.len() || !is_number_byte(s[p]) {
        p
    } else {
        number_run_end(s, p + 1)
    }
}

/// The integer a number token stands for, when it is well formed: no leading
/// zero, no negative zero, an optional minus sign and at least one digit.
pub open spec fn number_token_value(t: Seq<u8>) -> Option<int> {
    if t.len() == 0 || (t.len() > 1 && t[0] == ZERO) || t =~= seq![MINUS, ZERO] {
        None
    } else if t[0] == MINUS {
        if t.len() > 1 && all_digits(t.drop_first()) {
            Some(-(digits_value(t.drop_first()) as int))
        } else {
            None
        }
    } else if all_digits(t) {
        Some(digits_value(t) as int)
    } else {
        None
    }
}

/// Reads a number (without `i` and `e`) that must lie in `lo ..= hi`.
pub open spec fn parse_number(s: Seq<u8>, p: int, lo: int, hi: int) -> Result<
    (int, int),
    (DecodeFailure, int),
> {
    let q = number_run_end(s, p);
    if q >= s.len() {
        Err((DecodeFailure::Eof, q))
    } else {
        match number_token_value(s.subrange(p, q)) {
            Some(v) => if lo <= v <= hi {
                Ok((v, q))
            } else {
                Err((DecodeFailure::InvalidNumber, q))
            },
            None => Err((DecodeFailure::InvalidNumber, q)),
        }
    }
}

/// Reads one byte that must be `b`.
pub open spec fn expect_byte(s: Seq<u8>, p: int, b: u8) -> Result<int, (DecodeFailure, int)> {
    if p >= s.len() {
        Err((DecodeFailure::Eof, p))
    } else if s[p] == b {
        Ok(p + 1)
    } else {
        Err((DecodeFailure::UnexpectedByte(b, s[p]), p + 1))
    }
}

/// Reads an integer `i<number>e` whose value lies in `lo ..= hi`.
pub open spec fn parse_integer(s: Seq<u8>, p: int, lo: int, hi: int) -> Result<
    (int, int),
    (DecodeFailure, int),
> {
    match expect_byte(s, p, INT_START) {
        Err(e) => Err(e),
        Ok(q) => match parse_number(s, q, lo, hi) {
            Err(e) => Err(e),
            Ok((v, r)) => match expect_byte(s, r, END) {
                Err(e) => Err(e),
                Ok(t) => Ok((v, t)),
            },
        },
    }
}

/// Reads a byte string `<length>:<bytes>`.
pub open spec fn parse_byte_string(s: Seq<u8>, p: int) -> Result<(Seq<u8>, int), (DecodeFailure, int)> {
    match parse_number(s, p, 0, usize::MAX as int) {
        Err(e) => Err(e),
        Ok((n, q)) => match expect_byte(s, q, COLON) {
            Err(e) => Err(e),
            Ok(r) => if s.len() - r < n {
                Err((DecodeFailure::Eof, r))
            } else {
                Ok((s.subrange(r, r + n), r + n))
            },
        },
    }
}

/// Reads a byte string that must hold UTF-8.
pub open spec fn parse_str(s: Seq<u8>, p: int) -> Result<(Seq<char>, int), (DecodeFailure, int)> {
    match parse_byte_string(s, p) {
        Err(e) => Err(e),
        Ok((b, q)) => if valid_utf8(b) {
            Ok((decode_utf8(b), q))
        } else {
            Err((DecodeFailure::InvalidUtf8, q))
        },
    }
}

/// Lexicographic order on byte sequences.
pub open spec fn bytes_lt(a: Seq<u8>, b: Seq<u8>) -> bool
    decreases a.len(),
{
    if a.len() == 0 {
        b.len() > 0
    } else if b.len() == 0 {
        false
    } else if a[0] != b[0] {
        a[0] < b[0]
    } else {
        bytes_lt(a.drop_first(), b.drop_first())
    }
}

/// The order of strings: that of their UTF-8 bytes.
pub open spec fn str_lt(a: Seq<char>, b: Seq<char>) -> bool {
    bytes_lt(encode_utf8(a), encode_utf8(b))
}

/// Inserts a key into a dictionary kept in key order: a present key has its
/// value replaced, a new key goes before the first greater key.
pub open spec fn dict_insert<V>(d: Seq<(Seq<char>, V)>, k: Seq<char>, v: V) -> Seq<(Seq<char>, V)>
    decreases d.len(),
{
    if d.len() == 0 {
        seq![(k, v)]
    } else if d[0].0 == k {
        seq![(k, v)] + d.drop_first()
    } else if str_lt(k, d[0].0) {
        seq![(k, v)] + d
    } else {
        seq![d[0]] + dict_insert(d.drop_first(), k, v)
    }
}

/// The value of the first entry with key `k`.
pub open spec fn dict_lookup<V>(d: Seq<(Seq<char>, V)>, k: Seq<char>) -> Option<V>
    decreases d.len(),
{
    if d.len() == 0 {
        None
    } else if d[0].0 == k {
        Some(d[0].1)
    } else {
        dict_lookup(d.drop_first(), k)
    }
}

/// The keys of a dictionary are strictly increasing.
pub open spec fn keys_sorted<V>(d: Seq<(Seq<char>, V)>) -> bool {
    forall|i: int, j: int| 0 <= i < j < d.len() ==> str_lt(#[trigger] d[i].0, #[trigger] d[j].0)
}

/// Reads any value.
pub open spec fn parse_value(s: Seq<u8>, p: int) -> Result<(BValue, int), (DecodeFailure, int)>
    decreases s.len() - p, 0int,
{
    if p < 0 || p >= s.len() {
        Err((DecodeFailure::Eof, p))
    } else if s[p] == DICT_START {
        match parse_dict_entries(s, p + 1, seq![]) {
            Err(e) => Err(e),
            Ok((d, q)) => Ok((BValue::Dict(d), q)),
        }
    } else if s[p] == LIST_START {
        match parse_list_items(s, p + 1) {
            Err(e) => Err(e),
            Ok((l, q)) => Ok((BValue::List(l), q)),
        }
    } else if s[p] == INT_START {
        match parse_integer(s, p, i64::MIN as int, i64::MAX as int) {
            Err(e) => Err(e),
            Ok((v, q)) => Ok((BValue::Int(v), q)),
        }
    } else if is_digit(s[p]) {
        match parse_byte_string(s, p) {
            Err(e) => Err(e),
            Ok((b, q)) => if valid_utf8(b) {
                Ok((BValue::Str(decode_utf8(b)), q))
            } else {
                Ok((BValue::Bytes(b), q))
            },
        }
    } else {
        Err((DecodeFailure::InvalidByte(s[p]), p))
    }
}

/// Reads values up to the closing `e` of a list.
pub open spec fn parse_list_items(s: Seq<u8>, p: int) -> Result<
    (Seq<BValue>, int),
    (DecodeFailure, int),
>
    decreases s.len() - p, 1int,
{
    if p < 0 || p >= s.len() {
        Err((DecodeFailure::Eof, p))
    } else if s[p] == END {
        Ok((seq![], p + 1))
    } else {
        match parse_value(s, p) {
            Err(e) => Err(e),
            Ok((v, q)) => if p < q <= s.len() {
                match parse_list_items(s, q) {
                    Err(e) => Err(e),
                    Ok((l, r)) => Ok((seq![v] + l, r)),
                }
            } else {
                Err((DecodeFailure::Eof, q))
            },
        }
    }
}

/// Reads key and value pairs up to the closing `e` of a dictionary, after
/// the entries `acc`; each key must be greater than the one before it, or
/// the dictionary is invalid.
pub open spec fn parse_dict_entries(s: Seq<u8>, p: int, acc: Seq<(Seq<char>, BValue)>) -> Result<
    (Seq<(Seq<char>, BValue)>, int),
    (DecodeFailure, int),
>
    decreases s.len() - p, 1int,
{
    if p < 0 || p >= s.len() {
        Err((DecodeFailure::Eof, p))
    } else if s[p] == END {
        Ok((acc, p + 1))
    } else {
        match parse_str(s, p) {
            Err(e) => Err(e),
            Ok((k, q)) => if p < q <= s.len() {
                if acc.len() > 0 && !str_lt(acc.last().0, k) {
                    Err((DecodeFailure::InvalidDict, q))
                } else {
                    match parse_value(s, q) {
                        Err(e) => Err(e),
                        Ok((v, r)) => if q < r <= s.len() {
                            parse_dict_entries(s, r, acc.push((k, v)))
                        } else {
                            Err((DecodeFailure::Eof, r))
                        },
                    }
                }
            } else {
                Err((DecodeFailure::Eof, q))
            },
        }
    }
}

/// Skips any value without building it.
pub open spec fn skip_value(s: Seq<u8>, p: int) -> Result<int, (DecodeFailure, int)>
    decreases s.len() - p, 0int,
{
    if p < 0 || p >= s.len() {
        Err((DecodeFailure::Eof, p))
    } else if s[p] == DICT_START {
        skip_pairs(s, p + 1)
    } else if s[p] == LIST_START {
        skip_items(s, p + 1)
    } else if s[p] == INT_START {
        let q = number_run_end(s, p + 1);
        if q >= s.len() {
            Err((DecodeFailure::Eof, q))
        } else {
            expect_byte(s, q, END)
        }
    } else if is_digit(s[p]) {
        match parse_number(s, p, 0, usize::MAX as int) {
            Err(e) => Err(e),
            Ok((n, q)) => match expect_byte(s, q, COLON) {
                Err(e) => Err(e),
                Ok(r) => if s.len() - r < n {
                    Err((DecodeFailure::Eof, r))
                } else {
                    Ok(r + n)
                },
            },
        }
    } else {
        Err((DecodeFailure::InvalidByte(s[p]), p))
    }
}

/// Skips values up to and including the closing `e`.
pub open spec fn skip_items(s: Seq<u8>, p: int) -> Result<int, (DecodeFailure, int)>
    decreases s.len() - p, 1int,
{
    if p < 0 || p >= s.len() {
        Err((DecodeFailure::Eof, p))
    } else if s[p] == END {
        Ok(p + 1)
    } else {
        match skip_value(s, p) {
            Err(e) => Err(e),
            Ok(q) => if p < q <= s.len() {
                skip_items(s, q)
            } else {
                Err((DecodeFailure::Eof, q))
            },
        }
    }
}

/// Skips pairs of values up to and including the closing `e`.
pub open spec fn skip_pairs(s: Seq<u8>, p: int) -> Result<int, (DecodeFailure, int)>
    decreases s.len() - p, 1int,
{
    if p < 0 || p >= s.len() {
        Err((DecodeFailure::Eof, p))
    } else if s[p] == END {
        Ok(p + 1)
    } else {
        match skip_value(s, p) {
            Err(e) => Err(e),
            Ok(q) => if p < q <= s.len() {
                match skip_value(s, q) {
                    Err(e) => Err(e),
                    Ok(r) => if q < r <= s.len() {
                        skip_pairs(s, r)
                    } else {
                        Err((DecodeFailure::Eof, r))
                    },
                }
            } else {
                Err((DecodeFailure::Eof, q))
            },
        }
    }
}

/// The decimal digits of `n`, with no leading zero.
pub open spec fn decimal(n: nat) -> Seq<u8>
    decreases n,
{
    if n < 10 {
        seq![(ZERO + n) as u8]
    } else {
        decimal(n / 10).push((ZERO + n % 10) as u8)
    }
}

/// The text of an integer: an optional minus sign, then its digits.
pub open spec fn int_text(i: int) -> Seq<u8> {
    if i < 0 {
        seq![MINUS] + decimal((-i) as nat)
    } else {
        decimal(i as nat)
    }
}

/// A byte string: its length, a colon, its bytes.
pub open spec fn byte_string_text(b: Seq<u8>) -> Seq<u8> {
    int_text(b.len() as int) + seq![COLON] + b
}

/// The encoding of a value.
pub open spec fn encode_value(v: BValue) -> Seq<u8>
    decreases v,
{
    match v {
        BValue::Int(i) => seq![INT_START] + int_text(i) + seq![END],
        BValue::Bytes(b) => byte_string_text(b),
        BValue::Str(cs) => byte_string_text(encode_utf8(cs)),
        BValue::List(l) => seq![LIST_START] + encode_items(l) + seq![END],
        BValue::Dict(d) => seq![DICT_START] + encode_entries(d) + seq![END],
    }
}

/// The encodings of list items, one after the other.
pub open spec fn encode_items(l: Seq<BValue>) -> Seq<u8>
    decreases l,
{
    if l.len() == 0 {
        seq![]
    } else {
        encode_value(l[0]) + encode_items(l.drop_first())
    }
}

/// The encodings of dictionary entries: each key, then its value.
pub open spec fn encode_entries(d: Seq<(Seq<char>, BValue)>) -> Seq<u8>
    decreases d,
{
    if d.len() == 0 {
        seq![]
    } else {
        byte_string_text(encode_utf8(d[0].0)) + encode_value(d[0].1) + encode_entries(d.drop_first())
    }
}

/// A value that decoding gives back unchanged after encoding: integers fit in
/// `i64`, byte strings are not UTF-8 (those read back as strings), lengths
/// fit in `usize`, and dictionary keys are strictly increasing.
pub open spec fn wf_value(v: BValue) -> bool
    decreases v,
{
    match v {
        BValue::Int(i) => i64::MIN <= i <= i64::MAX,
        BValue::Bytes(b) => !valid_utf8(b) && b.len() <= usize::MAX,
        BValue::Str(cs) => encode_utf8(cs).len() <= usize::MAX,
        BValue::List(l) => wf_items(l),
        BValue::Dict(d) => keys_sorted(d) && wf_entries(d),
    }
}

pub open spec fn wf_items(l: Seq<BValue>) -> bool
    decreases l,
{
    l.len() > 0 ==> wf_value(l[0]) && wf_items(l.drop_first())
}

pub open spec fn wf_entries(d: Seq<(Seq<char>, BValue)>) -> bool
    decreases d,
{
    d.len() > 0 ==> encode_utf8(d[0].0).len() <= usize::MAX && wf_value(d[0].1) && wf_entries(
        d.drop_first(),
    )
}

/// Where a run of number bytes ends.
pub proof fn lemma_number_run_end(s: Seq<u8>, p: int, q: int)
    requires
        0 <= p <= q <= s.len(),
        forall|i: int| p <= i < q ==> is_number_byte(#[trigger] s[i]),
        q == s.len() || !is_number_byte(s[q]),
    ensures
        number_run_end(s, p) == q,
    decreases q - p,
{
    if p < q {
        lemma_number_run_end(s, p + 1, q);
    }
}

} // verus!
