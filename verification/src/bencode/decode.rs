use crate::bencode::grammar::{
    all_digits, bytes_lt, dict_insert, digits_value, expect_byte, is_digit, is_number_byte,
    lemma_number_run_end, number_run_end, number_token_value, parse_byte_string, parse_integer, parse_number, parse_str, skip_items, skip_pairs,
    skip_value, str_lt, BValue, DecodeFailure, COLON, DICT_START, END, INT_START, LIST_START, MINUS,
    NINE, ZERO,
};
use crate::bencode::hash::{sha1_chunks, Sha1};
use crate::bencode::Integer;
use vstd::prelude::*;
use vstd::pervasive::VecAdditionalExecFns;
use vstd::utf8::*;

verus! {

/// Reads bencoded data from a byte slice, keeping a position in it.
pub struct Decoder<'a> {
    data: &'a [u8],
    pos: usize,
}

/// Represents an error in a decoding operation.
#[derive(Clone, Debug, PartialEq, Eq)]
pub enum DecodeError {
    /// End of bytes reached before expected
    Eof,
    /// Extraneous data at the end of the stream
    ExtraneousData,
    /// Unexpected byte
    InvalidByte(u8),
    /// Duplicate or out-of-order key in a dict
    InvalidDict,
    /// Invalid formatted number
    InvalidNumber,
    /// Invalid UTF-8 in a string
    InvalidUtf8,
    /// Field not found while decoding `struct`
    MissingField(String),
    /// Unexpected byte encountered
    UnexpectedByte {
        /// Byte expected
        expected: u8,
        /// Byte found
        found: u8,
    },
}

impl View for DecodeError {
    type V = DecodeFailure;

    open spec fn view(&self) -> DecodeFailure {
        match self {
            DecodeError::Eof => DecodeFailure::Eof,
            DecodeError::ExtraneousData => DecodeFailure::ExtraneousData,
            DecodeError::InvalidByte(b) => DecodeFailure::InvalidByte(*b),
            DecodeError::InvalidDict => DecodeFailure::InvalidDict,
            DecodeError::InvalidNumber => DecodeFailure::InvalidNumber,
            DecodeError::InvalidUtf8 => DecodeFailure::InvalidUtf8,
            DecodeError::MissingField(s) => DecodeFailure::MissingField(s@),
            DecodeError::UnexpectedByte { expected, found } => DecodeFailure::UnexpectedByte(
                *expected,
                *found,
            ),
        }
    }
}

/// A decoding result `r`, with the decoder left at `end`, is the one that the
/// format prescribes.
pub open spec fn decoded<T: DeepView>(
    r: Result<T, DecodeError>,
    end: int,
    expected: Result<(T::V, int), (DecodeFailure, int)>,
) -> bool {
    match r {
        Ok(v) => expected == Ok::<(T::V, int), (DecodeFailure, int)>((v.deep_view(), end)),
        Err(e) => expected == Err::<(T::V, int), (DecodeFailure, int)>((e@, end)),
    }
}

/// The same for operations that only move the decoder.
pub open spec fn advanced(
    r: Result<(), DecodeError>,
    end: int,
    expected: Result<int, (DecodeFailure, int)>,
) -> bool {
    match r {
        Ok(_) => expected == Ok::<int, (DecodeFailure, int)>(end),
        Err(e) => expected == Err::<int, (DecodeFailure, int)>((e@, end)),
    }
}

/// A type that can be read from bencoded data.
pub trait DecodeTo: Sized + DeepView {
    /// What reading a value of this type at position `p` of `s` gives.
    spec fn spec_decode(s: Seq<u8>, p: int) -> Result<(Self::V, int), (DecodeFailure, int)>;

    fn decode(d: &mut Decoder<'_>) -> (r: Result<Self, DecodeError>)
        ensures
            final(d).input() == old(d).input(),
            old(d).at() <= final(d).at() <= final(d).input().len(),
            decoded(r, final(d).at(), Self::spec_decode(old(d).input(), old(d).at())),
            r is Ok ==> final(d).at() > old(d).at(),
    ;
}

/// A type read from the entries of a dictionary, after its `d`; the decoder
/// skips the entries that it leaves and the closing `e`.
pub trait DecodeFields: Sized + DeepView {
    spec fn spec_fields(s: Seq<u8>, p: int) -> Result<(Self::V, int), (DecodeFailure, int)>;

    fn decode_fields(d: &mut Decoder<'_>) -> (r: Result<Self, DecodeError>)
        ensures
            final(d).input() == old(d).input(),
            old(d).at() <= final(d).at() <= final(d).input().len(),
            decoded(r, final(d).at(), Self::spec_fields(old(d).input(), old(d).at())),
    ;
}

/// A byte predicate that gives one answer for each byte.
pub open spec fn deterministic<P: Fn(u8) -> bool>(pred: P) -> bool {
    forall|b: u8, x: bool, y: bool|
        #![trigger pred.ensures((b,), x), pred.ensures((b,), y)]
        pred.ensures((b,), x) && pred.ensures((b,), y) ==> x == y
}

/// A run of bytes from `p` that `pred` accepts stops at `q`: every byte
/// before `q` is accepted, and the byte at `q`, when there is one, is not.
pub open spec fn run_stops_at<P: Fn(u8) -> bool>(s: Seq<u8>, p: int, q: int, pred: P) -> bool {
    &&& p <= q <= s.len()
    &&& forall|i: int| p <= i < q ==> pred.ensures((#[trigger] s[i],), true)
    &&& q < s.len() ==> pred.ensures((s[q],), false)
}

/// `read_while` and `skip_while`, started at the same place with the same
/// predicate that gives one answer per byte, stop at the same place: so
/// both succeed or both fail with `Eof`, and what `read_while` returns
/// are the bytes that `skip_while` passes over.
pub proof fn lemma_read_skip_agree<P: Fn(u8) -> bool>(
    s: Seq<u8>,
    p: int,
    q_read: int,
    q_skip: int,
    pred: P,
)
    requires
        deterministic(pred),
        run_stops_at(s, p, q_read, pred),
        run_stops_at(s, p, q_skip, pred),
    ensures
        q_read == q_skip,
{
    if q_read < q_skip {
        assert(pred.ensures((s[q_read],), true));
        assert(pred.ensures((s[q_read],), false));
    } else if q_skip < q_read {
        assert(pred.ensures((s[q_skip],), true));
        assert(pred.ensures((s[q_skip],), false));
    }
}

/// Reads values of type `T` up to the closing `e` of a list.
pub open spec fn items_of<T: DecodeTo>(s: Seq<u8>, p: int) -> Result<
    (Seq<T::V>, int),
    (DecodeFailure, int),
>
    decreases s.len() - p,
{
    if p < 0 || p >= s.len() {
        Err((DecodeFailure::Eof, p))
    } else if s[p] == END {
        Ok((seq![], p + 1))
    } else {
        match T::spec_decode(s, p) {
            Err(e) => Err(e),
            Ok((v, q)) => if p < q <= s.len() {
                match items_of::<T>(s, q) {
                    Err(e) => Err(e),
                    Ok((l, r)) => Ok((seq![v] + l, r)),
                }
            } else {
                Err((DecodeFailure::Eof, q))
            },
        }
    }
}

/// Reads a list of values of type `T`.
pub open spec fn list_of<T: DecodeTo>(s: Seq<u8>, p: int) -> Result<
    (Seq<T::V>, int),
    (DecodeFailure, int),
> {
    match expect_byte(s, p, LIST_START) {
        Err(e) => Err(e),
        Ok(q) => items_of::<T>(s, q),
    }
}

/// Reads dictionary entries with values of type `T` up to the closing `e`,
/// after the entries `acc`; each key must be greater than the one before.
pub open spec fn entries_of<T: DecodeTo>(s: Seq<u8>, p: int, acc: Seq<(Seq<char>, T::V)>) -> Result<
    (Seq<(Seq<char>, T::V)>, int),
    (DecodeFailure, int),
>
    decreases s.len() - p,
{
    if p < 0 || p >= s.len() {
        Err((DecodeFailure::Eof, p))
    } else if s[p] == END {
        Ok((acc, p + 1))
    } else {
        match parse_str(s, p) {
            Err(e) => Err(e),
            Ok((k, q)) => if p < q <= s.len() {
                if acc.len() > 0 && !str_lt(acc.last().0, k) {
                    Err((DecodeFailure::InvalidDict, q))
                } else {
                    match T::spec_decode(s, q) {
                        Err(e) => Err(e),
                        Ok((v, r)) => if q < r <= s.len() {
                            entries_of::<T>(s, r, acc.push((k, v)))
                        } else {
                            Err((DecodeFailure::Eof, r))
                        },
                    }
                }
            } else {
                Err((DecodeFailure::Eof, q))
            },
        }
    }
}

/// Reads a dictionary with values of type `T`.
pub open spec fn dict_of<T: DecodeTo>(s: Seq<u8>, p: int) -> Result<
    (Seq<(Seq<char>, T::V)>, int),
    (DecodeFailure, int),
> {
    match expect_byte(s, p, DICT_START) {
        Err(e) => Err(e),
        Ok(q) => entries_of::<T>(s, q, seq![]),
    }
}

/// Reads a dictionary as a `struct`.
pub open spec fn struct_of<T: DecodeFields>(s: Seq<u8>, p: int) -> Result<
    (T::V, int),
    (DecodeFailure, int),
> {
    match expect_byte(s, p, DICT_START) {
        Err(e) => Err(e),
        Ok(q) => match T::spec_fields(s, q) {
            Err(e) => Err(e),
            Ok((v, r)) => match skip_pairs(s, r) {
                Err(e) => Err(e),
                Ok(t) => Ok((v, t)),
            },
        },
    }
}

/// Looks for the field `name` among the entries from `p` on; keys are taken
/// to come in order, so the search stops at the first greater key.  When the
/// field is missing, the decoder goes back to `start`.
pub open spec fn field_of<T: DecodeTo>(s: Seq<u8>, p: int, start: int, name: Seq<char>) -> Result<
    (T::V, int),
    (DecodeFailure, int),
>
    decreases s.len() - p,
{
    if p < 0 || p >= s.len() {
        Err((DecodeFailure::Eof, p))
    } else if s[p] == END {
        Err((DecodeFailure::MissingField(name), start))
    } else {
        match parse_str(s, p) {
            Err(e) => Err(e),
            Ok((k, q)) => if k == name {
                T::spec_decode(s, q)
            } else if str_lt(k, name) {
                match skip_value(s, q) {
                    Err(e) => Err(e),
                    Ok(r) => if p < r <= s.len() {
                        field_of::<T>(s, r, start, name)
                    } else {
                        Err((DecodeFailure::Eof, r))
                    },
                }
            } else {
                Err((DecodeFailure::MissingField(name), start))
            },
        }
    }
}

/// What the last field search has kept when it stops.
pub open spec fn last_found<V>(saved: int, found: Option<Result<V, DecodeFailure>>, name: Seq<char>) -> Result<
    (V, int),
    (DecodeFailure, int),
> {
    match found {
        Some(Ok(v)) => Ok((v, saved)),
        Some(Err(e)) => Err((e, saved)),
        None => Err((DecodeFailure::MissingField(name), saved)),
    }
}

/// Looks for the last of the fields `name`: every match is read, and the
/// search goes on from where the read left off.
pub open spec fn last_field_of<T: DecodeTo>(
    s: Seq<u8>,
    p: int,
    saved: int,
    found: Option<Result<T::V, DecodeFailure>>,
    name: Seq<char>,
) -> Result<(T::V, int), (DecodeFailure, int)>
    decreases s.len() - p,
{
    if p < 0 || p >= s.len() {
        Err((DecodeFailure::Eof, p))
    } else if s[p] == END {
        last_found(saved, found, name)
    } else {
        match parse_str(s, p) {
            Err(e) => Err(e),
            Ok((k, q)) => if k == name {
                match T::spec_decode(s, q) {
                    Ok((v, r)) => if p < r <= s.len() {
                        last_field_of::<T>(s, r, r, Some(Ok(v)), name)
                    } else {
                        Err((DecodeFailure::Eof, r))
                    },
                    Err((e, r)) => if p < r <= s.len() {
                        last_field_of::<T>(s, r, r, Some(Err(e)), name)
                    } else {
                        Err((DecodeFailure::Eof, r))
                    },
                }
            } else if str_lt(k, name) {
                match skip_value(s, q) {
                    Err(e) => Err(e),
                    Ok(r) => if p < r <= s.len() {
                        last_field_of::<T>(s, r, saved, found, name)
                    } else {
                        Err((DecodeFailure::Eof, r))
                    },
                }
            } else {
                last_found(saved, found, name)
            },
        }
    }
}

/// Gathers the items of every list field `name`.
pub open spec fn combined_field_of<T: DecodeTo>(
    s: Seq<u8>,
    p: int,
    saved: int,
    acc: Seq<T::V>,
    name: Seq<char>,
) -> Result<(Option<Seq<T::V>>, int), (DecodeFailure, int)>
    decreases s.len() - p,
{
    let stop = if acc.len() == 0 {
        Err((DecodeFailure::MissingField(name), saved))
    } else {
        Ok((Some(acc), saved))
    };
    if p < 0 || p >= s.len() {
        Err((DecodeFailure::Eof, p))
    } else if s[p] == END {
        stop
    } else {
        match parse_str(s, p) {
            Err(e) => Err(e),
            Ok((k, q)) => if k == name {
                match list_of::<T>(s, q) {
                    Err(e) => Err(e),
                    Ok((l, r)) => if p < r <= s.len() {
                        combined_field_of::<T>(s, r, r, acc + l, name)
                    } else {
                        Err((DecodeFailure::Eof, r))
                    },
                }
            } else if str_lt(k, name) {
                match skip_value(s, q) {
                    Err(e) => Err(e),
                    Ok(r) => if p < r <= s.len() {
                        combined_field_of::<T>(s, r, saved, acc, name)
                    } else {
                        Err((DecodeFailure::Eof, r))
                    },
                }
            } else {
                stop
            },
        }
    }
}

/// Reads an optional field: a missing field is `None`.
pub open spec fn option_of<T: DecodeTo>(s: Seq<u8>, p: int, name: Seq<char>) -> Result<
    (Option<T::V>, int),
    (DecodeFailure, int),
> {
    match field_of::<T>(s, p, p, name) {
        Ok((v, q)) => Ok((Some(v), q)),
        Err((DecodeFailure::MissingField(_), q)) => Ok((None, q)),
        Err(e) => Err(e),
    }
}

/// Reading one byte.
pub open spec fn read_byte_at(s: Seq<u8>, p: int) -> Result<(u8, int), (DecodeFailure, int)> {
    if p >= s.len() {
        Err((DecodeFailure::Eof, p))
    } else {
        Ok((s[p], p + 1))
    }
}

/// Returns whether the given byte may appear in a number.
pub fn is_number(b: u8) -> (r: bool)
    ensures
        r == is_number_byte(b),
{
    b == MINUS || (ZERO <= b && b <= NINE)
}

proof fn lemma_digits_value_prefix(t: Seq<u8>, k: int)
    requires
        0 <= k <= t.len(),
    ensures
        digits_value(t.subrange(0, k)) <= digits_value(t),
    decreases t.len(),
{
    if k < t.len() {
        assert(t.drop_last().subrange(0, k) =~= t.subrange(0, k));
        lemma_digits_value_prefix(t.drop_last(), k);
    } else {
        assert(t.subrange(0, k) =~= t);
    }
}

/// A malformed token reads as no number.
proof fn lemma_token_not_digit(t: Seq<u8>, start: int, k: int)
    requires
        t.len() > 0,
        start == (if t[0] == MINUS { 1int } else { 0int }),
        start <= k < t.len(),
        !is_digit(t[k]),
    ensures
        number_token_value(t) is None,
{
    if t[0] == MINUS {
        assert(t.drop_first()[k - 1] == t[k]);
    }
}

/// A token whose digits are worth more than 2^64 lies outside every integer
/// type.
proof fn lemma_token_too_big(t: Seq<u8>, start: int, i: int)
    requires
        t.len() > 0,
        start == (if t[0] == MINUS { 1int } else { 0int }),
        start <= i <= t.len(),
        digits_value(t.subrange(start, i)) > 0x1_0000_0000_0000_0000,
    ensures
        number_token_value(t) is None || number_token_value(t).unwrap() > u64::MAX
            || number_token_value(t).unwrap() < i64::MIN,
{
    let digits = t.subrange(start, t.len() as int);
    assert(digits.subrange(0, i - start) =~= t.subrange(start, i));
    lemma_digits_value_prefix(digits, i - start);
    if t[0] == MINUS {
        assert(digits =~= t.drop_first());
    } else {
        assert(digits =~= t);
    }
}

/// `String::from_utf8`: the bytes become a `String` exactly when they are
/// valid UTF-8, and then the string holds the characters they encode;
/// otherwise the bytes come back unchanged.
#[verifier::external_body]
pub(crate) fn string_from_utf8(bytes: Vec<u8>) -> (r: Result<String, Vec<u8>>)
    ensures
        match r {
            Ok(s) => valid_utf8(bytes@) && s@ == decode_utf8(bytes@),
            Err(b) => !valid_utf8(bytes@) && b@ == bytes@,
        },
{
    match String::from_utf8(bytes) {
        Ok(s) => Ok(s),
        Err(e) => Err(e.into_bytes()),
    }
}

/// The UTF-8 bytes of a string.
pub fn str_bytes(s: &str) -> (r: &[u8])
    ensures
        r@ == encode_utf8(s@),
{
    s.as_bytes()
}

/// Compares two byte strings lexicographically.
pub fn bytes_less(a: &[u8], b: &[u8]) -> (r: bool)
    ensures
        r == bytes_lt(a@, b@),
{
    let mut i: usize = 0;
    assert(a@.skip(0) =~= a@ && b@.skip(0) =~= b@);
    while i < a.len() && i < b.len()
        invariant
            i <= a@.len(),
            i <= b@.len(),
            bytes_lt(a@, b@) == bytes_lt(a@.skip(i as int), b@.skip(i as int)),
        decreases a@.len() - i,
    {
        if a[i] != b[i] {
            assert(a@.skip(i as int)[0] == a@[i as int]);
            assert(b@.skip(i as int)[0] == b@[i as int]);
            return a[i] < b[i];
        }
        assert(a@.skip(i as int).drop_first() =~= a@.skip(i + 1));
        assert(b@.skip(i as int).drop_first() =~= b@.skip(i + 1));
        i = i + 1;
    }
    i == a.len() && i < b.len()
}

/// Compares two strings by their UTF-8 bytes, as `str` does.
pub fn str_less(a: &str, b: &str) -> (r: bool)
    ensures
        r == str_lt(a@, b@),
{
    bytes_less(str_bytes(a), str_bytes(b))
}

/// Compares two strings for equality.
pub fn str_equal(a: &str, b: &str) -> (r: bool)
    ensures
        r == (a@ == b@),
{
    let x = str_bytes(a);
    let y = str_bytes(b);
    let mut same = x.len() == y.len();
    let mut i: usize = 0;
    while same && i < x.len()
        invariant
            same ==> x@.len() == y@.len(),
            i <= x@.len(),
            same ==> forall|j: int| 0 <= j < i ==> x@[j] == y@[j],
            !same ==> x@ != y@,
        decreases x@.len() - i,
    {
        if x[i] != y[i] {
            same = false;
        }
        i = i + 1;
    }
    proof {
        if same {
            assert(x@ =~= y@);
        }
        vstd::utf8::encode_utf8_decode_utf8(a@);
        vstd::utf8::encode_utf8_decode_utf8(b@);
    }
    same
}

/// A result read after `acc` has been read: on success, `acc` comes first.
pub open spec fn prefixed<V>(acc: Seq<V>, r: Result<(Seq<V>, int), (DecodeFailure, int)>) -> Result<
    (Seq<V>, int),
    (DecodeFailure, int),
> {
    match r {
        Ok((l, q)) => Ok((acc + l, q)),
        Err(e) => Err(e),
    }
}

/// Inserts `k` with `v` into a dictionary kept in key order, as `dict_insert`
/// says.
pub fn dict_insert_entry<T: DeepView>(d: &mut Vec<(String, T)>, k: String, v: T)
    ensures
        final(d).deep_view() == dict_insert(old(d).deep_view(), k@, v.deep_view()),
{
    let ghost orig = d.deep_view();
    let ghost kv = k@;
    let ghost vv = v.deep_view();
    let mut i: usize = 0;
    // 0: append, 1: replace entry i, 2: insert before entry i
    let mut mode: u8 = 0;
    assert(orig.take(0) =~= Seq::<(Seq<char>, T::V)>::empty() && orig.skip(0) =~= orig);
    loop
        invariant_except_break
            mode == 0,
        invariant
            i <= d@.len(),
            d.deep_view() == orig,
            k@ == kv,
            v.deep_view() == vv,
            dict_insert(orig, kv, vv) == orig.take(i as int) + dict_insert(orig.skip(i as int), kv, vv),
        ensures
            i <= d@.len(),
            d.deep_view() == orig,
            k@ == kv,
            v.deep_view() == vv,
            dict_insert(orig, kv, vv) == orig.take(i as int) + dict_insert(orig.skip(i as int), kv, vv),
            mode == 0 ==> i == d@.len(),
            mode == 1 ==> i < d@.len() && orig[i as int].0 == kv,
            mode == 2 ==> i < d@.len() && orig[i as int].0 != kv && str_lt(kv, orig[i as int].0),
            mode <= 2,
        decreases d@.len() - i,
    {
        if i >= d.len() {
            break ;
        }
        let ghost rest = orig.skip(i as int);
        assert(rest[0] == orig[i as int]);
        assert(rest.drop_first() =~= orig.skip(i + 1));
        if str_equal(d[i].0.as_str(), k.as_str()) {
            mode = 1;
            break ;
        }
        if str_less(k.as_str(), d[i].0.as_str()) {
            mode = 2;
            break ;
        }
        assert(orig.take(i + 1) =~= orig.take(i as int) + seq![orig[i as int]]);
        i = i + 1;
    }
    let ghost rest = orig.skip(i as int);
    if mode == 1 {
        assert(rest.drop_first() =~= orig.skip(i + 1));
        d.set(i, (k, v));
        assert(d.deep_view() =~= orig.take(i as int) + (seq![(kv, vv)] + orig.skip(i + 1)));
    } else if mode == 2 {
        d.insert(i, (k, v));
        assert(d.deep_view() =~= orig.take(i as int) + (seq![(kv, vv)] + orig.skip(i as int)));
    } else {
        assert(orig.skip(i as int) =~= Seq::<(Seq<char>, T::V)>::empty());
        assert(orig.take(i as int) =~= orig);
        d.push((k, v));
        assert(d.deep_view() =~= orig + seq![(kv, vv)]);
    }
}

proof fn lemma_prefixed_push<V>(acc: Seq<V>, v: V, r: Result<(Seq<V>, int), (DecodeFailure, int)>)
    ensures
        prefixed(acc, prefixed(seq![v], r)) == prefixed(acc.push(v), r),
{
    match r {
        Ok((l, q)) => {
            assert(acc + (seq![v] + l) =~= acc.push(v) + l);
        },
        Err(_) => {},
    }
}

/// The model of what the last field search has kept.
pub open spec fn found_view<T: DeepView>(found: Option<Result<T, DecodeError>>) -> Option<
    Result<T::V, DecodeFailure>,
> {
    match found {
        Some(Ok(v)) => Some(Ok(v.deep_view())),
        Some(Err(e)) => Some(Err(e@)),
        None => None,
    }
}

impl<'a> Decoder<'a> {
    #[verifier::type_invariant]
    spec fn inv(self) -> bool {
        self.pos <= self.data@.len()
    }

    /// The bytes being decoded.
    pub closed spec fn input(&self) -> Seq<u8> {
        self.data@
    }

    /// The position of the next byte to read.
    pub closed spec fn at(&self) -> int {
        self.pos as int
    }

    /// Positions are never negative.
    pub proof fn lemma_at_nonneg(&self)
        ensures
            0 <= self.at(),
    {
    }

    pub fn new(data: &'a [u8]) -> (d: Decoder<'a>)
        ensures
            d.input() == data@,
            d.at() == 0,
    {
        Decoder { data, pos: 0 }
    }

    /// Returns the position of the next byte to read.
    pub fn position(&self) -> (r: usize)
        ensures
            r == self.at(),
            r <= self.input().len(),
    {
        proof {
            use_type_invariant(self);
        }
        self.pos
    }

    /// Moves the decoder back to an earlier position.
    fn set_position(&mut self, pos: usize)
        requires
            pos <= old(self).input().len(),
        ensures
            final(self).input() == old(self).input(),
            final(self).at() == pos,
    {
        self.pos = pos;
    }

    /// Returns the number of bytes remaining in the stream.
    pub fn remaining(&self) -> (r: usize)
        ensures
            r == self.input().len() - self.at(),
    {
        proof {
            use_type_invariant(self);
        }
        self.data.len() - self.pos
    }

    /// Returns an error if there is data remaining in the stream.
    pub fn finish(self) -> (r: Result<(), DecodeError>)
        ensures
            r is Ok <==> self.at() == self.input().len(),
            r matches Err(e) ==> e@ == DecodeFailure::ExtraneousData,
    {
        if self.remaining() == 0 {
            Ok(())
        } else {
            Err(DecodeError::ExtraneousData)
        }
    }

    /// Returns an error if the next byte is not `byte`.
    pub fn expect(&mut self, byte: u8) -> (r: Result<(), DecodeError>)
        ensures
            final(self).input() == old(self).input(),
            old(self).at() <= final(self).at() <= final(self).input().len(),
            advanced(r, final(self).at(), expect_byte(old(self).input(), old(self).at(), byte)),
    {
        let b = self.read_byte()?;
        if b == byte {
            Ok(())
        } else {
            Err(DecodeError::UnexpectedByte { expected: byte, found: b })
        }
    }

    /// Reads a series of bytes from the stream equal to `buf.len()`.
    /// If fewer bytes are available to read, an error is returned.
    pub fn read(&mut self, buf: &mut [u8]) -> (r: Result<(), DecodeError>)
        ensures
            final(self).input() == old(self).input(),
            final(buf)@.len() == old(buf)@.len(),
            ({
                let n = if old(buf)@.len() <= old(self).input().len() - old(self).at() {
                    old(buf)@.len() as int
                } else {
                    old(self).input().len() - old(self).at()
                };
                &&& final(self).at() == old(self).at() + n
                &&& final(buf)@ =~= old(self).input().subrange(old(self).at(), old(self).at() + n)
                    + old(buf)@.skip(n)
                &&& (r is Ok <==> n == old(buf)@.len())
                &&& (r matches Err(e) ==> e@ == DecodeFailure::Eof)
            }),
    {
        proof {
            use_type_invariant(&*self);
        }
        let ghost start = self.pos as int;
        let ghost orig = buf@;
        let n = if buf.len() <= self.data.len() - self.pos {
            buf.len()
        } else {
            self.data.len() - self.pos
        };
        let data = self.data;
        let base = self.pos;
        let len = data.len();
        let mut i: usize = 0;
        while i < n
            invariant
                i <= n,
                n <= buf@.len(),
                buf@.len() == orig.len(),
                base as int == start,
                len == data@.len(),
                start + n <= len,
                buf@ =~= data@.subrange(start, start + i) + orig.skip(i as int),
            decreases n - i,
        {
            buf[i] = data[base + i];
            i = i + 1;
        }
        self.pos = self.pos + n;
        if n == buf.len() {
            Ok(())
        } else {
            Err(DecodeError::Eof)
        }
    }

    /// Reads a single byte from the stream. If no bytes are available to read,
    /// an error is returned.
    pub fn read_byte(&mut self) -> (r: Result<u8, DecodeError>)
        ensures
            final(self).input() == old(self).input(),
            old(self).at() <= final(self).at() <= final(self).input().len(),
            decoded(r, final(self).at(), read_byte_at(old(self).input(), old(self).at())),
    {
        proof {
            use_type_invariant(&*self);
        }
        if self.pos < self.data.len() {
            let b = self.data[self.pos];
            self.pos = self.pos + 1;
            Ok(b)
        } else {
            Err(DecodeError::Eof)
        }
    }

    /// Returns a slice of bytes without advancing the cursor.
    /// If fewer than `n` bytes are available, an error is returned.
    pub fn peek_bytes(&self, n: usize) -> (r: Result<&[u8], DecodeError>)
        ensures
            match r {
                Ok(b) => self.at() + n <= self.input().len() && b@ == self.input().subrange(
                    self.at(),
                    self.at() + n,
                ),
                Err(e) => self.at() + n > self.input().len() && e@ == DecodeFailure::Eof,
            },
    {
        proof {
            use_type_invariant(self);
        }
        if self.data.len() - self.pos < n {
            Err(DecodeError::Eof)
        } else {
            Ok(vstd::slice::slice_subrange(self.data, self.pos, self.pos + n))
        }
    }

    /// Reads a single byte from the stream without advancing the cursor.
    pub fn peek_byte(&self) -> (r: Result<u8, DecodeError>)
        ensures
            match r {
                Ok(b) => self.at() < self.input().len() && b == self.input()[self.at()],
                Err(e) => self.at() >= self.input().len() && e@ == DecodeFailure::Eof,
            },
    {
        let byte = self.peek_bytes(1)?;
        Ok(byte[0])
    }

    /// Reads bytes from the stream until `predicate` returns `false`.
    pub fn read_while<P>(&mut self, predicate: P) -> (r: Result<Vec<u8>, DecodeError>)
        where
            P: Fn(u8) -> bool,
        requires
            forall|b: u8| predicate.requires((b,)),
        ensures
            run_stops_at(old(self).input(), old(self).at(), final(self).at(), predicate),
            final(self).input() == old(self).input(),
            old(self).at() <= final(self).at() <= final(self).input().len(),
            forall|i: int|
                old(self).at() <= i < final(self).at() ==> predicate.ensures(
                    (#[trigger] old(self).input()[i],),
                    true,
                ),
            match r {
                Ok(v) => final(self).at() < final(self).input().len() && predicate.ensures(
                    (old(self).input()[final(self).at()],),
                    false,
                ) && v@ == old(self).input().subrange(old(self).at(), final(self).at()),
                Err(e) => final(self).at() == final(self).input().len() && e@
                    == DecodeFailure::Eof,
            },
    {
        proof {
            use_type_invariant(&*self);
        }
        let ghost s = (*self).input();
        let ghost start = (*self).at();
        let mut res = Vec::new();
        loop
            invariant
                self.input() == s,
                self.data@ == s,
                0 <= start <= self.pos <= s.len(),
                forall|b: u8| predicate.requires((b,)),
                forall|i: int| start <= i < self.pos ==> predicate.ensures((#[trigger] s[i],), true),
                res@ == s.subrange(start, self.pos as int),
            ensures
                self.input() == s,
                start <= self.pos <= s.len(),
                forall|i: int| start <= i < self.pos ==> predicate.ensures((#[trigger] s[i],), true),
                res@ == s.subrange(start, self.pos as int),
                self.pos < s.len() ==> predicate.ensures((s[self.pos as int],), false),
            decreases s.len() - self.pos,
        {
            if self.pos >= self.data.len() {
                break ;
            }
            let b = self.data[self.pos];
            if !predicate(b) {
                break ;
            }
            let ghost before = res@;
            let ghost at = self.pos as int;
            assert(b == s[at]);
            assert(at < s.len());
            assert(start <= at);
            assert(0 <= start);
            res.push(b);
            assert(res@ == before.push(b));
            assert(s.subrange(start, at + 1) =~= s.subrange(start, at).push(s[at]));
            self.pos = self.pos + 1;
        }
        if self.pos >= self.data.len() {
            Err(DecodeError::Eof)
        } else {
            Ok(res)
        }
    }

    /// Reads a number from the stream.
    /// This does not include the `i` prefix and `e` suffix.
    pub fn read_number<T: Integer>(&mut self) -> (r: Result<T, DecodeError>)
        ensures
            final(self).input() == old(self).input(),
            old(self).at() <= final(self).at() <= final(self).input().len(),
            match parse_number(old(self).input(), old(self).at(), T::lower(), T::upper()) {
                Ok((v, q)) => r matches Ok(x) && x.int_value() == v && final(self).at() == q,
                Err((f, q)) => r matches Err(e) && e@ == f && final(self).at() == q,
            },
    {
        let ghost s = (*self).input();
        let ghost p = (*self).at();
        let res = self.read_while(is_number);
        proof {
            let q = self.at();
            if q < s.len() && res is Ok {
                assert(!is_number_byte(s[q]));
            }
            assert forall|i: int| p <= i < q implies is_number_byte(#[trigger] s[i]) by {
                assert(call_ensures(is_number, (s[i],), true));
            }
            lemma_number_run_end(s, p, q);
        }
        let buf = res?;
        let ghost t = buf@;
        proof {
            T::lemma_bounds();
        }
        if buf.len() == 0 || (buf.len() > 1 && buf[0] == ZERO) || (buf.len() == 2 && buf[0]
            == MINUS && buf[1] == ZERO) {
            assert(buf.len() == 2 && buf[0] == MINUS && buf[1] == ZERO ==> t =~= seq![
                MINUS,
                ZERO,
            ]);
            return Err(DecodeError::InvalidNumber);
        }
        assert(!(t =~= seq![MINUS, ZERO]));
        let negative = buf[0] == MINUS;
        let start: usize = if negative {
            1
        } else {
            0
        };
        if negative && buf.len() == 1 {
            return Err(DecodeError::InvalidNumber);
        }
        let ghost digits = t.subrange(start as int, t.len() as int);
        assert(negative ==> digits =~= t.drop_first());
        assert(!negative ==> digits =~= t);
        let limit: i128 = 0x1_0000_0000_0000_0000;
        let mut acc: i128 = 0;
        let mut i: usize = start;
        let mut valid = true;
        while i < buf.len()
            invariant_except_break
                valid,
            invariant
                limit == 0x1_0000_0000_0000_0000,
                acc <= limit,
                start <= i <= buf@.len(),
                buf@ == t,
                digits == t.subrange(start as int, t.len() as int),
                all_digits(t.subrange(start as int, i as int)),
                acc == digits_value(t.subrange(start as int, i as int)),
                t.len() > 0,
                !(t.len() > 1 && t[0] == ZERO),
                !(t =~= seq![MINUS, ZERO]),
                negative ==> t[0] == MINUS && t.len() > 1 && digits =~= t.drop_first(),
                !negative ==> t[0] != MINUS && digits =~= t,
                start == (if negative { 1usize } else { 0usize }),
            ensures
                valid ==> i == buf@.len() && acc <= limit,
                acc == digits_value(t.subrange(start as int, i as int)),
                all_digits(t.subrange(start as int, i as int)),
                !valid ==> number_token_value(t) is None || number_token_value(t).unwrap()
                    > u64::MAX || number_token_value(t).unwrap() < i64::MIN,
            decreases buf@.len() - i,
        {
            let c = buf[i];
            if c < ZERO || c > NINE {
                proof {
                    lemma_token_not_digit(t, start as int, i as int);
                }
                valid = false;
                break ;
            }
            assert(t.subrange(start as int, i + 1).drop_last() =~= t.subrange(
                start as int,
                i as int,
            ));
            assert(t.subrange(start as int, i + 1).last() == c);
            let next = acc * 10 + (c - ZERO) as i128;
            if next > limit {
                proof {
                    lemma_token_too_big(t, start as int, i + 1);
                }
                valid = false;
                break ;
            }
            acc = next;
            i = i + 1;
        }
        if !valid {
            return Err(DecodeError::InvalidNumber);
        }
        assert(t.subrange(start as int, i as int) =~= digits);
        let v = if negative {
            -acc
        } else {
            acc
        };
        if v < T::min_wide() || v > T::max_wide() {
            return Err(DecodeError::InvalidNumber);
        }
        Ok(T::from_wide(v))
    }

    /// Advance bytes in the stream until `predicate` returns `false`.
    pub fn skip_while<P>(&mut self, predicate: P) -> (r: Result<(), DecodeError>)
        where
            P: Fn(u8) -> bool,
        requires
            forall|b: u8| predicate.requires((b,)),
        ensures
            run_stops_at(old(self).input(), old(self).at(), final(self).at(), predicate),
            final(self).input() == old(self).input(),
            old(self).at() <= final(self).at() <= final(self).input().len(),
            forall|i: int|
                old(self).at() <= i < final(self).at() ==> predicate.ensures(
                    (#[trigger] old(self).input()[i],),
                    true,
                ),
            match r {
                Ok(_) => final(self).at() < final(self).input().len() && predicate.ensures(
                    (old(self).input()[final(self).at()],),
                    false,
                ),
                Err(e) => final(self).at() == final(self).input().len() && e@
                    == DecodeFailure::Eof,
            },
    {
        proof {
            use_type_invariant(&*self);
        }
        let ghost s = (*self).input();
        let ghost start = (*self).at();
        loop
            invariant
                self.input() == s,
                self.data@ == s,
                0 <= start <= self.pos <= s.len(),
                forall|b: u8| predicate.requires((b,)),
                forall|i: int| start <= i < self.pos ==> predicate.ensures((#[trigger] s[i],), true),
            ensures
                self.input() == s,
                start <= self.pos <= s.len(),
                forall|i: int| start <= i < self.pos ==> predicate.ensures((#[trigger] s[i],), true),
                self.pos < s.len() ==> predicate.ensures((s[self.pos as int],), false),
            decreases s.len() - self.pos,
        {
            if self.pos >= self.data.len() {
                break ;
            }
            let b = self.data[self.pos];
            if !predicate(b) {
                break ;
            }
            self.pos = self.pos + 1;
        }
        if self.pos >= self.data.len() {
            Err(DecodeError::Eof)
        } else {
            Ok(())
        }
    }

    /// Advances the cursor `n` bytes.
    pub fn skip(&mut self, n: usize) -> (r: Result<(), DecodeError>)
        ensures
            final(self).input() == old(self).input(),
            old(self).at() <= final(self).at() <= final(self).input().len(),
            if old(self).input().len() - old(self).at() < n {
                r matches Err(e) && e@ == DecodeFailure::Eof && final(self).at() == old(self).at()
            } else {
                r is Ok && final(self).at() == old(self).at() + n
            },
    {
        proof {
            use_type_invariant(&*self);
        }
        if self.data.len() - self.pos < n {
            Err(DecodeError::Eof)
        } else {
            self.pos = self.pos + n;
            Ok(())
        }
    }

    /// Advances the cursor beyond the current value.
    pub fn skip_item(&mut self) -> (r: Result<(), DecodeError>)
        ensures
            final(self).input() == old(self).input(),
            old(self).at() <= final(self).at() <= final(self).input().len(),
            advanced(r, final(self).at(), skip_value(old(self).input(), old(self).at())),
            r is Ok ==> final(self).at() > old(self).at(),
    {
        proof {
            use_type_invariant(&*self);
        }
        let ghost room = (self.input().len() - self.at()) as nat;
        self.skip_within(Ghost(room))
    }

    /// Skips a value; `room` bounds the bytes left, and so the depth.
    fn skip_within(&mut self, Ghost(room): Ghost<nat>) -> (r: Result<(), DecodeError>)
        requires
            room == old(self).input().len() - old(self).at(),
        ensures
            final(self).input() == old(self).input(),
            old(self).at() <= final(self).at() <= final(self).input().len(),
            advanced(r, final(self).at(), skip_value(old(self).input(), old(self).at())),
            r is Ok ==> final(self).at() > old(self).at(),
        decreases room,
    {
        proof {
            use_type_invariant(&*self);
        }
        let ghost s = (*self).input();
        let ghost p = (*self).at();
        let first = self.peek_byte()?;
        if first == DICT_START || first == LIST_START {
            let pairs = first == DICT_START;
            self.read_byte()?;
            let mut failure: Option<DecodeError> = None;
            loop
                invariant_except_break
                    failure is None,
                    pairs ==> skip_value(s, p) == skip_pairs(s, self.at()),
                    !pairs ==> skip_value(s, p) == skip_items(s, self.at()),
                invariant
                    self.input() == s,
                    0 <= p < self.at() <= s.len(),
                    room == s.len() - p,
                ensures
                    self.input() == s,
                    p < self.at() <= s.len(),
                    match failure {
                        Some(e) => skip_value(s, p) == Err::<int, (DecodeFailure, int)>(
                            (e@, self.at()),
                        ),
                        None => self.at() < s.len() && s[self.at()] == END && (pairs ==> skip_value(
                            s,
                            p,
                        ) == skip_pairs(s, self.at())) && (!pairs ==> skip_value(s, p)
                            == skip_items(s, self.at())),
                    },
                decreases s.len() - self.at(),
            {
                match self.peek_byte() {
                    Err(e) => {
                        failure = Some(e);
                        break ;
                    },
                    Ok(b) => {
                        if b == END {
                            break ;
                        }
                    },
                }
                let ghost room1 = (s.len() - self.at()) as nat;
                match self.skip_within(Ghost(room1)) {
                    Err(e) => {
                        failure = Some(e);
                        break ;
                    },
                    Ok(_) => {},
                }
                if pairs {
                    let ghost room2 = (s.len() - self.at()) as nat;
                    match self.skip_within(Ghost(room2)) {
                        Err(e) => {
                            failure = Some(e);
                            break ;
                        },
                        Ok(_) => {},
                    }
                }
            }
            match failure {
                Some(e) => Err(e),
                None => self.expect(END),
            }
        } else if first == INT_START {
            self.expect(INT_START)?;
            let res = self.skip_while(is_number);
            proof {
                let q = self.at();
                assert forall|i: int| p + 1 <= i < q implies is_number_byte(#[trigger] s[i]) by {
                    assert(call_ensures(is_number, (s[i],), true));
                }
                if res is Ok {
                    assert(!is_number_byte(s[q]));
                }
                lemma_number_run_end(s, p + 1, q);
            }
            res?;
            self.expect(END)
        } else if ZERO <= first && first <= NINE {
            let n: usize = self.read_number()?;
            self.expect(COLON)?;
            self.skip(n)?;
            Ok(())
        } else {
            Err(DecodeError::InvalidByte(first))
        }
    }

    /// Reads a byte string from the stream.
    pub fn read_byte_string(&mut self) -> (r: Result<Vec<u8>, DecodeError>)
        ensures
            final(self).input() == old(self).input(),
            old(self).at() <= final(self).at() <= final(self).input().len(),
            decoded(r, final(self).at(), parse_byte_string(old(self).input(), old(self).at())),
            r is Ok ==> final(self).at() > old(self).at(),
    {
        proof {
            use_type_invariant(&*self);
        }
        let n: usize = self.read_number()?;
        self.expect(COLON)?;

        if self.remaining() < n {
            return Err(DecodeError::Eof);
        }
        let mut buf = vec![0; n];
        let ghost before = self.at();
        let res = self.read(buf.as_mut_slice());
        assert(res is Ok);
        assert(buf@ =~= self.input().subrange(before, before + n));
        assert(buf.deep_view() =~= buf@);
        Ok(buf)
    }

    /// Reads a UTF-8 encoded string from the stream.
    pub fn read_str(&mut self) -> (r: Result<String, DecodeError>)
        ensures
            final(self).input() == old(self).input(),
            old(self).at() <= final(self).at() <= final(self).input().len(),
            decoded(r, final(self).at(), parse_str(old(self).input(), old(self).at())),
            r is Ok ==> final(self).at() > old(self).at(),
    {
        let bytes = self.read_byte_string()?;
        assert(bytes.deep_view() =~= bytes@);
        match string_from_utf8(bytes) {
            Ok(s) => Ok(s),
            Err(_) => Err(DecodeError::InvalidUtf8),
        }
    }

    /// Reads an integer value from the stream.
    pub fn read_integer<T: Integer>(&mut self) -> (r: Result<T, DecodeError>)
        ensures
            final(self).input() == old(self).input(),
            old(self).at() <= final(self).at() <= final(self).input().len(),
            match parse_integer(old(self).input(), old(self).at(), T::lower(), T::upper()) {
                Ok((v, q)) => r matches Ok(x) && x.int_value() == v && final(self).at() == q,
                Err((f, q)) => r matches Err(e) && e@ == f && final(self).at() == q,
            },
            r is Ok ==> final(self).at() > old(self).at(),
    {
        self.expect(INT_START)?;
        let n = self.read_number()?;
        self.expect(END)?;

        Ok(n)
    }

    /// Reads a key value mapping from the stream; each key must be greater
    /// than the one before it, or the dictionary is invalid.
    pub fn read_dict<T: DecodeTo>(&mut self) -> (r: Result<Vec<(String, T)>, DecodeError>)
        ensures
            final(self).input() == old(self).input(),
            old(self).at() <= final(self).at() <= final(self).input().len(),
            decoded(r, final(self).at(), dict_of::<T>(old(self).input(), old(self).at())),
            r is Ok ==> final(self).at() > old(self).at(),
    {
        proof {
            use_type_invariant(&*self);
        }
        let ghost s = (*self).input();
        let ghost p = (*self).at();
        self.expect(DICT_START)?;
        let mut map: Vec<(String, T)> = Vec::new();
        let mut failure: Option<DecodeError> = None;
        assert(map.deep_view() =~= Seq::<(Seq<char>, T::V)>::empty());
        loop
            invariant_except_break
                failure is None,
                dict_of::<T>(s, p) == entries_of::<T>(s, self.at(), map.deep_view()),
            invariant
                self.input() == s,
                0 <= p < self.at() <= s.len(),
            ensures
                self.input() == s,
                p < self.at() <= s.len(),
                match failure {
                    Some(e) => dict_of::<T>(s, p) == Err::<(Seq<(Seq<char>, T::V)>, int), (DecodeFailure, int)>(
                        (e@, self.at()),
                    ),
                    None => self.at() < s.len() && s[self.at()] == END && dict_of::<T>(s, p)
                        == entries_of::<T>(s, self.at(), map.deep_view()),
                },
            decreases s.len() - self.at(),
        {
            match self.peek_byte() {
                Err(e) => {
                    failure = Some(e);
                    break ;
                },
                Ok(b) => {
                    if b == END {
                        break ;
                    }
                },
            }
            let key = match self.read_str() {
                Err(e) => {
                    failure = Some(e);
                    break ;
                },
                Ok(k) => k,
            };
            if map.len() > 0 && !str_less(map[map.len() - 1].0.as_str(), key.as_str()) {
                assert(map.deep_view().last().0 == map@[map@.len() - 1].0@);
                failure = Some(DecodeError::InvalidDict);
                break ;
            }
            let value = match T::decode(self) {
                Err(e) => {
                    failure = Some(e);
                    break ;
                },
                Ok(v) => v,
            };
            proof {
                if map@.len() > 0 {
                    assert(map.deep_view().last().0 == map@[map@.len() - 1].0@);
                }
            }
            let ghost before = map.deep_view();
            map.push((key, value));
            assert(map.deep_view() =~= before.push((map@.last().0@, map@.last().1.deep_view())));
        }
        match failure {
            Some(e) => Err(e),
            None => {
                self.expect(END)?;
                Ok(map)
            },
        }
    }

    /// Reads a series of values from the stream.
    pub fn read_list<T: DecodeTo>(&mut self) -> (r: Result<Vec<T>, DecodeError>)
        ensures
            final(self).input() == old(self).input(),
            old(self).at() <= final(self).at() <= final(self).input().len(),
            decoded(r, final(self).at(), list_of::<T>(old(self).input(), old(self).at())),
            r is Ok ==> final(self).at() > old(self).at(),
    {
        proof {
            use_type_invariant(&*self);
        }
        let ghost s = (*self).input();
        let ghost p = (*self).at();
        self.expect(LIST_START)?;
        let mut list: Vec<T> = Vec::new();
        let mut failure: Option<DecodeError> = None;
        assert(list.deep_view() =~= Seq::<T::V>::empty());
        assert(prefixed(list.deep_view(), items_of::<T>(s, self.at())) == items_of::<T>(s, self.at())) by {
            match items_of::<T>(s, self.at()) {
                Ok((l, q)) => {
                    assert(Seq::<T::V>::empty() + l =~= l);
                },
                Err(_) => {},
            }
        }
        loop
            invariant_except_break
                failure is None,
                list_of::<T>(s, p) == prefixed(list.deep_view(), items_of::<T>(s, self.at())),
            invariant
                self.input() == s,
                0 <= p < self.at() <= s.len(),
            ensures
                self.input() == s,
                p < self.at() <= s.len(),
                match failure {
                    Some(e) => list_of::<T>(s, p) == Err::<(Seq<T::V>, int), (DecodeFailure, int)>(
                        (e@, self.at()),
                    ),
                    None => self.at() < s.len() && s[self.at()] == END && list_of::<T>(s, p)
                        == prefixed(list.deep_view(), items_of::<T>(s, self.at())),
                },
            decreases s.len() - self.at(),
        {
            match self.peek_byte() {
                Err(e) => {
                    failure = Some(e);
                    break ;
                },
                Ok(b) => {
                    if b == END {
                        break ;
                    }
                },
            }
            let ghost before = list.deep_view();
            match T::decode(self) {
                Err(e) => {
                    failure = Some(e);
                    break ;
                },
                Ok(v) => {
                    let ghost vv = v.deep_view();
                    list.push(v);
                    assert(list.deep_view() =~= before.push(vv));
                    proof {
                        lemma_prefixed_push(before, vv, items_of::<T>(s, self.at()));
                    }
                },
            }
        }
        match failure {
            Some(e) => Err(e),
            None => {
                self.expect(END)?;
                assert(list.deep_view() + Seq::<T::V>::empty() =~= list.deep_view());
                Ok(list)
            },
        }
    }

    /// Skips the entries left in a dictionary and its closing `e`.
    fn skip_rest_of_dict(&mut self) -> (r: Result<(), DecodeError>)
        ensures
            final(self).input() == old(self).input(),
            old(self).at() <= final(self).at() <= final(self).input().len(),
            advanced(r, final(self).at(), skip_pairs(old(self).input(), old(self).at())),
    {
        proof {
            use_type_invariant(&*self);
        }
        let ghost s = (*self).input();
        let ghost p = (*self).at();
        let mut failure: Option<DecodeError> = None;
        loop
            invariant_except_break
                failure is None,
                skip_pairs(s, p) == skip_pairs(s, self.at()),
            invariant
                self.input() == s,
                0 <= p <= self.at() <= s.len(),
            ensures
                self.input() == s,
                p <= self.at() <= s.len(),
                match failure {
                    Some(e) => skip_pairs(s, p) == Err::<int, (DecodeFailure, int)>((e@, self.at())),
                    None => self.at() < s.len() && s[self.at()] == END && skip_pairs(s, p)
                        == skip_pairs(s, self.at()),
                },
            decreases s.len() - self.at(),
        {
            match self.peek_byte() {
                Err(e) => {
                    failure = Some(e);
                    break ;
                },
                Ok(b) => {
                    if b == END {
                        break ;
                    }
                },
            }
            match self.skip_item() {
                Err(e) => {
                    failure = Some(e);
                    break ;
                },
                Ok(_) => {},
            }
            match self.skip_item() {
                Err(e) => {
                    failure = Some(e);
                    break ;
                },
                Ok(_) => {},
            }
        }
        match failure {
            Some(e) => Err(e),
            None => self.expect(END),
        }
    }

    /// Reads a key value mapping from the stream as a `struct`: `T` reads its
    /// fields, in lexicographical order, and any additional fields are
    /// skipped.
    pub fn read_struct<T: DecodeFields>(&mut self) -> (r: Result<T, DecodeError>)
        ensures
            final(self).input() == old(self).input(),
            old(self).at() <= final(self).at() <= final(self).input().len(),
            decoded(r, final(self).at(), struct_of::<T>(old(self).input(), old(self).at())),
            r is Ok ==> final(self).at() > old(self).at(),
    {
        self.expect(DICT_START)?;
        let res = T::decode_fields(self)?;
        self.skip_rest_of_dict()?;
        Ok(res)
    }

    /// Reads a single field from the stream. Get the first one with the same name.
    pub fn read_field<T: DecodeTo>(&mut self, name: &str) -> (r: Result<T, DecodeError>)
        ensures
            final(self).input() == old(self).input(),
            old(self).at() <= final(self).at() <= final(self).input().len(),
            decoded(
                r,
                final(self).at(),
                field_of::<T>(old(self).input(), old(self).at(), old(self).at(), name@),
            ),
    {
        proof {
            use_type_invariant(&*self);
        }
        let ghost s = (*self).input();
        let ghost p = (*self).at();
        let ghost n = name@;
        let pos = self.position();
        // 0: missing, 1: found (the decoder is just past the key), 2: failure
        let mut outcome: u8 = 0;
        let mut failure: Option<DecodeError> = None;
        loop
            invariant_except_break
                outcome == 0,
                failure is None,
                field_of::<T>(s, p, p, n) == field_of::<T>(s, self.at(), p, n),
            invariant
                self.input() == s,
                0 <= p <= self.at() <= s.len(),
                pos == p,
                name@ == n,
            ensures
                self.input() == s,
                p <= self.at() <= s.len(),
                outcome <= 2,
                outcome == 0 ==> field_of::<T>(s, p, p, n) == Err::<(T::V, int), (DecodeFailure, int)>(
                    (DecodeFailure::MissingField(n), p),
                ),
                outcome == 1 ==> field_of::<T>(s, p, p, n) == T::spec_decode(s, self.at()),
                outcome == 2 ==> (failure matches Some(e) && field_of::<T>(s, p, p, n) == Err::<
                    (T::V, int),
                    (DecodeFailure, int),
                >((e@, self.at()))),
            decreases s.len() - self.at(),
        {
            match self.peek_byte() {
                Err(e) => {
                    outcome = 2;
                    failure = Some(e);
                    break ;
                },
                Ok(b) => {
                    if b == END {
                        break ;
                    }
                },
            }
            let key = match self.read_str() {
                Err(e) => {
                    outcome = 2;
                    failure = Some(e);
                    break ;
                },
                Ok(k) => k,
            };
            if str_equal(key.as_str(), name) {
                outcome = 1;
                break ;
            } else if str_less(key.as_str(), name) {
                match self.skip_item() {
                    Err(e) => {
                        outcome = 2;
                        failure = Some(e);
                        break ;
                    },
                    Ok(_) => {},
                }
            } else {
                break ;
            }
        }
        if outcome == 1 {
            T::decode(self)
        } else if outcome == 0 {
            self.set_position(pos);
            Err(DecodeError::MissingField(name.to_owned()))
        } else {
            match failure {
                Some(e) => Err(e),
                None => Err(DecodeError::Eof),
            }
        }
    }

    /// Reads a single field from the stream. Get the last one with the same name.
    pub fn read_last_field<T: DecodeTo>(&mut self, name: &str) -> (r: Result<T, DecodeError>)
        ensures
            final(self).input() == old(self).input(),
            old(self).at() <= final(self).at() <= final(self).input().len(),
            decoded(
                r,
                final(self).at(),
                last_field_of::<T>(old(self).input(), old(self).at(), old(self).at(), None, name@),
            ),
    {
        proof {
            use_type_invariant(&*self);
        }
        let ghost s = (*self).input();
        let ghost p = (*self).at();
        let ghost n = name@;
        let mut pos = self.position();
        let mut res: Option<Result<T, DecodeError>> = None;
        let mut failure: Option<DecodeError> = None;
        loop
            invariant_except_break
                failure is None,
                last_field_of::<T>(s, p, p, None, n) == last_field_of::<T>(
                    s,
                    self.at(),
                    pos as int,
                    found_view(res),
                    n,
                ),
            invariant
                self.input() == s,
                0 <= p <= self.at() <= s.len(),
                p <= pos <= s.len(),
                name@ == n,
            ensures
                self.input() == s,
                p <= self.at() <= s.len(),
                p <= pos <= s.len(),
                match failure {
                    Some(e) => last_field_of::<T>(s, p, p, None, n) == Err::<
                        (T::V, int),
                        (DecodeFailure, int),
                    >((e@, self.at())),
                    None => last_field_of::<T>(s, p, p, None, n) == last_found(
                        pos as int,
                        found_view(res),
                        n,
                    ),
                },
            decreases s.len() - self.at(),
        {
            match self.peek_byte() {
                Err(e) => {
                    failure = Some(e);
                    break ;
                },
                Ok(b) => {
                    if b == END {
                        break ;
                    }
                },
            }
            let key = match self.read_str() {
                Err(e) => {
                    failure = Some(e);
                    break ;
                },
                Ok(k) => k,
            };
            if str_equal(key.as_str(), name) {
                res = Some(T::decode(self));
                pos = self.position();
            } else if str_less(key.as_str(), name) {
                match self.skip_item() {
                    Err(e) => {
                        failure = Some(e);
                        break ;
                    },
                    Ok(_) => {},
                }
            } else {
                break ;
            }
        }
        match failure {
            Some(e) => Err(e),
            None => {
                self.set_position(pos);
                match res {
                    Some(s) => s,
                    None => Err(DecodeError::MissingField(name.to_owned())),
                }
            },
        }
    }

    /// Reads a single field from the stream. Combine the fields with the same name.
    pub fn read_field_combine<T: DecodeTo>(&mut self, name: &str) -> (r: Result<
        Option<Vec<T>>,
        DecodeError,
    >)
        ensures
            final(self).input() == old(self).input(),
            old(self).at() <= final(self).at() <= final(self).input().len(),
            decoded(
                r,
                final(self).at(),
                combined_field_of::<T>(
                    old(self).input(),
                    old(self).at(),
                    old(self).at(),
                    seq![],
                    name@,
                ),
            ),
    {
        proof {
            use_type_invariant(&*self);
        }
        let ghost s = (*self).input();
        let ghost p = (*self).at();
        let ghost n = name@;
        let mut pos = self.position();
        let mut res: Vec<T> = Vec::new();
        let mut failure: Option<DecodeError> = None;
        assert(res.deep_view() =~= Seq::<T::V>::empty());
        loop
            invariant_except_break
                failure is None,
                combined_field_of::<T>(s, p, p, seq![], n) == combined_field_of::<T>(
                    s,
                    self.at(),
                    pos as int,
                    res.deep_view(),
                    n,
                ),
            invariant
                self.input() == s,
                0 <= p <= self.at() <= s.len(),
                p <= pos <= s.len(),
                name@ == n,
            ensures
                self.input() == s,
                p <= self.at() <= s.len(),
                p <= pos <= s.len(),
                match failure {
                    Some(e) => combined_field_of::<T>(s, p, p, seq![], n) == Err::<
                        (Option<Seq<T::V>>, int),
                        (DecodeFailure, int),
                    >((e@, self.at())),
                    None => combined_field_of::<T>(s, p, p, seq![], n) == (if res.deep_view().len()
                        == 0 {
                        Err::<(Option<Seq<T::V>>, int), (DecodeFailure, int)>(
                            (DecodeFailure::MissingField(n), pos as int),
                        )
                    } else {
                        Ok((Some(res.deep_view()), pos as int))
                    }),
                },
            decreases s.len() - self.at(),
        {
            match self.peek_byte() {
                Err(e) => {
                    failure = Some(e);
                    break ;
                },
                Ok(b) => {
                    if b == END {
                        break ;
                    }
                },
            }
            let key = match self.read_str() {
                Err(e) => {
                    failure = Some(e);
                    break ;
                },
                Ok(k) => k,
            };
            if str_equal(key.as_str(), name) {
                let ghost before = res.deep_view();
                let mut items: Vec<T> = match self.read_list() {
                    Err(e) => {
                        failure = Some(e);
                        break ;
                    },
                    Ok(l) => l,
                };
                let ghost added = items.deep_view();
                res.append(&mut items);
                assert(res.deep_view() =~= before + added);
                pos = self.position();
            } else if str_less(key.as_str(), name) {
                match self.skip_item() {
                    Err(e) => {
                        failure = Some(e);
                        break ;
                    },
                    Ok(_) => {},
                }
            } else {
                break ;
            }
        }
        match failure {
            Some(e) => Err(e),
            None => {
                self.set_position(pos);
                if res.len() == 0 {
                    Err(DecodeError::MissingField(name.to_owned()))
                } else {
                    Ok(Some(res))
                }
            },
        }
    }

    /// Reads an optional field from the stream.
    pub fn read_option<T: DecodeTo>(&mut self, name: &str) -> (r: Result<Option<T>, DecodeError>)
        ensures
            final(self).input() == old(self).input(),
            old(self).at() <= final(self).at() <= final(self).input().len(),
            decoded(r, final(self).at(), option_of::<T>(old(self).input(), old(self).at(), name@)),
    {
        match self.read_field(name) {
            Ok(t) => Ok(Some(t)),
            Err(DecodeError::MissingField(f)) => Ok(None),
            Err(e) => Err(e),
        }
    }
}

impl DecodeTo for String {
    open spec fn spec_decode(s: Seq<u8>, p: int) -> Result<(Seq<char>, int), (DecodeFailure, int)> {
        parse_str(s, p)
    }

    fn decode(d: &mut Decoder<'_>) -> (r: Result<String, DecodeError>) {
        d.read_str()
    }
}

impl<T: DecodeTo> DecodeTo for Vec<T> {
    open spec fn spec_decode(s: Seq<u8>, p: int) -> Result<(Seq<T::V>, int), (DecodeFailure, int)> {
        list_of::<T>(s, p)
    }

    fn decode(d: &mut Decoder<'_>) -> (r: Result<Vec<T>, DecodeError>) {
        d.read_list()
    }
}

impl DecodeTo for u8 {
    open spec fn spec_decode(s: Seq<u8>, p: int) -> Result<(u8, int), (DecodeFailure, int)> {
        match parse_integer(s, p, 0 as int, u8::MAX as int) {
            Ok((v, q)) => Ok((v as u8, q)),
            Err(e) => Err(e),
        }
    }

    fn decode(d: &mut Decoder<'_>) -> (r: Result<u8, DecodeError>) {
        d.read_integer()
    }
}

impl DecodeTo for u16 {
    open spec fn spec_decode(s: Seq<u8>, p: int) -> Result<(u16, int), (DecodeFailure, int)> {
        match parse_integer(s, p, 0 as int, u16::MAX as int) {
            Ok((v, q)) => Ok((v as u16, q)),
            Err(e) => Err(e),
        }
    }

    fn decode(d: &mut Decoder<'_>) -> (r: Result<u16, DecodeError>) {
        d.read_integer()
    }
}

impl DecodeTo for u32 {
    open spec fn spec_decode(s: Seq<u8>, p: int) -> Result<(u32, int), (DecodeFailure, int)> {
        match parse_integer(s, p, 0 as int, u32::MAX as int) {
            Ok((v, q)) => Ok((v as u32, q)),
            Err(e) => Err(e),
        }
    }

    fn decode(d: &mut Decoder<'_>) -> (r: Result<u32, DecodeError>) {
        d.read_integer()
    }
}

impl DecodeTo for u64 {
    open spec fn spec_decode(s: Seq<u8>, p: int) -> Result<(u64, int), (DecodeFailure, int)> {
        match parse_integer(s, p, 0 as int, u64::MAX as int) {
            Ok((v, q)) => Ok((v as u64, q)),
            Err(e) => Err(e),
        }
    }

    fn decode(d: &mut Decoder<'_>) -> (r: Result<u64, DecodeError>) {
        d.read_integer()
    }
}

impl DecodeTo for usize {
    open spec fn spec_decode(s: Seq<u8>, p: int) -> Result<(usize, int), (DecodeFailure, int)> {
        match parse_integer(s, p, 0 as int, usize::MAX as int) {
            Ok((v, q)) => Ok((v as usize, q)),
            Err(e) => Err(e),
        }
    }

    fn decode(d: &mut Decoder<'_>) -> (r: Result<usize, DecodeError>) {
        d.read_integer()
    }
}

impl DecodeTo for i8 {
    open spec fn spec_decode(s: Seq<u8>, p: int) -> Result<(i8, int), (DecodeFailure, int)> {
        match parse_integer(s, p, i8::MIN as int, i8::MAX as int) {
            Ok((v, q)) => Ok((v as i8, q)),
            Err(e) => Err(e),
        }
    }

    fn decode(d: &mut Decoder<'_>) -> (r: Result<i8, DecodeError>) {
        d.read_integer()
    }
}

impl DecodeTo for i16 {
    open spec fn spec_decode(s: Seq<u8>, p: int) -> Result<(i16, int), (DecodeFailure, int)> {
        match parse_integer(s, p, i16::MIN as int, i16::MAX as int) {
            Ok((v, q)) => Ok((v as i16, q)),
            Err(e) => Err(e),
        }
    }

    fn decode(d: &mut Decoder<'_>) -> (r: Result<i16, DecodeError>) {
        d.read_integer()
    }
}

impl DecodeTo for i32 {
    open spec fn spec_decode(s: Seq<u8>, p: int) -> Result<(i32, int), (DecodeFailure, int)> {
        match parse_integer(s, p, i32::MIN as int, i32::MAX as int) {
            Ok((v, q)) => Ok((v as i32, q)),
            Err(e) => Err(e),
        }
    }

    fn decode(d: &mut Decoder<'_>) -> (r: Result<i32, DecodeError>) {
        d.read_integer()
    }
}

impl DecodeTo for i64 {
    open spec fn spec_decode(s: Seq<u8>, p: int) -> Result<(i64, int), (DecodeFailure, int)> {
        match parse_integer(s, p, i64::MIN as int, i64::MAX as int) {
            Ok((v, q)) => Ok((v as i64, q)),
            Err(e) => Err(e),
        }
    }

    fn decode(d: &mut Decoder<'_>) -> (r: Result<i64, DecodeError>) {
        d.read_integer()
    }
}

impl DecodeTo for isize {
    open spec fn spec_decode(s: Seq<u8>, p: int) -> Result<(isize, int), (DecodeFailure, int)> {
        match parse_integer(s, p, isize::MIN as int, isize::MAX as int) {
            Ok((v, q)) => Ok((v as isize, q)),
            Err(e) => Err(e),
        }
    }

    fn decode(d: &mut Decoder<'_>) -> (r: Result<isize, DecodeError>) {
        d.read_integer()
    }
}

impl DecodeTo for Vec<Sha1> {
    open spec fn spec_decode(s: Seq<u8>, p: int) -> Result<(Seq<Seq<u8>>, int), (DecodeFailure, int)> {
        match parse_byte_string(s, p) {
            Ok((b, q)) => Ok((sha1_chunks(b), q)),
            Err(e) => Err(e),
        }
    }

    fn decode(d: &mut Decoder<'_>) -> (r: Result<Vec<Sha1>, DecodeError>) {
        let bytes = d.read_byte_string()?;
        assert(bytes.deep_view() =~= bytes@);
        Ok(Sha1::to_sha1list(bytes.as_slice()))
    }
}

} // verus!
