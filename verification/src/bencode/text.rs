//! A readable rendering of a bencoded value: hashes in hexadecimal, one per
//! line, and lists and dictionaries one item per line.
use crate::base::download::{push_text, text_string};
use crate::bencode::encode::push_decimal;
use crate::bencode::decode::DecodeError;
use crate::bencode::grammar::{decimal, int_text, is_digit, BValue, DecodeFailure, MINUS};
use crate::bencode::hash::{hex_bytes, hex_char, hex_digit, lemma_ascii_valid, sha1_chunks, Sha1};
use crate::bencode::roundtrip::lemma_decimal;
use crate::bencode::value::{dict_model, lemma_dict_model, lemma_list_model, list_model, Value};
use vstd::prelude::*;
use vstd::utf8::{encode_utf8, pop_first_scalar, valid_first_scalar, valid_utf8, valid_utf8_concat};

verus! {

/// Hashes in hexadecimal, each followed by a line break.
pub open spec fn hash_lines(h: Seq<Seq<u8>>) -> Seq<u8>
    decreases h.len(),
{
    if h.len() == 0 {
        seq![]
    } else {
        hash_lines(h.drop_last()) + hex_bytes(h.last()) + seq![10u8]
    }
}

/// The rendering of a value: an integer in decimal, a string as it is, a
/// byte string as the hashes of its twenty-byte chunks in parentheses, and
/// lists and dictionaries with one indented item per line.
pub open spec fn value_text(v: BValue) -> Seq<u8>
    decreases v,
{
    match v {
        BValue::Int(i) => int_text(i),
        BValue::Bytes(b) => seq![40u8, 10u8] + hash_lines(sha1_chunks(b)) + seq![41u8, 10u8],
        BValue::Str(s) => encode_utf8(s),
        BValue::List(l) => seq![76u8, 105u8, 115u8, 116u8, 40u8, 10u8] + items_text(l) + seq![
            9u8,
            41u8,
            10u8,
        ],
        BValue::Dict(d) => seq![68u8, 105u8, 99u8, 116u8, 40u8, 10u8] + entries_text(d) + seq![
            9u8,
            41u8,
            10u8,
        ],
    }
}

/// The lines of the items of a list.
pub open spec fn items_text(l: Seq<BValue>) -> Seq<u8>
    decreases l,
{
    if l.len() == 0 {
        seq![]
    } else {
        seq![9u8, 9u8] + value_text(l[0]) + seq![10u8] + items_text(l.drop_first())
    }
}

/// The lines of the entries of a dictionary: the key, a colon, the value.
pub open spec fn entries_text(d: Seq<(Seq<char>, BValue)>) -> Seq<u8>
    decreases d,
{
    if d.len() == 0 {
        seq![]
    } else {
        seq![9u8, 9u8] + encode_utf8(d[0].0) + seq![58u8, 32u8] + value_text(d[0].1) + seq![10u8]
            + entries_text(d.drop_first())
    }
}

proof fn lemma_items_text_split(l: Seq<BValue>, i: int)
    requires
        0 <= i < l.len(),
    ensures
        items_text(l.subrange(0, i + 1)) == items_text(l.subrange(0, i)) + seq![9u8, 9u8]
            + value_text(l[i]) + seq![10u8],
    decreases i,
{
    let a = l.subrange(0, i + 1);
    assert(a.drop_first() =~= l.drop_first().subrange(0, i));
    if i == 0 {
        assert(l.subrange(0, 0) =~= Seq::<BValue>::empty());
        assert(a.drop_first() =~= Seq::<BValue>::empty());
    } else {
        lemma_items_text_split(l.drop_first(), i - 1);
        assert(l.subrange(0, i).drop_first() =~= l.drop_first().subrange(0, i - 1));
        assert(l.drop_first()[i - 1] == l[i]);
    }
}

proof fn lemma_entries_text_split(d: Seq<(Seq<char>, BValue)>, i: int)
    requires
        0 <= i < d.len(),
    ensures
        entries_text(d.subrange(0, i + 1)) == entries_text(d.subrange(0, i)) + seq![9u8, 9u8]
            + encode_utf8(d[i].0) + seq![58u8, 32u8] + value_text(d[i].1) + seq![10u8],
    decreases i,
{
    let a = d.subrange(0, i + 1);
    assert(a.drop_first() =~= d.drop_first().subrange(0, i));
    if i == 0 {
        assert(d.subrange(0, 0) =~= Seq::<(Seq<char>, BValue)>::empty());
        assert(a.drop_first() =~= Seq::<(Seq<char>, BValue)>::empty());
    } else {
        lemma_entries_text_split(d.drop_first(), i - 1);
        assert(d.subrange(0, i).drop_first() =~= d.drop_first().subrange(0, i - 1));
        assert(d.drop_first()[i - 1] == d[i]);
    }
}

/// Appends an ASCII byte to text.
pub(crate) fn push_ascii(out: &mut Vec<u8>, b: u8)
    requires
        b < 128,
        valid_utf8(old(out)@),
    ensures
        final(out)@ == old(out)@.push(b),
        valid_utf8(final(out)@),
{
    let ghost start = out@;
    out.push(b);
    proof {
        lemma_ascii_valid(seq![b]);
        valid_utf8_concat(start, seq![b]);
        assert(out@ =~= start + seq![b]);
    }
}

/// Appends the decimal digits of a natural number to text.
pub(crate) fn push_natural(out: &mut Vec<u8>, n: u128)
    requires
        valid_utf8(old(out)@),
    ensures
        final(out)@ == old(out)@ + decimal(n as nat),
        valid_utf8(final(out)@),
{
    let ghost start = out@;
    push_decimal(out, n);
    proof {
        let d = decimal(n as nat);
        lemma_decimal(n as nat);
        assert forall|k: int| 0 <= k < d.len() implies #[trigger] d[k] < 128 by {
            assert(is_digit(d[k]));
        }
        lemma_ascii_valid(d);
        valid_utf8_concat(start, d);
    }
}

/// Appends the decimal text of an integer.
fn push_int(out: &mut Vec<u8>, i: i64)
    requires
        valid_utf8(old(out)@),
    ensures
        final(out)@ == old(out)@ + int_text(i as int),
        valid_utf8(final(out)@),
{
    let ghost start = out@;
    let magnitude: u128 = if i < 0 {
        push_ascii(out, MINUS);
        (0i128 - i as i128) as u128
    } else {
        i as u128
    };
    push_natural(out, magnitude);
    assert(out@ =~= start + int_text(i as int));
}

impl Value {
    /// Appends the rendering of this value.
    fn write_text(&self, out: &mut Vec<u8>)
        requires
            valid_utf8(old(out)@),
        ensures
            final(out)@ == old(out)@ + value_text(self@),
            valid_utf8(final(out)@),
        decreases self,
    {
        let ghost start = out@;
        match self {
            Value::Integer(i) => {
                push_int(out, *i);
            },
            Value::String(s) => {
                push_text(out, s.as_str());
            },
            Value::Bytes(bytes) => {
                push_ascii(out, 40);
                push_ascii(out, 10);
                let ghost after_open = out@;
                let hashes = Sha1::to_sha1list(bytes.as_slice());
                let ghost chunks = sha1_chunks(bytes@);
                let mut i: usize = 0;
                assert(chunks.take(0) =~= Seq::<Seq<u8>>::empty());
                while i < hashes.len()
                    invariant
                        i <= hashes@.len(),
                        hashes.deep_view() == chunks,
                        valid_utf8(out@),
                        out@ == after_open + hash_lines(chunks.take(i as int)),
                    decreases hashes@.len() - i,
                {
                    let hx = hashes[i].to_hex();
                    push_text(out, hx.as_str());
                    push_ascii(out, 10);
                    proof {
                        assert(chunks[i as int] == hashes@[i as int]@);
                        assert(chunks.take(i + 1).drop_last() =~= chunks.take(i as int));
                        assert(chunks.take(i + 1).last() == chunks[i as int]);
                    }
                    i = i + 1;
                    assert(out@ =~= after_open + hash_lines(chunks.take(i as int)));
                }
                assert(chunks.take(i as int) =~= chunks);
                push_ascii(out, 41);
                push_ascii(out, 10);
                assert(out@ =~= start + value_text(self@));
            },
            Value::List(list) => {
                push_ascii(out, 76);
                push_ascii(out, 105);
                push_ascii(out, 115);
                push_ascii(out, 116);
                push_ascii(out, 40);
                push_ascii(out, 10);
                let ghost after_open = out@;
                proof {
                    lemma_list_model(list@);
                }
                assert(list_model(list@).subrange(0, 0) =~= Seq::<BValue>::empty());
                assert forall|j: int| 0 <= j < list@.len() implies decreases_to!(*self => #[trigger] list@[j]) by {
                    assert(decreases_to!(*self => *list));
                    assert(decreases_to!(*list => list@));
                    assert(decreases_to!(list@ => list@[j]));
                }
                let mut i: usize = 0;
                while i < list.len()
                    invariant
                        forall|j: int| 0 <= j < list@.len() ==> decreases_to!(*self => #[trigger] list@[j]),
                        i <= list@.len(),
                        list_model(list@).len() == list@.len(),
                        forall|j: int| 0 <= j < list@.len() ==> #[trigger] list_model(list@)[j] == list@[j]@,
                        valid_utf8(out@),
                        out@ == after_open + items_text(list_model(list@).subrange(0, i as int)),
                    decreases list@.len() - i,
                {
                    push_ascii(out, 9);
                    push_ascii(out, 9);
                    list[i].write_text(out);
                    push_ascii(out, 10);
                    proof {
                        lemma_items_text_split(list_model(list@), i as int);
                    }
                    i = i + 1;
                    assert(out@ =~= after_open + items_text(list_model(list@).subrange(0, i as int)));
                }
                assert(list_model(list@).subrange(0, i as int) =~= list_model(list@));
                push_ascii(out, 9);
                push_ascii(out, 41);
                push_ascii(out, 10);
                assert(out@ =~= start + value_text(self@));
            },
            Value::Dict(map) => {
                push_ascii(out, 68);
                push_ascii(out, 105);
                push_ascii(out, 99);
                push_ascii(out, 116);
                push_ascii(out, 40);
                push_ascii(out, 10);
                let ghost after_open = out@;
                proof {
                    lemma_dict_model(map@);
                }
                assert(dict_model(map@).subrange(0, 0) =~= Seq::<(Seq<char>, BValue)>::empty());
                assert forall|j: int| 0 <= j < map@.len() implies decreases_to!(*self => #[trigger] map@[j].1) by {
                    assert(decreases_to!(*self => *map));
                    assert(decreases_to!(*map => map@));
                    assert(decreases_to!(map@ => map@[j]));
                    assert(decreases_to!(map@[j] => map@[j].1));
                }
                let mut i: usize = 0;
                while i < map.len()
                    invariant
                        forall|j: int| 0 <= j < map@.len() ==> decreases_to!(*self => #[trigger] map@[j].1),
                        i <= map@.len(),
                        dict_model(map@).len() == map@.len(),
                        forall|j: int|
                            0 <= j < map@.len() ==> #[trigger] dict_model(map@)[j] == (
                                map@[j].0@,
                                map@[j].1@,
                            ),
                        valid_utf8(out@),
                        out@ == after_open + entries_text(dict_model(map@).subrange(0, i as int)),
                    decreases map@.len() - i,
                {
                    push_ascii(out, 9);
                    push_ascii(out, 9);
                    push_text(out, map[i].0.as_str());
                    push_ascii(out, 58);
                    push_ascii(out, 32);
                    map[i].1.write_text(out);
                    push_ascii(out, 10);
                    proof {
                        lemma_entries_text_split(dict_model(map@), i as int);
                    }
                    i = i + 1;
                    assert(out@ =~= after_open + entries_text(dict_model(map@).subrange(0, i as int)));
                }
                assert(dict_model(map@).subrange(0, i as int) =~= dict_model(map@));
                push_ascii(out, 9);
                push_ascii(out, 41);
                push_ascii(out, 10);
                assert(out@ =~= start + value_text(self@));
            },
        }
    }

    /// The rendering of this value, as `value_text` lays it out.
    pub fn to_text(&self) -> (r: String)
        ensures
            encode_utf8(r@) == value_text(self@),
    {
        let mut out: Vec<u8> = Vec::new();
        proof {
            lemma_ascii_valid(out@);
        }
        self.write_text(&mut out);
        assert(out@ =~= value_text(self@));
        text_string(out)
    }
}

/// The lowercase hexadecimal digits of `b`, without leading zeros.
pub open spec fn hex_short(b: u8) -> Seq<u8> {
    if b < 16 {
        seq![hex_digit(b as int)]
    } else {
        seq![hex_digit((b / 16) as int), hex_digit((b % 16) as int)]
    }
}

/// How `{:?}` writes `b`, taken as a character, between the quotes: an
/// escape for the null, tab, line feed, carriage return, quote and
/// backslash; printable characters as they are, in UTF-8; others as a
/// `\u{..}` escape of their code.
pub open spec fn char_escape(b: u8) -> Seq<u8> {
    if b == 0 {
        seq![92u8, 48u8]
    } else if b == 9 {
        seq![92u8, 116u8]
    } else if b == 10 {
        seq![92u8, 110u8]
    } else if b == 13 {
        seq![92u8, 114u8]
    } else if b == 39 || b == 92 {
        seq![92u8, b]
    } else if 32 <= b < 127 {
        seq![b]
    } else if 161 <= b && b != 173 {
        seq![(192 + b / 64) as u8, (128 + b % 64) as u8]
    } else {
        seq![92u8, 117u8, 123u8] + hex_short(b) + seq![125u8]
    }
}

/// `b`, taken as a character, as `{:?}` writes it: between single quotes.
pub open spec fn quoted_char(b: u8) -> Seq<u8> {
    seq![39u8] + char_escape(b) + seq![39u8]
}

/// The message of a decoding error.
pub open spec fn error_text(e: DecodeFailure) -> Seq<u8> {
    match e {
        DecodeFailure::Eof => encode_utf8("unexpected end-of-file"@),
        DecodeFailure::ExtraneousData => encode_utf8("extraneous data"@),
        DecodeFailure::InvalidByte(b) => encode_utf8("invalid byte "@) + decimal(b as nat),
        DecodeFailure::InvalidDict => encode_utf8("invalid dict"@),
        DecodeFailure::InvalidNumber => encode_utf8("invalid number"@),
        DecodeFailure::InvalidUtf8 => encode_utf8("invalid utf-8"@),
        DecodeFailure::MissingField(s) => encode_utf8("missing field: "@) + encode_utf8(s),
        DecodeFailure::UnexpectedByte(x, y) => encode_utf8("expected byte "@) + quoted_char(x)
            + encode_utf8(", found "@) + quoted_char(y),
    }
}

/// A leading byte of a two-byte sequence and a continuation byte are
/// valid UTF-8 when they encode a code above 0x7f.
proof fn lemma_two_byte_valid(x: u8, y: u8)
    requires
        194 <= x <= 195,
        128 <= y <= 191,
    ensures
        valid_utf8(seq![x, y]),
{
    let s = seq![x, y];
    assert((((x & 0x1f) as u32) << 6u32 | ((y & 0x3f) as u32)) >= 0x80u32) by (bit_vector)
        requires
            194 <= x <= 195,
            128 <= y <= 191,
    ;
    assert((((x & 0x1f) as u32) << 6u32 | ((y & 0x3f) as u32)) < 0x800u32) by (bit_vector)
        requires
            194 <= x <= 195,
    ;
    assert(s.subrange(2, 2) =~= Seq::<u8>::empty());
    assert(valid_first_scalar(s));
    assert(pop_first_scalar(s) =~= Seq::<u8>::empty());
    reveal_with_fuel(valid_utf8, 2);
}

/// Appends the lowercase hexadecimal digits of `b`, without leading zeros.
fn push_hex_short(out: &mut Vec<u8>, b: u8)
    requires
        valid_utf8(old(out)@),
    ensures
        final(out)@ == old(out)@ + hex_short(b),
        valid_utf8(final(out)@),
{
    let ghost start = out@;
    if b < 16 {
        push_ascii(out, hex_char(b));
    } else {
        push_ascii(out, hex_char(b / 16));
        push_ascii(out, hex_char(b % 16));
    }
    assert(out@ =~= start + hex_short(b));
}

/// Appends `b`, taken as a character, as `{:?}` writes it.
fn push_quoted_char(out: &mut Vec<u8>, b: u8)
    requires
        valid_utf8(old(out)@),
    ensures
        final(out)@ == old(out)@ + quoted_char(b),
        valid_utf8(final(out)@),
{
    let ghost start = out@;
    push_ascii(out, 39);
    if b == 0 {
        push_ascii(out, 92);
        push_ascii(out, 48);
    } else if b == 9 {
        push_ascii(out, 92);
        push_ascii(out, 116);
    } else if b == 10 {
        push_ascii(out, 92);
        push_ascii(out, 110);
    } else if b == 13 {
        push_ascii(out, 92);
        push_ascii(out, 114);
    } else if b == 39 || b == 92 {
        push_ascii(out, 92);
        push_ascii(out, b);
    } else if 32 <= b && b < 127 {
        push_ascii(out, b);
    } else if 161 <= b && b != 173 {
        let x: u8 = 192 + b / 64;
        let y: u8 = 128 + b % 64;
        let ghost before = out@;
        out.push(x);
        out.push(y);
        proof {
            lemma_two_byte_valid(x, y);
            valid_utf8_concat(before, seq![x, y]);
            assert(out@ =~= before + seq![x, y]);
        }
    } else {
        push_ascii(out, 92);
        push_ascii(out, 117);
        push_ascii(out, 123);
        push_hex_short(out, b);
        push_ascii(out, 125);
    }
    push_ascii(out, 39);
    assert(out@ =~= start + quoted_char(b));
}

impl DecodeError {
    /// The message of this error, as `error_text` gives it.
    pub fn to_text(&self) -> (r: String)
        ensures
            encode_utf8(r@) == error_text(self@),
    {
        let mut out: Vec<u8> = Vec::new();
        proof {
            lemma_ascii_valid(out@);
        }
        match self {
            DecodeError::Eof => push_text(&mut out, "unexpected end-of-file"),
            DecodeError::ExtraneousData => push_text(&mut out, "extraneous data"),
            DecodeError::InvalidByte(b) => {
                push_text(&mut out, "invalid byte ");
                push_natural(&mut out, *b as u128);
            },
            DecodeError::InvalidDict => push_text(&mut out, "invalid dict"),
            DecodeError::InvalidNumber => push_text(&mut out, "invalid number"),
            DecodeError::InvalidUtf8 => push_text(&mut out, "invalid utf-8"),
            DecodeError::MissingField(s) => {
                push_text(&mut out, "missing field: ");
                push_text(&mut out, s.as_str());
            },
            DecodeError::UnexpectedByte { expected, found } => {
                push_text(&mut out, "expected byte ");
                push_quoted_char(&mut out, *expected);
                push_text(&mut out, ", found ");
                push_quoted_char(&mut out, *found);
            },
        }
        assert(out@ =~= error_text(self@));
        text_string(out)
    }
}

} // verus!
