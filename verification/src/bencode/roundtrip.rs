//! Decoding what encoding wrote gives the value back.
use crate::bencode::grammar::{
    all_digits, byte_string_text, bytes_lt, decimal, dict_insert, digits_value, encode_entries,
    encode_items, encode_value, int_text, is_digit, is_number_byte, keys_sorted,
    lemma_number_run_end, number_run_end, number_token_value, parse_byte_string,
    parse_dict_entries, parse_list_items, parse_number, parse_str, parse_value, skip_items,
    skip_pairs, skip_value, str_lt, wf_entries,
    wf_items, wf_value, BValue, COLON, DICT_START, END, INT_START, LIST_START, MINUS, ZERO,
};
use crate::bencode::decode::{field_of, DecodeTo};
use crate::bencode::encode::EncodeTo;
use crate::bencode::hash::{sha1_bytes, sha1_chunks, Sha1};
use crate::bencode::value::{items_from_value, items_into_value, FromValue, IntoValue, Value};
use crate::bencode::grammar::dict_lookup;
use vstd::prelude::*;
use vstd::utf8::{encode_utf8, encode_utf8_decode_utf8, encode_utf8_valid_utf8};

verus! {

/// The digits of a natural number.
pub proof fn lemma_decimal(n: nat)
    ensures
        decimal(n).len() >= 1,
        all_digits(decimal(n)),
        digits_value(decimal(n)) == n,
        decimal(n).len() > 1 ==> decimal(n)[0] != ZERO,
        n > 0 ==> decimal(n)[0] != ZERO,
    decreases n,
{
    if n < 10 {
        let y = decimal(n);
        assert(y.drop_last() =~= Seq::<u8>::empty());
        assert(digits_value(Seq::<u8>::empty()) == 0);
        assert(y.last() == (ZERO + n) as u8);
        assert(is_digit(y[0]));
    } else {
        lemma_decimal(n / 10);
        let x = decimal(n / 10);
        let y = decimal(n);
        assert(y == x.push((ZERO + n % 10) as u8));
        assert(y.drop_last() =~= x);
        assert(y[0] == x[0]);
        assert(y.last() == (ZERO + n % 10) as u8);
        assert(digits_value(y) == digits_value(x) * 10 + (n % 10));
        assert forall|i: int| 0 <= i < y.len() implies is_digit(#[trigger] y[i]) by {
            if i < x.len() {
                assert(y[i] == x[i]);
            }
        }
    }
}

/// The text of an integer is a well formed number token that stands for it.
pub proof fn lemma_int_text(i: int)
    ensures
        int_text(i).len() >= 1,
        forall|k: int| 0 <= k < int_text(i).len() ==> is_number_byte(#[trigger] int_text(i)[k]),
        number_token_value(int_text(i)) == Some(i),
        i >= 0 ==> is_digit(int_text(i)[0]),
{
    if i < 0 {
        let m = (-i) as nat;
        lemma_decimal(m);
        let t = int_text(i);
        assert(t.drop_first() =~= decimal(m));
        assert forall|k: int| 0 <= k < t.len() implies is_number_byte(#[trigger] t[k]) by {
            if k > 0 {
                assert(t[k] == decimal(m)[k - 1]);
            }
        }
        if t =~= seq![MINUS, ZERO] {
            assert(decimal(m) =~= seq![ZERO]);
            assert(digits_value(seq![ZERO]) == 0) by {
                assert(seq![ZERO].drop_last() =~= Seq::<u8>::empty());
                assert(digits_value(Seq::<u8>::empty()) == 0);
                assert(seq![ZERO].last() == ZERO);
            }
        }
    } else {
        lemma_decimal(i as nat);
        let t = int_text(i);
        assert(is_digit(t[0]));
        assert forall|k: int| 0 <= k < t.len() implies is_number_byte(#[trigger] t[k]) by {
            assert(is_digit(t[k]));
        }
    }
}

/// A number written as text, followed by a byte that is not part of a number,
/// reads back.
pub proof fn lemma_parse_number_text(s: Seq<u8>, p: int, i: int, lo: int, hi: int)
    requires
        0 <= p,
        p + int_text(i).len() < s.len(),
        s.subrange(p, p + int_text(i).len()) == int_text(i),
        !is_number_byte(s[p + int_text(i).len()]),
        lo <= i <= hi,
    ensures
        parse_number(s, p, lo, hi) == Ok::<(int, int), (crate::bencode::grammar::DecodeFailure, int)>(
            (i, p + int_text(i).len()),
        ),
{
    let t = int_text(i);
    let q = p + t.len();
    lemma_int_text(i);
    assert forall|k: int| p <= k < q implies is_number_byte(#[trigger] s[k]) by {
        assert(s[k] == s.subrange(p, q)[k - p]);
    }
    lemma_number_run_end(s, p, q);
}

/// A byte string written as text reads back.
pub proof fn lemma_parse_byte_string_text(s: Seq<u8>, p: int, b: Seq<u8>)
    requires
        0 <= p,
        b.len() <= usize::MAX,
        p + byte_string_text(b).len() <= s.len(),
        s.subrange(p, p + byte_string_text(b).len()) == byte_string_text(b),
    ensures
        parse_byte_string(s, p) == Ok::<(Seq<u8>, int), (crate::bencode::grammar::DecodeFailure, int)>(
            (b, p + byte_string_text(b).len()),
        ),
{
    let t = int_text(b.len() as int);
    let e = byte_string_text(b);
    lemma_int_text(b.len() as int);
    assert(e[t.len() as int] == COLON);
    assert(s[p + t.len()] == e[t.len() as int]);
    assert(s.subrange(p, p + t.len()) =~= t) by {
        assert forall|k: int| 0 <= k < t.len() implies s.subrange(p, p + t.len())[k] == t[k] by {
            assert(s[p + k] == e[k]);
        }
    }
    lemma_parse_number_text(s, p, b.len() as int, 0, usize::MAX as int);
    let r = p + t.len() + 1;
    assert(s.subrange(r, r + b.len()) =~= b) by {
        assert forall|k: int| 0 <= k < b.len() implies s.subrange(r, r + b.len())[k] == b[k] by {
            assert(s[r + k] == e[t.len() + 1 + k]);
        }
    }
}

pub proof fn lemma_bytes_lt_irreflexive(a: Seq<u8>)
    ensures
        !bytes_lt(a, a),
    decreases a.len(),
{
    if a.len() > 0 {
        lemma_bytes_lt_irreflexive(a.drop_first());
    }
}

pub proof fn lemma_bytes_lt_asymmetric(a: Seq<u8>, b: Seq<u8>)
    ensures
        bytes_lt(a, b) ==> !bytes_lt(b, a),
    decreases a.len(),
{
    if a.len() > 0 && b.len() > 0 && a[0] == b[0] {
        lemma_bytes_lt_asymmetric(a.drop_first(), b.drop_first());
    }
}

/// Inserting a key greater than every key present appends it.
pub proof fn lemma_dict_insert_greatest<V>(acc: Seq<(Seq<char>, V)>, k: Seq<char>, v: V)
    requires
        forall|i: int| 0 <= i < acc.len() ==> str_lt(#[trigger] acc[i].0, k),
    ensures
        dict_insert(acc, k, v) == acc.push((k, v)),
    decreases acc.len(),
{
    if acc.len() > 0 {
        assert(str_lt(acc[0].0, k));
        lemma_bytes_lt_asymmetric(encode_utf8(acc[0].0), encode_utf8(k));
        lemma_bytes_lt_irreflexive(encode_utf8(k));
        assert(acc[0].0 != k);
        assert forall|i: int| 0 <= i < acc.drop_first().len() implies str_lt(
            #[trigger] acc.drop_first()[i].0,
            k,
        ) by {
            assert(acc.drop_first()[i] == acc[i + 1]);
        }
        lemma_dict_insert_greatest(acc.drop_first(), k, v);
        assert(seq![acc[0]] + acc.drop_first().push((k, v)) =~= acc.push((k, v)));
    }
}

/// Encodings are never empty, and never start with the closing `e`.
pub proof fn lemma_encode_first(v: BValue)
    ensures
        encode_value(v).len() > 0,
        encode_value(v)[0] != END,
{
    match v {
        BValue::Bytes(b) => {
            lemma_int_text(b.len() as int);
            assert(encode_value(v)[0] == int_text(b.len() as int)[0]);
        },
        BValue::Str(cs) => {
            lemma_int_text(encode_utf8(cs).len() as int);
            assert(encode_value(v)[0] == int_text(encode_utf8(cs).len() as int)[0]);
        },
        _ => {},
    }
}

/// Reading a well formed value where its encoding stands gives it back, with
/// the position just past the encoding.
pub proof fn lemma_parse_encoded(v: BValue, s: Seq<u8>, p: int)
    requires
        wf_value(v),
        0 <= p,
        p + encode_value(v).len() <= s.len(),
        s.subrange(p, p + encode_value(v).len()) == encode_value(v),
    ensures
        parse_value(s, p) == Ok::<(BValue, int), (crate::bencode::grammar::DecodeFailure, int)>(
            (v, p + encode_value(v).len()),
        ),
    decreases v,
{
    let e = encode_value(v);
    assert forall|k: int| 0 <= k < e.len() implies s[p + k] == #[trigger] e[k] by {
        assert(s.subrange(p, p + e.len())[k] == s[p + k]);
    }
    match v {
        BValue::Int(i) => {
            let t = int_text(i);
            lemma_int_text(i);
            assert(e[0] == INT_START);
            assert(s[p] == e[0]);
            assert(s.subrange(p + 1, p + 1 + t.len()) =~= t) by {
                assert forall|k: int| 0 <= k < t.len() implies s.subrange(p + 1, p + 1 + t.len())[k]
                    == t[k] by {
                    assert(s[p + 1 + k] == e[1 + k]);
                }
            }
            assert(s[p + 1 + t.len()] == e[1 + t.len() as int]);
            lemma_parse_number_text(s, p + 1, i, i64::MIN as int, i64::MAX as int);
        },
        BValue::Bytes(b) => {
            lemma_int_text(b.len() as int);
            assert(e[0] == int_text(b.len() as int)[0]);
            assert(s[p] == e[0]);
            lemma_parse_byte_string_text(s, p, b);
        },
        BValue::Str(cs) => {
            let b = encode_utf8(cs);
            lemma_int_text(b.len() as int);
            assert(e[0] == int_text(b.len() as int)[0]);
            assert(s[p] == e[0]);
            lemma_parse_byte_string_text(s, p, b);
            encode_utf8_valid_utf8(cs);
            encode_utf8_decode_utf8(cs);
        },
        BValue::List(l) => {
            let items = encode_items(l);
            assert(e[0] == LIST_START);
            assert(s[p] == e[0]);
            assert(s.subrange(p + 1, p + 1 + items.len() + 1) =~= items + seq![END]) by {
                assert forall|k: int| 0 <= k < items.len() + 1 implies s.subrange(
                    p + 1,
                    p + 1 + items.len() + 1,
                )[k] == (items + seq![END])[k] by {
                    assert(s[p + 1 + k] == e[1 + k]);
                }
            }
            lemma_parse_encoded_items(l, s, p + 1);
        },
        BValue::Dict(d) => {
            let entries = encode_entries(d);
            assert(e[0] == DICT_START);
            assert(s[p] == e[0]);
            assert(s.subrange(p + 1, p + 1 + entries.len() + 1) =~= entries + seq![END]) by {
                assert forall|k: int| 0 <= k < entries.len() + 1 implies s.subrange(
                    p + 1,
                    p + 1 + entries.len() + 1,
                )[k] == (entries + seq![END])[k] by {
                    assert(s[p + 1 + k] == e[1 + k]);
                }
            }
            assert(seq![] + d =~= d);
            lemma_parse_encoded_entries(d, s, p + 1, seq![]);
        },
    }
}

/// List items read back, up to the closing `e`.
pub proof fn lemma_parse_encoded_items(l: Seq<BValue>, s: Seq<u8>, p: int)
    requires
        wf_items(l),
        0 <= p,
        p + encode_items(l).len() + 1 <= s.len(),
        s.subrange(p, p + encode_items(l).len() + 1) == encode_items(l) + seq![END],
    ensures
        parse_list_items(s, p) == Ok::<(Seq<BValue>, int), (crate::bencode::grammar::DecodeFailure, int)>(
            (l, p + encode_items(l).len() + 1),
        ),
    decreases l,
{
    let e = encode_items(l) + seq![END];
    assert forall|k: int| 0 <= k < e.len() implies s[p + k] == #[trigger] e[k] by {
        assert(s.subrange(p, p + e.len())[k] == s[p + k]);
    }
    if l.len() == 0 {
        assert(e[0] == END);
        assert(s[p] == e[0]);
        assert(l =~= Seq::<BValue>::empty());
    } else {
        let first = encode_value(l[0]);
        let rest = encode_items(l.drop_first());
        lemma_encode_first(l[0]);
        assert(e[0] == first[0]);
        assert(s[p] == e[0]);
        assert(s.subrange(p, p + first.len()) =~= first) by {
            assert forall|k: int| 0 <= k < first.len() implies s.subrange(p, p + first.len())[k]
                == first[k] by {
                assert(s[p + k] == e[k]);
            }
        }
        lemma_parse_encoded(l[0], s, p);
        let q = p + first.len();
        assert(s.subrange(q, q + rest.len() + 1) =~= rest + seq![END]) by {
            assert forall|k: int| 0 <= k < rest.len() + 1 implies s.subrange(q, q + rest.len() + 1)[k]
                == (rest + seq![END])[k] by {
                assert(s[q + k] == e[first.len() + k]);
            }
        }
        lemma_parse_encoded_items(l.drop_first(), s, q);
        assert(seq![l[0]] + l.drop_first() =~= l);
    }
}

/// Dictionary entries read back, up to the closing `e`, after the entries
/// already read into `acc`.
pub proof fn lemma_parse_encoded_entries(
    d: Seq<(Seq<char>, BValue)>,
    s: Seq<u8>,
    p: int,
    acc: Seq<(Seq<char>, BValue)>,
)
    requires
        wf_entries(d),
        keys_sorted(acc + d),
        0 <= p,
        p + encode_entries(d).len() + 1 <= s.len(),
        s.subrange(p, p + encode_entries(d).len() + 1) == encode_entries(d) + seq![END],
    ensures
        parse_dict_entries(s, p, acc) == Ok::<
            (Seq<(Seq<char>, BValue)>, int),
            (crate::bencode::grammar::DecodeFailure, int),
        >((acc + d, p + encode_entries(d).len() + 1)),
    decreases d,
{
    let e = encode_entries(d) + seq![END];
    assert forall|k: int| 0 <= k < e.len() implies s[p + k] == #[trigger] e[k] by {
        assert(s.subrange(p, p + e.len())[k] == s[p + k]);
    }
    if d.len() == 0 {
        assert(e[0] == END);
        assert(s[p] == e[0]);
        assert(acc + d =~= acc);
    } else {
        let k0 = d[0].0;
        let v0 = d[0].1;
        let kb = encode_utf8(k0);
        let key = byte_string_text(kb);
        let val = encode_value(v0);
        let rest = encode_entries(d.drop_first());
        lemma_int_text(kb.len() as int);
        assert(e[0] == key[0]);
        assert(s[p] == e[0]);
        assert(s.subrange(p, p + key.len()) =~= key) by {
            assert forall|k: int| 0 <= k < key.len() implies s.subrange(p, p + key.len())[k]
                == key[k] by {
                assert(s[p + k] == e[k]);
            }
        }
        lemma_parse_byte_string_text(s, p, kb);
        encode_utf8_valid_utf8(k0);
        encode_utf8_decode_utf8(k0);
        assert(parse_str(s, p) == Ok::<(Seq<char>, int), (crate::bencode::grammar::DecodeFailure, int)>(
            (k0, p + key.len()),
        ));
        let q = p + key.len();
        lemma_encode_first(v0);
        assert(s.subrange(q, q + val.len()) =~= val) by {
            assert forall|k: int| 0 <= k < val.len() implies s.subrange(q, q + val.len())[k]
                == val[k] by {
                assert(s[q + k] == e[key.len() + k]);
            }
        }
        lemma_parse_encoded(v0, s, q);
        let r = q + val.len();
        assert(s.subrange(r, r + rest.len() + 1) =~= rest + seq![END]) by {
            assert forall|k: int| 0 <= k < rest.len() + 1 implies s.subrange(r, r + rest.len() + 1)[k]
                == (rest + seq![END])[k] by {
                assert(s[r + k] == e[key.len() + val.len() + k]);
            }
        }
        assert forall|i: int| 0 <= i < acc.len() implies str_lt(#[trigger] acc[i].0, k0) by {
            assert((acc + d)[i] == acc[i]);
            assert((acc + d)[acc.len() as int] == d[0]);
        }
        if acc.len() > 0 {
            assert(str_lt(acc.last().0, k0));
        }
        let acc2 = acc.push((k0, v0));
        assert(acc2 + d.drop_first() =~= acc + d);
        lemma_parse_encoded_entries(d.drop_first(), s, r, acc2);
    }
}

/// Decoding the encoding of a well formed value gives the value back, and
/// stops at the end of the encoding.
pub proof fn lemma_decode_encode(v: BValue)
    requires
        wf_value(v),
    ensures
        parse_value(encode_value(v), 0) == Ok::<(BValue, int), (crate::bencode::grammar::DecodeFailure, int)>(
            (v, encode_value(v).len() as int),
        ),
{
    let e = encode_value(v);
    assert(e.subrange(0, e.len() as int) =~= e);
    lemma_parse_encoded(v, e, 0);
}

/// Decoding the bytes that encoding a well formed `Value` writes gives the
/// same value back, and reads every byte.
pub proof fn lemma_value_encode_decode(v: Value)
    requires
        wf_value(v@),
    ensures
        <Value as DecodeTo>::spec_decode(v.spec_encode(), 0) == Ok::<
            (BValue, int),
            (crate::bencode::grammar::DecodeFailure, int),
        >((v.deep_view(), v.spec_encode().len() as int)),
{
    lemma_decode_encode(v@);
}

/// Looking a key up right after inserting it finds the inserted value.
pub proof fn lemma_lookup_insert_same<V>(d: Seq<(Seq<char>, V)>, k: Seq<char>, v: V)
    ensures
        dict_lookup(dict_insert(d, k, v), k) == Some(v),
    decreases d.len(),
{
    if d.len() > 0 && d[0].0 != k && !str_lt(k, d[0].0) {
        lemma_lookup_insert_same(d.drop_first(), k, v);
        assert((seq![d[0]] + dict_insert(d.drop_first(), k, v)).drop_first() =~= dict_insert(
            d.drop_first(),
            k,
            v,
        ));
    }
}

/// Inserting a key leaves the lookup of every other key as it was.
pub proof fn lemma_lookup_insert_other<V>(d: Seq<(Seq<char>, V)>, k: Seq<char>, v: V, other: Seq<char>)
    requires
        other != k,
    ensures
        dict_lookup(dict_insert(d, k, v), other) == dict_lookup(d, other),
    decreases d.len(),
{
    if d.len() == 0 {
        assert(seq![(k, v)].drop_first() =~= Seq::<(Seq<char>, V)>::empty());
        assert(dict_lookup(Seq::<(Seq<char>, V)>::empty(), other) is None);
    } else if d[0].0 == k {
        assert((seq![(k, v)] + d.drop_first()).drop_first() =~= d.drop_first());
        assert(dict_lookup(d, other) == dict_lookup(d.drop_first(), other));
    } else if str_lt(k, d[0].0) {
        assert((seq![(k, v)] + d).drop_first() =~= d);
    } else {
        lemma_lookup_insert_other(d.drop_first(), k, v, other);
        assert((seq![d[0]] + dict_insert(d.drop_first(), k, v)).drop_first() =~= dict_insert(
            d.drop_first(),
            k,
            v,
        ));
    }
}

/// Every integer type reads back from the value that it becomes, whatever
/// the width and sign.
pub proof fn lemma_integer_round_trip(
    a: u8,
    b: u16,
    c: u32,
    d: u64,
    e: usize,
    f: i8,
    g: i16,
    h: i32,
    i: i64,
    j: isize,
)
    ensures
        <u8 as FromValue>::spec_from_value(<u8 as IntoValue>::spec_into_value(a)) == Ok::<
            u8,
            crate::bencode::grammar::DecodeFailure,
        >(a),
        <u16 as FromValue>::spec_from_value(<u16 as IntoValue>::spec_into_value(b)) == Ok::<
            u16,
            crate::bencode::grammar::DecodeFailure,
        >(b),
        <u32 as FromValue>::spec_from_value(<u32 as IntoValue>::spec_into_value(c)) == Ok::<
            u32,
            crate::bencode::grammar::DecodeFailure,
        >(c),
        <u64 as FromValue>::spec_from_value(<u64 as IntoValue>::spec_into_value(d)) == Ok::<
            u64,
            crate::bencode::grammar::DecodeFailure,
        >(d),
        <usize as FromValue>::spec_from_value(<usize as IntoValue>::spec_into_value(e)) == Ok::<
            usize,
            crate::bencode::grammar::DecodeFailure,
        >(e),
        <i8 as FromValue>::spec_from_value(<i8 as IntoValue>::spec_into_value(f)) == Ok::<
            i8,
            crate::bencode::grammar::DecodeFailure,
        >(f),
        <i16 as FromValue>::spec_from_value(<i16 as IntoValue>::spec_into_value(g)) == Ok::<
            i16,
            crate::bencode::grammar::DecodeFailure,
        >(g),
        <i32 as FromValue>::spec_from_value(<i32 as IntoValue>::spec_into_value(h)) == Ok::<
            i32,
            crate::bencode::grammar::DecodeFailure,
        >(h),
        <i64 as FromValue>::spec_from_value(<i64 as IntoValue>::spec_into_value(i)) == Ok::<
            i64,
            crate::bencode::grammar::DecodeFailure,
        >(i),
        <isize as FromValue>::spec_from_value(<isize as IntoValue>::spec_into_value(j)) == Ok::<
            isize,
            crate::bencode::grammar::DecodeFailure,
        >(j),
{
    assert((a as i64) as u8 == a) by (bit_vector);
    assert((b as i64) as u16 == b) by (bit_vector);
    assert((c as i64) as u32 == c) by (bit_vector);
    assert((d as i64) as u64 == d) by (bit_vector);
    assert((e as i64) as usize == e) by (bit_vector);
    assert((f as i64) as i8 == f) by (bit_vector);
    assert((g as i64) as i16 == g) by (bit_vector);
    assert((h as i64) as i32 == h) by (bit_vector);
    assert((j as i64) as isize == j) by (bit_vector);
}

/// A string reads back from the value that it becomes.
pub proof fn lemma_string_round_trip(s: Seq<char>)
    ensures
        <String as FromValue>::spec_from_value(<String as IntoValue>::spec_into_value(s)) == Ok::<
            Seq<char>,
            crate::bencode::grammar::DecodeFailure,
        >(s),
{
}

/// The bytes of a list of hashes, split again into hashes.
proof fn lemma_sha1_bytes(l: Seq<Seq<u8>>)
    requires
        forall|i: int| 0 <= i < l.len() ==> (#[trigger] l[i]).len() == 20,
    ensures
        sha1_bytes(l).len() == 20 * l.len(),
        forall|i: int|
            0 <= i < l.len() ==> #[trigger] sha1_bytes(l).subrange(20 * i, 20 * i + 20) == l[i],
    decreases l.len(),
{
    if l.len() > 0 {
        let init = l.drop_last();
        assert forall|i: int| 0 <= i < init.len() implies (#[trigger] init[i]).len() == 20 by {
            assert(init[i] == l[i]);
        }
        lemma_sha1_bytes(init);
        let b = sha1_bytes(l);
        assert(b == sha1_bytes(init) + l.last());
        assert forall|i: int| 0 <= i < l.len() implies #[trigger] b.subrange(20 * i, 20 * i + 20)
            == l[i] by {
            if i < init.len() {
                assert(init[i] == l[i]);
                assert(b.subrange(20 * i, 20 * i + 20) =~= sha1_bytes(init).subrange(20 * i, 20 * i + 20));
            } else {
                assert(b.subrange(20 * i, 20 * i + 20) =~= l.last());
            }
        }
    }
}

/// A list of hashes reads back from the value that it becomes.
pub proof fn lemma_sha1_list_round_trip(l: Seq<Seq<u8>>)
    requires
        forall|i: int| 0 <= i < l.len() ==> (#[trigger] l[i]).len() == 20,
    ensures
        <Vec<Sha1> as FromValue>::spec_from_value(<Vec<Sha1> as IntoValue>::spec_into_value(l))
            == Ok::<Seq<Seq<u8>>, crate::bencode::grammar::DecodeFailure>(l),
{
    lemma_sha1_bytes(l);
    assert(sha1_chunks(sha1_bytes(l)) =~= l);
}

/// A list reads back from the value that it becomes, when its items do.
pub proof fn lemma_list_round_trip<T: FromValue + IntoValue>(l: Seq<<T as DeepView>::V>)
    requires
        forall|x: <T as DeepView>::V|
            #[trigger] T::spec_from_value(T::spec_into_value(x)) == Ok::<
                <T as DeepView>::V,
                crate::bencode::grammar::DecodeFailure,
            >(x),
    ensures
        items_from_value::<T>(items_into_value::<T>(l)) == Ok::<
            Seq<<T as DeepView>::V>,
            crate::bencode::grammar::DecodeFailure,
        >(l),
    decreases l.len(),
{
    let m = items_into_value::<T>(l);
    if l.len() > 0 {
        lemma_list_round_trip::<T>(l.drop_first());
        assert(m.drop_first() =~= items_into_value::<T>(l.drop_first()));
        assert(m[0] == T::spec_into_value(l[0]));
        assert(T::spec_from_value(T::spec_into_value(l[0])) == Ok::<
            <T as DeepView>::V,
            crate::bencode::grammar::DecodeFailure,
        >(l[0]));
        assert(seq![l[0]] + l.drop_first() =~= l);
    } else {
        assert(m.len() == 0);
        assert(l =~= Seq::<<T as DeepView>::V>::empty());
    }
}

/// Skipping a well formed value where its encoding stands passes exactly
/// over the encoding.
pub proof fn lemma_skip_encoded(v: BValue, s: Seq<u8>, p: int)
    requires
        wf_value(v),
        0 <= p,
        p + encode_value(v).len() <= s.len(),
        s.subrange(p, p + encode_value(v).len()) == encode_value(v),
    ensures
        skip_value(s, p) == Ok::<int, (crate::bencode::grammar::DecodeFailure, int)>(
            p + encode_value(v).len(),
        ),
    decreases v,
{
    let e = encode_value(v);
    assert forall|k: int| 0 <= k < e.len() implies s[p + k] == #[trigger] e[k] by {
        assert(s.subrange(p, p + e.len())[k] == s[p + k]);
    }
    match v {
        BValue::Int(i) => {
            let t = int_text(i);
            lemma_int_text(i);
            assert(e[0] == INT_START);
            assert(s[p] == e[0]);
            let q = p + 1 + t.len();
            assert forall|k: int| p + 1 <= k < q implies is_number_byte(#[trigger] s[k]) by {
                assert(s[k] == e[k - p]);
                assert(e[k - p] == t[k - p - 1]);
            }
            assert(s[q] == e[1 + t.len() as int]);
            assert(e[1 + t.len() as int] == END);
            lemma_number_run_end(s, p + 1, q);
        },
        BValue::Bytes(b) => {
            lemma_int_text(b.len() as int);
            assert(e[0] == int_text(b.len() as int)[0]);
            assert(s[p] == e[0]);
            lemma_parse_byte_string_text(s, p, b);
        },
        BValue::Str(cs) => {
            let b = encode_utf8(cs);
            lemma_int_text(b.len() as int);
            assert(e[0] == int_text(b.len() as int)[0]);
            assert(s[p] == e[0]);
            lemma_parse_byte_string_text(s, p, b);
        },
        BValue::List(l) => {
            let items = encode_items(l);
            assert(e[0] == LIST_START);
            assert(s[p] == e[0]);
            assert(s.subrange(p + 1, p + 1 + items.len() + 1) =~= items + seq![END]) by {
                assert forall|k: int| 0 <= k < items.len() + 1 implies s.subrange(
                    p + 1,
                    p + 1 + items.len() + 1,
                )[k] == (items + seq![END])[k] by {
                    assert(s[p + 1 + k] == e[1 + k]);
                }
            }
            lemma_skip_encoded_items(l, s, p + 1);
        },
        BValue::Dict(d) => {
            let entries = encode_entries(d);
            assert(e[0] == DICT_START);
            assert(s[p] == e[0]);
            assert(s.subrange(p + 1, p + 1 + entries.len() + 1) =~= entries + seq![END]) by {
                assert forall|k: int| 0 <= k < entries.len() + 1 implies s.subrange(
                    p + 1,
                    p + 1 + entries.len() + 1,
                )[k] == (entries + seq![END])[k] by {
                    assert(s[p + 1 + k] == e[1 + k]);
                }
            }
            lemma_skip_encoded_entries(d, s, p + 1);
        },
    }
}

/// Skipping encoded list items passes over them and the closing `e`.
pub proof fn lemma_skip_encoded_items(l: Seq<BValue>, s: Seq<u8>, p: int)
    requires
        wf_items(l),
        0 <= p,
        p + encode_items(l).len() + 1 <= s.len(),
        s.subrange(p, p + encode_items(l).len() + 1) == encode_items(l) + seq![END],
    ensures
        skip_items(s, p) == Ok::<int, (crate::bencode::grammar::DecodeFailure, int)>(
            p + encode_items(l).len() + 1,
        ),
    decreases l,
{
    let e = encode_items(l) + seq![END];
    assert forall|k: int| 0 <= k < e.len() implies s[p + k] == #[trigger] e[k] by {
        assert(s.subrange(p, p + e.len())[k] == s[p + k]);
    }
    if l.len() == 0 {
        assert(e[0] == END);
        assert(s[p] == e[0]);
    } else {
        let first = encode_value(l[0]);
        let rest = encode_items(l.drop_first());
        lemma_encode_first(l[0]);
        assert(e[0] == first[0]);
        assert(s[p] == e[0]);
        assert(s.subrange(p, p + first.len()) =~= first) by {
            assert forall|k: int| 0 <= k < first.len() implies s.subrange(p, p + first.len())[k]
                == first[k] by {
                assert(s[p + k] == e[k]);
            }
        }
        lemma_skip_encoded(l[0], s, p);
        let q = p + first.len();
        assert(s.subrange(q, q + rest.len() + 1) =~= rest + seq![END]) by {
            assert forall|k: int| 0 <= k < rest.len() + 1 implies s.subrange(q, q + rest.len() + 1)[k]
                == (rest + seq![END])[k] by {
                assert(s[q + k] == e[first.len() + k]);
            }
        }
        lemma_skip_encoded_items(l.drop_first(), s, q);
    }
}

/// Skipping encoded dictionary entries passes over them and the closing
/// `e`.
pub proof fn lemma_skip_encoded_entries(d: Seq<(Seq<char>, BValue)>, s: Seq<u8>, p: int)
    requires
        wf_entries(d),
        0 <= p,
        p + encode_entries(d).len() + 1 <= s.len(),
        s.subrange(p, p + encode_entries(d).len() + 1) == encode_entries(d) + seq![END],
    ensures
        skip_pairs(s, p) == Ok::<int, (crate::bencode::grammar::DecodeFailure, int)>(
            p + encode_entries(d).len() + 1,
        ),
    decreases d,
{
    let e = encode_entries(d) + seq![END];
    assert forall|k: int| 0 <= k < e.len() implies s[p + k] == #[trigger] e[k] by {
        assert(s.subrange(p, p + e.len())[k] == s[p + k]);
    }
    if d.len() == 0 {
        assert(e[0] == END);
        assert(s[p] == e[0]);
    } else {
        let k0 = d[0].0;
        let v0 = d[0].1;
        let kb = encode_utf8(k0);
        let key = byte_string_text(kb);
        let val = encode_value(v0);
        let rest = encode_entries(d.drop_first());
        lemma_int_text(kb.len() as int);
        assert(key[0] == int_text(kb.len() as int)[0]);
        assert(e[0] == key[0]);
        assert(s[p] == e[0]);
        assert(s.subrange(p, p + key.len()) =~= key) by {
            assert forall|k: int| 0 <= k < key.len() implies s.subrange(p, p + key.len())[k]
                == key[k] by {
                assert(s[p + k] == e[k]);
            }
        }
        lemma_parse_byte_string_text(s, p, kb);
        let q = p + key.len();
        assert(is_digit(s[p]));
        assert(skip_value(s, p) == Ok::<int, (crate::bencode::grammar::DecodeFailure, int)>(q));
        assert(encode_entries(d) == key + val + rest);
        lemma_encode_first(v0);
        assert(s.subrange(q, q + val.len()) =~= val) by {
            assert forall|k: int| 0 <= k < val.len() implies s.subrange(q, q + val.len())[k]
                == val[k] by {
                assert(s[q + k] == e[key.len() + k]);
            }
        }
        lemma_skip_encoded(v0, s, q);
        let r = q + val.len();
        assert(s.subrange(r, r + rest.len() + 1) =~= rest + seq![END]) by {
            assert forall|k: int| 0 <= k < rest.len() + 1 implies s.subrange(r, r + rest.len() + 1)[k]
                == (rest + seq![END])[k] by {
                assert(s[r + k] == e[key.len() + val.len() + k]);
            }
        }
        lemma_skip_encoded_entries(d.drop_first(), s, r);
        assert(skip_value(s, q) == Ok::<int, (crate::bencode::grammar::DecodeFailure, int)>(r));
        assert(r + rest.len() + 1 == p + encode_entries(d).len() + 1);
    }
}

/// A key that a lookup finds is the key of some entry.
proof fn lemma_lookup_found<V>(d: Seq<(Seq<char>, V)>, k: Seq<char>)
    requires
        dict_lookup(d, k) is Some,
    ensures
        exists|j: int| 0 <= j < d.len() && (#[trigger] d[j]).0 == k,
    decreases d.len(),
{
    if d[0].0 != k {
        lemma_lookup_found(d.drop_first(), k);
        let j = choose|j: int| 0 <= j < d.drop_first().len() && (#[trigger] d.drop_first()[j]).0 == k;
        assert(d[j + 1] == d.drop_first()[j]);
    }
}

/// Looking for a string field among encoded dictionary entries, in key
/// order, finds the string stored under that key.
pub proof fn lemma_field_of_encoded_str(
    d: Seq<(Seq<char>, BValue)>,
    s: Seq<u8>,
    p: int,
    start: int,
    name: Seq<char>,
    a: Seq<char>,
)
    requires
        wf_entries(d),
        keys_sorted(d),
        0 <= p,
        p + encode_entries(d).len() + 1 <= s.len(),
        s.subrange(p, p + encode_entries(d).len() + 1) == encode_entries(d) + seq![END],
        dict_lookup(d, name) == Some(BValue::Str(a)),
    ensures
        field_of::<String>(s, p, start, name) matches Ok((x, _)) && x == a,
    decreases d,
{
    let e = encode_entries(d) + seq![END];
    assert forall|k: int| 0 <= k < e.len() implies s[p + k] == #[trigger] e[k] by {
        assert(s.subrange(p, p + e.len())[k] == s[p + k]);
    }
    let k0 = d[0].0;
    let v0 = d[0].1;
    let kb = encode_utf8(k0);
    let key = byte_string_text(kb);
    let val = encode_value(v0);
    let rest = encode_entries(d.drop_first());
    assert(encode_entries(d) == key + val + rest);
    lemma_int_text(kb.len() as int);
    assert(key[0] == int_text(kb.len() as int)[0]);
    assert(e[0] == key[0]);
    assert(s[p] == e[0]);
    assert(s.subrange(p, p + key.len()) =~= key) by {
        assert forall|k: int| 0 <= k < key.len() implies s.subrange(p, p + key.len())[k] == key[k] by {
            assert(s[p + k] == e[k]);
        }
    }
    lemma_parse_byte_string_text(s, p, kb);
    encode_utf8_valid_utf8(k0);
    encode_utf8_decode_utf8(k0);
    let q = p + key.len();
    assert(parse_str(s, p) == Ok::<(Seq<char>, int), (crate::bencode::grammar::DecodeFailure, int)>(
        (k0, q),
    ));
    lemma_encode_first(v0);
    assert(s.subrange(q, q + val.len()) =~= val) by {
        assert forall|k: int| 0 <= k < val.len() implies s.subrange(q, q + val.len())[k] == val[k] by {
            assert(s[q + k] == e[key.len() + k]);
        }
    }
    if k0 == name {
        assert(v0 == BValue::Str(a));
        lemma_parse_encoded(v0, s, q);
    } else {
        lemma_lookup_found(d, name);
        let j = choose|j: int| 0 <= j < d.len() && (#[trigger] d[j]).0 == name;
        assert(j != 0);
        assert(str_lt(d[0].0, d[j].0));
        lemma_skip_encoded(v0, s, q);
        let r = q + val.len();
        assert(s.subrange(r, r + rest.len() + 1) =~= rest + seq![END]) by {
            assert forall|k: int| 0 <= k < rest.len() + 1 implies s.subrange(r, r + rest.len() + 1)[k]
                == (rest + seq![END])[k] by {
                assert(s[r + k] == e[key.len() + val.len() + k]);
            }
        }
        assert forall|i: int, k: int| 0 <= i < k < d.drop_first().len() implies str_lt(
            #[trigger] d.drop_first()[i].0,
            #[trigger] d.drop_first()[k].0,
        ) by {
            assert(d.drop_first()[i] == d[i + 1]);
            assert(d.drop_first()[k] == d[k + 1]);
        }
        lemma_field_of_encoded_str(d.drop_first(), s, r, start, name, a);
    }
}

} // verus!
