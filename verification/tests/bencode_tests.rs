use rustorrent::bencode::decode::{DecodeError, DecodeTo, Decoder};
use rustorrent::bencode::encode::{EncodeTo, Encoder};
use rustorrent::bencode::hash::{swap_to_head, to_hex, Sha1};
use rustorrent::bencode::value::{FromValue, IntoValue, Value};

fn decode_value(bytes: &[u8]) -> Result<Value, DecodeError> {
    let mut d = Decoder::new(bytes);
    Value::decode(&mut d)
}

fn encode_value(v: &Value) -> Vec<u8> {
    let mut e = Encoder::new();
    v.encode(&mut e).unwrap();
    e.into_bytes()
}

#[test]
fn value_from_value() {
    let v = Value::Integer(4194304i64);
    let f: usize = FromValue::from_value(&v).unwrap();
    assert_eq!(f, 4194304);

    let bytes = vec![b'5', b'1'];
    let v = Value::Bytes(bytes);
    let f: String = FromValue::from_value(&v).unwrap();
    assert_eq!(f, "51");

    let values = vec![Value::Integer(1), Value::Integer(2)];
    let v = Value::List(values);
    let f: Vec<u8> = FromValue::from_value(&v).unwrap();
    assert_eq!(f[1], 2);
}

#[test]
fn list_test() {
    let mut list = ["1", "2", "3"];
    swap_to_head(&mut list, 0);
    assert_eq!(list, ["1", "2", "3"]);

    swap_to_head(&mut list, 1);
    assert_eq!(list, ["2", "1", "3"]);

    swap_to_head(&mut list, 2);
    assert_eq!(list, ["3", "2", "1"]);
}

#[test]
fn hash_test() {
    let hash = Sha1([(16 * 16 - 1) as u8; 20]);
    assert_eq!(hash.to_hex(), String::from_utf8(vec![b'f'; 40]).unwrap());

    let vec = [(16 * 16 - 1) as u8; 60].to_vec();
    let sha1_vec = Sha1::to_sha1list(&vec);
    assert_eq!(sha1_vec, vec![hash.clone(); 3]);
}

#[test]
fn sha1_list_drops_short_tail() {
    let bytes: Vec<u8> = (0u8..45).collect();
    let list = Sha1::to_sha1list(&bytes);
    assert_eq!(list.len(), 2);
    assert_eq!(list[1].0[0], 20);
    assert_eq!(list[1].0[19], 39);
}

#[test]
fn sha1_known_digest() {
    let hash = Sha1::calculate_sha1(b"abc");
    assert_eq!(hash.to_hex(), "a9993e364706816aba3e25717850c26c9cd0d89d");
    let empty = Sha1::calculate_sha1(b"");
    assert_eq!(empty.to_hex(), "da39a3ee5e6b4b0d3255bfef95601890afd80709");
}

#[test]
fn hex_of_bytes() {
    assert_eq!(to_hex(&[0x00, 0x0f, 0xa5, 0xff]), "000fa5ff");
    assert_eq!(to_hex(&[]), "");
}

#[test]
fn decode_integer_and_strings() {
    assert_eq!(decode_value(b"i42e"), Ok(Value::Integer(42)));
    assert_eq!(decode_value(b"i-7e"), Ok(Value::Integer(-7)));
    assert_eq!(decode_value(b"4:spam"), Ok(Value::String("spam".to_string())));
    assert_eq!(decode_value(b"2:\xff\xfe"), Ok(Value::Bytes(vec![0xff, 0xfe])));
}

#[test]
fn decode_list_and_dict() {
    let v = decode_value(b"l4:spami3ee").unwrap();
    assert_eq!(v, Value::List(vec![Value::String("spam".to_string()), Value::Integer(3)]));
    let d = decode_value(b"d3:cow3:moo4:spam4:eggse").unwrap();
    assert_eq!(
        d,
        Value::Dict(vec![
            ("cow".to_string(), Value::String("moo".to_string())),
            ("spam".to_string(), Value::String("eggs".to_string())),
        ])
    );
}

#[test]
fn decode_dict_refuses_unordered_keys() {
    assert_eq!(decode_value(b"d1:bi2e1:ai1ee"), Err(DecodeError::InvalidDict));
    assert_eq!(decode_value(b"d1:ai2e1:ai1ee"), Err(DecodeError::InvalidDict));
    let d = decode_value(b"d1:ai1e1:bi2ee").unwrap();
    assert_eq!(
        d,
        Value::Dict(vec![("a".to_string(), Value::Integer(1)), ("b".to_string(), Value::Integer(2))])
    );
    let mut dec = Decoder::new(b"d1:bi1e1:ai2ee");
    assert_eq!(dec.read_dict::<i64>(), Err(DecodeError::InvalidDict));
    let mut dec = Decoder::new(b"d1:ai1e1:ai2ee");
    assert_eq!(dec.read_dict::<i64>(), Err(DecodeError::InvalidDict));
}

#[test]
fn decode_errors() {
    assert_eq!(decode_value(b""), Err(DecodeError::Eof));
    assert_eq!(decode_value(b"x"), Err(DecodeError::InvalidByte(b'x')));
    assert_eq!(decode_value(b"i03e"), Err(DecodeError::InvalidNumber));
    assert_eq!(decode_value(b"i-0e"), Err(DecodeError::InvalidNumber));
    assert_eq!(decode_value(b"i12"), Err(DecodeError::Eof));
    assert_eq!(decode_value(b"5:ab"), Err(DecodeError::Eof));
    assert_eq!(
        decode_value(b"i1x"),
        Err(DecodeError::UnexpectedByte { expected: b'e', found: b'x' })
    );
}

#[test]
fn encode_then_decode_gives_value_back() {
    let v = Value::Dict(vec![
        ("a".to_string(), Value::List(vec![Value::Integer(-12), Value::Bytes(vec![0xff, 0x00])])),
        ("b".to_string(), Value::String("x y".to_string())),
    ]);
    let bytes = encode_value(&v);
    assert_eq!(bytes, b"d1:ali-12e2:\xff\x00e1:b3:x ye".to_vec());
    assert_eq!(decode_value(&bytes), Ok(v));
}

#[test]
fn decoder_basics() {
    let data = b"4:spami5e";
    let mut d = Decoder::new(data);
    assert_eq!(d.remaining(), 9);
    assert_eq!(d.peek_byte(), Ok(b'4'));
    assert_eq!(d.read_str(), Ok("spam".to_string()));
    assert_eq!(d.read_integer::<u8>(), Ok(5));
    assert_eq!(d.remaining(), 0);
    assert_eq!(d.read_byte(), Err(DecodeError::Eof));
    assert_eq!(d.finish(), Ok(()));

    let mut d = Decoder::new(b"ab");
    assert_eq!(d.finish(), Err(DecodeError::ExtraneousData));

    let mut d = Decoder::new(b"i300e");
    assert_eq!(d.read_integer::<u8>(), Err(DecodeError::InvalidNumber));

    let mut d = Decoder::new(b"l1:ai1ee");
    d.skip_item().unwrap();
    assert_eq!(d.remaining(), 0);
}

#[test]
fn decoder_fields() {
    let data = b"d1:ai1e1:bi2e1:ci3ee";
    let mut d = Decoder::new(data);
    d.expect(b'd').unwrap();
    let b: i64 = d.read_field("b").unwrap();
    assert_eq!(b, 2);
    let missing: Option<i64> = d.read_option("bb").unwrap();
    assert_eq!(missing, None);
    let c: i64 = d.read_field("c").unwrap();
    assert_eq!(c, 3);

    let mut d = Decoder::new(b"d1:ai1ee");
    d.expect(b'd').unwrap();
    let r: Result<i64, DecodeError> = d.read_field("z");
    assert_eq!(r, Err(DecodeError::MissingField("z".to_string())));

    let mut d = Decoder::new(b"d1:lli1ee1:lli2eee");
    d.expect(b'd').unwrap();
    let all: Option<Vec<i64>> = d.read_field_combine("l").unwrap();
    assert_eq!(all, Some(vec![1, 2]));

    let mut d = Decoder::new(b"d1:ki1e1:ki2ee");
    d.expect(b'd').unwrap();
    let last: i64 = d.read_last_field("k").unwrap();
    assert_eq!(last, 2);
}

#[test]
fn encoder_writes() {
    let mut e = Encoder::new();
    e.write_integer(-5i32).unwrap();
    e.write_bytes(&[1, 2]).unwrap();
    e.write_str("hi").unwrap();
    e.write_list(&[Value::Integer(1)]).unwrap();
    assert_eq!(e.into_bytes(), b"i-5e2:\x01\x022:hili1ee".to_vec());
}

#[test]
fn encoder_writes_dict_and_appends() {
    let mut e = Encoder::new();
    e.write_byte(b'x').unwrap();
    e.write_dict(&vec![("a".to_string(), Value::Integer(1)), ("b".to_string(), Value::Integer(2))])
        .unwrap();
    e.write(b"yz").unwrap();
    assert_eq!(e.into_bytes(), b"xd1:ai1e1:bi2eeyz".to_vec());
}

#[test]
fn getters() {
    let v = decode_value(b"d4:name3:abc4:sizei7ee").unwrap();
    assert_eq!(v.get_value("size"), Ok(&Value::Integer(7)));
    assert_eq!(v.get_value("none"), Err(DecodeError::MissingField("none".to_string())));
    assert_eq!(v.get_option_value("none"), Ok(None));
    let name: String = v.get_field("name").unwrap();
    assert_eq!(name, "abc");
    let size: Option<u32> = v.get_option_field("size").unwrap();
    assert_eq!(size, Some(7));
    let bad: Result<String, DecodeError> = v.get_field("size");
    assert_eq!(bad, Err(DecodeError::ExtraneousData));
    assert_eq!(Value::Integer(1).get_value("x"), Err(DecodeError::InvalidDict));
}

#[test]
fn into_value_then_from_value() {
    let v = (-3i8).into_value();
    let back: i8 = FromValue::from_value(&v).unwrap();
    assert_eq!(back, -3);
    let v = u64::MAX.into_value();
    assert_eq!(v, Value::Integer(-1));
    let back: u64 = FromValue::from_value(&v).unwrap();
    assert_eq!(back, u64::MAX);
    let list = vec!["a".to_string(), "bc".to_string()];
    let v = list.clone().into_value();
    let back: Vec<String> = FromValue::from_value(&v).unwrap();
    assert_eq!(back, list);
    let hashes = vec![Sha1([1; 20]), Sha1([2; 20])];
    let v = hashes.clone().into_value();
    let back: Vec<Sha1> = FromValue::from_value(&v).unwrap();
    assert_eq!(back, hashes);
}

#[test]
fn string_from_invalid_utf8() {
    let r: Result<String, DecodeError> = FromValue::from_value(&Value::Bytes(vec![0xff]));
    assert_eq!(r, Err(DecodeError::InvalidUtf8));
    let r: Result<String, DecodeError> = FromValue::from_value(&Value::Integer(1));
    assert_eq!(r, Err(DecodeError::ExtraneousData));
}

#[test]
fn value_text_rendering() {
    assert_eq!(Value::Integer(-12).to_text(), "-12");
    assert_eq!(Value::String("abc".to_string()).to_text(), "abc");
    let list = Value::List(vec![Value::Integer(1), Value::String("a".to_string())]);
    assert_eq!(list.to_text(), "List(\n\t\t1\n\t\ta\n\t)\n");
    let dict = Value::Dict(vec![("k".to_string(), Value::Integer(7))]);
    assert_eq!(dict.to_text(), "Dict(\n\t\tk: 7\n\t)\n");
    let mut bytes = vec![0xabu8; 20];
    bytes.extend(vec![1u8; 25]);
    let expected = format!("(\n{}\n{}\n)\n", "ab".repeat(20), "01".repeat(20));
    assert_eq!(Value::Bytes(bytes).to_text(), expected);
}

#[test]
fn decode_error_text() {
    assert_eq!(DecodeError::Eof.to_text(), "unexpected end-of-file");
    assert_eq!(DecodeError::ExtraneousData.to_text(), "extraneous data");
    assert_eq!(DecodeError::InvalidByte(200).to_text(), "invalid byte 200");
    assert_eq!(DecodeError::InvalidDict.to_text(), "invalid dict");
    assert_eq!(DecodeError::InvalidNumber.to_text(), "invalid number");
    assert_eq!(DecodeError::InvalidUtf8.to_text(), "invalid utf-8");
    assert_eq!(
        DecodeError::MissingField("info".to_string()).to_text(),
        "missing field: info"
    );
    assert_eq!(
        DecodeError::UnexpectedByte { expected: b'e', found: b'x' }.to_text(),
        "expected byte 'e', found 'x'"
    );
}

#[test]
fn decode_error_text_quotes_like_debug() {
    for b in 0..=255u8 {
        let e = DecodeError::UnexpectedByte { expected: b, found: b':' };
        assert_eq!(
            e.to_text(),
            format!("expected byte {:?}, found {:?}", b as char, ':'),
            "byte {}",
            b
        );
    }
}
