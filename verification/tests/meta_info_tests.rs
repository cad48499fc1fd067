use rustorrent::base::meta_info::{FileInfo, Info, MultiInfo, SingleInfo, TorrentMetaInfo};
use rustorrent::bencode::decode::{DecodeError, DecodeTo, Decoder};
use rustorrent::bencode::encode::{EncodeTo, Encoder};
use rustorrent::bencode::hash::Sha1;
use rustorrent::bencode::value::{FromValue, IntoValue};

fn single_torrent() -> Vec<u8> {
    let mut t = Vec::new();
    t.extend_from_slice(b"d8:announce12:http://t/ann13:announce-listll12:http://t/annee");
    t.extend_from_slice(b"4:infod6:lengthi20e4:name5:hello12:piece lengthi16384e6:pieces20:");
    t.extend_from_slice(&[0xff; 20]);
    t.extend_from_slice(b"ee");
    t
}

fn multi_torrent() -> Vec<u8> {
    let mut t = Vec::new();
    t.extend_from_slice(b"d8:announce12:http://t/ann13:announce-listll12:http://t/annee");
    t.extend_from_slice(b"4:infod5:filesld6:lengthi10e4:pathl1:a1:beed6:lengthi30e4:pathl1:ceee");
    t.extend_from_slice(b"4:name3:dir12:piece lengthi32e6:pieces40:");
    t.extend_from_slice(&[0xfe; 40]);
    t.extend_from_slice(b"ee");
    t
}

#[test]
fn meta_info_it_works() {
    assert_eq!(2 + 2, 4);
}

#[test]
fn parse_single_file_torrent() {
    let bytes = single_torrent();
    let m = TorrentMetaInfo::parse(&bytes);
    assert_eq!(m.announce.as_deref(), Some("http://t/ann"));
    assert_eq!(m.announce_list, Some(vec![vec!["http://t/ann".to_string()]]));
    assert_eq!(m.piece_length(), 16384);
    assert_eq!(m.num_pieces(), 1);
    assert_eq!(m.length(), 20);
    assert_eq!(m.pieces(), &[Sha1([0xff; 20])]);
    match &m.info {
        Info::Single(s) => {
            assert_eq!(s.name, "hello");
            assert_eq!(s.md5sum, None);
        }
        Info::Multi(_) => panic!("expected a single-file torrent"),
    }
}

#[test]
fn parse_multi_file_torrent() {
    let m = TorrentMetaInfo::try_parse(&multi_torrent()).unwrap();
    assert_eq!(m.length(), 40);
    assert_eq!(m.num_pieces(), 2);
    assert_eq!(m.piece_length(), 32);
    match &m.info {
        Info::Multi(mi) => {
            assert_eq!(mi.files.len(), 2);
            assert_eq!(mi.files[0].path, vec!["a".to_string(), "b".to_string()]);
            assert_eq!(mi.files[1].length, 30);
            assert_eq!(mi.name, "dir");
        }
        Info::Single(_) => panic!("expected a multi-file torrent"),
    }
}

#[test]
fn decode_to_agrees_with_value_path() {
    let bytes = single_torrent();
    let mut d = Decoder::new(&bytes);
    let m = TorrentMetaInfo::decode(&mut d).unwrap();
    assert_eq!(d.remaining(), 0);
    assert_eq!(m.length(), 20);
    assert_eq!(m.announce_list, Some(vec![vec!["http://t/ann".to_string()]]));
}

#[test]
fn parse_errors() {
    assert_eq!(TorrentMetaInfo::try_parse(b"i1e").err(), Some(DecodeError::InvalidDict));
    assert_eq!(
        TorrentMetaInfo::try_parse(b"de").err(),
        Some(DecodeError::MissingField("info".to_string()))
    );
    assert_eq!(TorrentMetaInfo::try_parse(b"d").err(), Some(DecodeError::Eof));
}

#[test]
fn info_hash_is_hash_of_encoded_info() {
    let m = TorrentMetaInfo::parse(&single_torrent());
    let mut expected_bytes = b"d6:lengthi20e4:name5:hello12:piece lengthi16384e6:pieces20:".to_vec();
    expected_bytes.extend_from_slice(&[0xff; 20]);
    expected_bytes.push(b'e');
    assert_eq!(m.info_hash(), Sha1::calculate_sha1(&expected_bytes));

    let mut hasher = crypto::sha1::Sha1::new();
    crypto::digest::Digest::input(&mut hasher, &expected_bytes);
    let mut out = [0u8; 20];
    crypto::digest::Digest::result(&mut hasher, &mut out);
    assert_eq!(m.info_hash().0, out);
}

#[test]
fn meta_info_round_trip_through_value() {
    let info = Info::Multi(MultiInfo {
        files: vec![FileInfo { length: 5, md5sum: Some("x".to_string()), path: vec!["p".to_string()] }],
        name: "n".to_string(),
        piece_length: 8,
        pieces: vec![Sha1([7; 20])],
    });
    let m = TorrentMetaInfo {
        info,
        announce: Some("a".to_string()),
        announce_list: None,
        creation_date: None,
        comment: Some("c".to_string()),
        created_by: None,
        encoding: None,
    };
    let v = m.into_value();
    let back = TorrentMetaInfo::from_value(&v).unwrap();
    assert_eq!(back.announce.as_deref(), Some("a"));
    assert_eq!(back.comment.as_deref(), Some("c"));
    assert_eq!(back.created_by, None);
    assert_eq!(back.length(), 5);
    let mut e = Encoder::new();
    v.encode(&mut e).unwrap();
    assert!(e.into_bytes().starts_with(b"d8:announce1:a7:comment1:c4:info"));
}

#[test]
fn announce_returns_announce_url() {
    let mut m = TorrentMetaInfo::parse(&single_torrent());
    assert_eq!(m.announce(), "http://t/ann");
}

#[test]
fn single_info_into_value_keys() {
    let info = Info::Single(SingleInfo {
        length: 3,
        md5sum: None,
        name: "f".to_string(),
        piece_length: 4,
        pieces: vec![],
    });
    let v = info.into_value();
    let back = Info::from_value(&v).unwrap();
    match back {
        Info::Single(s) => {
            assert_eq!(s.length, 3);
            assert_eq!(s.name, "f");
            assert_eq!(s.pieces.len(), 0);
        }
        Info::Multi(_) => panic!("expected a single-file info"),
    }
}
