use rustorrent::base::ipc::Ipc;
use rustorrent::bencode::value::{FromValue, Value};
use rustorrent::peer::bitfield::{bitfield_bytes, bitfield_pieces};
use rustorrent::peer::message::{bytes_to_u32, u32_to_bytes, Message};
use rustorrent::peer::peer::Peer;
use rustorrent::peer::request_queue::{RequestMetadata, RequestQueue};
use rustorrent::peer::session::{Action, PeerSession};

#[test]
fn peer_from_bytes() {
    let bytes: [u8; 6] = [192, 128, 0, 1, 1, 1];
    let peer = Peer::from_bytes(&bytes);

    let ip = "192.128.0.1".to_string();
    assert_eq!(peer.ip, ip);

    let port: u16 = (1 << 8) + 1;
    assert_eq!(peer.port, port);
}

#[test]
fn peer_from_value() {
    let v = Value::Dict(vec![
        ("ip".to_string(), Value::String("10.0.0.2".to_string())),
        ("port".to_string(), Value::Integer(6881)),
    ]);
    let p = Peer::from_value(&v).unwrap();
    assert_eq!(p, Peer { ip: "10.0.0.2".to_string(), port: 6881 });
}

#[test]
fn u32_bytes_round_trip() {
    assert_eq!(u32_to_bytes(0x01020304), vec![1, 2, 3, 4]);
    assert_eq!(bytes_to_u32(&[0, 0, 1, 0]), 256);
    for x in [0u32, 1, 255, 256, 65535, 16777216, u32::MAX] {
        assert_eq!(bytes_to_u32(&u32_to_bytes(x)), x);
    }
}

#[test]
fn message_serialize() {
    assert_eq!(Message::KeepAlive.serialize(), vec![0, 0, 0, 0]);
    assert_eq!(Message::Interested.serialize(), vec![0, 0, 0, 1, 2]);
    assert_eq!(Message::Have(7).serialize(), vec![0, 0, 0, 5, 4, 0, 0, 0, 7]);
    assert_eq!(
        Message::Request(1, 16384, 16384).serialize(),
        vec![0, 0, 0, 13, 6, 0, 0, 0, 1, 0, 0, 64, 0, 0, 0, 64, 0]
    );
    // a piece goes out with the id of a request
    assert_eq!(Message::Piece(1, 2, vec![9]).serialize(), vec![0, 0, 0, 10, 6, 0, 0, 0, 1, 0, 0, 0, 2, 9]);
}

#[test]
fn message_new_reads_back_serialized() {
    let m = Message::Cancel(3, 4, 5).serialize();
    let back = Message::new(&m[4], &m[5..]);
    match back {
        Message::Cancel(a, b, c) => assert_eq!((a, b, c), (3, 4, 5)),
        _ => panic!("expected a cancel"),
    }
    match Message::new(&7, &[0, 0, 0, 1, 0, 0, 0, 2, 8, 9]) {
        Message::Piece(i, o, d) => assert_eq!((i, o, d), (1, 2, vec![8, 9])),
        _ => panic!("expected a piece"),
    }
    match Message::new(&5, &[0xa0]) {
        Message::Bitfield(b) => assert_eq!(b, vec![0xa0]),
        _ => panic!("expected a bitfield"),
    }
}

#[test]
fn bitfield_round_trip() {
    let has = vec![true, false, true, false, false, false, false, false, true];
    let bytes = bitfield_bytes(&has);
    assert_eq!(bytes, vec![0b1010_0000, 0b1000_0000]);
    assert_eq!(bitfield_pieces(&bytes, has.len()), has);
}

#[test]
fn request_queue_operations() {
    let mut q = RequestQueue::new();
    assert!(q.add(1, 2, 32768, 16384));
    assert!(!q.add(1, 2, 0, 1));
    assert!(q.add(1, 3, 49152, 16384));
    assert_eq!(q.len(), 2);
    assert!(q.has(1, 3));
    let r = q.remove(1, 2).unwrap();
    assert_eq!(r, RequestMetadata { piece_index: 1, block_index: 2, offset: 32768, block_length: 16384 });
    assert!(!q.has(1, 2));
    assert_eq!(q.remove(1, 2), None);
    assert_eq!(q.pop().map(|r| r.block_index), Some(3));
    assert_eq!(q.pop(), None);
}

fn sent(actions: &[Action]) -> Vec<String> {
    actions
        .iter()
        .map(|a| match a {
            Action::Send(m) => format!("{:?}", m),
            Action::Download(p, o, _) => format!("Download({}, {})", p, o),
            Action::Upload(r) => format!("Upload({}, {})", r.piece_index, r.block_index),
        })
        .collect()
}

#[test]
fn session_requests_blocks_after_unchoke() {
    let mut s = PeerSession::new(vec![false, false]);
    let have = Message::Have(1);
    let pieces = s.pieces_to_query(&have);
    assert_eq!(pieces, vec![1]);
    let acts = s.process_message(have, vec![vec![(0, 16384), (1, 100)]]).unwrap();
    assert_eq!(sent(&acts), vec!["Interested"]);
    let acts = s.process_message(Message::Unchoke, vec![]).unwrap();
    assert_eq!(sent(&acts), vec!["Request(1, 0, 16384)", "Request(1, 16384, 100)"]);
    let acts = s.process_message(Message::Piece(1, 0, vec![1, 2]), vec![]).unwrap();
    assert_eq!(sent(&acts), vec!["Download(1, 0)"]);
    let acts = s.process_ipc(Ipc::BlockComplete(1, 1));
    assert_eq!(sent(&acts), vec!["Cancel(1, 16384, 100)"]);
    let acts = s.process_ipc(Ipc::DownloadComplete);
    assert_eq!(sent(&acts), vec!["NotInterested"]);
}

#[test]
fn session_uploads_when_interested() {
    let mut s = PeerSession::new(vec![true]);
    let acts = s.process_message(Message::Request(0, 0, 10), vec![]).unwrap();
    assert!(acts.is_empty());
    let acts = s.process_message(Message::Interested, vec![]).unwrap();
    assert_eq!(sent(&acts), vec!["Unchoke", "Upload(0, 0)"]);
    let acts = s.process_message(Message::Request(0, 16384, 10), vec![]).unwrap();
    assert!(acts.is_empty());
    let acts = s.process_ipc(Ipc::BlockUploaded);
    assert_eq!(sent(&acts), vec!["Upload(0, 1)"]);
    assert!(s.process_message(Message::Port, vec![]).is_err());
}

#[test]
fn session_bitfield_queues_set_pieces() {
    let mut s = PeerSession::new(vec![false, false, false]);
    let m = Message::Bitfield(vec![0b0110_0000]);
    assert_eq!(s.pieces_to_query(&m), vec![1, 2]);
    let acts = s.process_message(m, vec![vec![(0, 5)], vec![]]).unwrap();
    assert_eq!(sent(&acts), vec!["Interested"]);
    let acts = s.process_ipc(Ipc::PieceComplete(0));
    assert_eq!(sent(&acts), vec!["Have(0)"]);
    match s.bitfield_message() {
        Message::Bitfield(b) => assert_eq!(b, vec![0b1000_0000]),
        _ => panic!("expected a bitfield"),
    }
}
