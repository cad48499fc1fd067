use rustorrent::bencode::hash::Sha1;
use rustorrent::peer::handshake::{check_handshake, handshake_message, HandshakeError};
use rustorrent::peer::message::{from_payload, Message};

#[test]
fn handshake_message_layout() {
    let hash = Sha1([7u8; 20]);
    let m = handshake_message(&hash, "-RC0001-abcdefghijkl");
    assert_eq!(m.len(), 1 + 19 + 8 + 20 + 20);
    assert_eq!(m[0], 19);
    assert_eq!(&m[1..20], b"BitTorrent protocol");
    assert_eq!(&m[20..28], &[0u8; 8]);
    assert_eq!(&m[28..48], &[7u8; 20]);
    assert_eq!(&m[48..68], b"-RC0001-abcdefghijkl");
}

#[test]
fn handshake_checks() {
    let hash = Sha1([7u8; 20]);
    let ours = "-RC0001-abcdefghijkl";
    assert_eq!(
        check_handshake(&[8u8; 20], b"-XX0001-abcdefghijkl", &hash, ours),
        Err(HandshakeError::InvalidInfoHash)
    );
    assert_eq!(
        check_handshake(&[7u8; 20], ours.as_bytes(), &hash, ours),
        Err(HandshakeError::ConnectingToSelf)
    );
    assert_eq!(check_handshake(&[7u8; 20], b"-XX0001-abcdefghijkl", &hash, ours), Ok(()));
}

#[test]
fn payload_messages() {
    assert!(matches!(from_payload(&[]), Some(Message::KeepAlive)));
    assert!(matches!(from_payload(&[1]), Some(Message::Unchoke)));
    assert!(matches!(from_payload(&[4, 0, 0, 1, 2]), Some(Message::Have(258))));
    assert!(matches!(from_payload(&[4, 0, 0]), None));
    assert!(matches!(from_payload(&[10]), None));
    match from_payload(&[7, 0, 0, 0, 1, 0, 0, 64, 0, 9, 9]) {
        Some(Message::Piece(1, 16384, data)) => assert_eq!(data, vec![9, 9]),
        other => panic!("{:?}", other),
    }
}

#[test]
fn payload_round_trip() {
    let m = Message::Request(3, 16384, 16384);
    let wire = m.serialize();
    match from_payload(&wire[4..]) {
        Some(Message::Request(3, 16384, 16384)) => {}
        other => panic!("{:?}", other),
    }
}

#[test]
fn message_text() {
    assert_eq!(Message::KeepAlive.to_text(), "KeepAlive");
    assert_eq!(Message::Unchoke.to_text(), "Unchoke");
    assert_eq!(Message::Have(42).to_text(), "Have(42)");
    assert_eq!(Message::Bitfield(vec![0xf0, 0x01]).to_text(), "Bitfield(\"f001\")");
    assert_eq!(Message::Request(1, 16384, 512).to_text(), "Request(1, 16384, 512)");
    assert_eq!(Message::Piece(2, 0, vec![0; 7]).to_text(), "Piece(2, 0, size=7)");
    assert_eq!(Message::Cancel(3, 4, 5).to_text(), "Cancel(3, 4, 5)");
    assert_eq!(Message::Port.to_text(), "Port");
}
