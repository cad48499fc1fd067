use rustorrent::tracker::announce::{announce_step, AnnounceAction, AnnounceMode};
use rustorrent::bencode::decode::DecodeError;
use rustorrent::base::peer_id::{generate_peer_id, PEER_ID_PREFIX};
use rustorrent::base::terminal::log_row;
use rustorrent::peer::peer::Peer;
use rustorrent::tracker::announce::{
    announce_url, encode_query_params, percent_encode, is_one_active, knuth_shuffle, shuffle_announce_list, shuffle_with,
    TrackerStatus,
};
use rustorrent::tracker::response::TrackerResponse;

#[test]
fn query_params_are_joined() {
    assert_eq!(encode_query_params(&[("a", "1"), ("b", "x y")]), "a=1&b=x y");
    assert_eq!(encode_query_params(&[]), "");
}

#[test]
fn announce_url_has_every_parameter() {
    let url = announce_url("http://t/ann", "-RC0001-abcdefghijkl", 1234, &[0x12, b'a', b' ', 0xff], 6881);
    assert_eq!(
        url,
        "http://t/ann?left=1234&info_hash=%12a%20%FF&downloaded=0&uploaded=0&event=started\
         &peer_id=-RC0001-abcdefghijkl&compact=1&port=6881"
    );
}

#[test]
fn percent_encoding_of_bytes() {
    assert_eq!(percent_encode(b"aZ09*-._"), "aZ09*-._");
    assert_eq!(percent_encode(&[0x20, 0x2b, 0x00, 0xab, b'/']), "%20%2B%00%AB%2F");
    assert_eq!(percent_encode(&[]), "");
}

#[test]
fn compact_response() {
    let mut body = b"d8:completei5e10:incompletei2e8:intervali1800e5:peers12:".to_vec();
    body.extend_from_slice(&[10, 0, 0, 1, 0x1a, 0xe1, 127, 0, 0, 1, 0, 80]);
    body.push(b'e');
    let r = TrackerResponse::parse(&body).unwrap();
    assert_eq!(r.interval, 1800);
    assert_eq!(r.complete, 5);
    assert_eq!(r.incomplete, 2);
    assert_eq!(r.min_interval, None);
    assert_eq!(
        r.peers,
        vec![
            Peer { ip: "10.0.0.1".to_string(), port: 6881 },
            Peer { ip: "127.0.0.1".to_string(), port: 80 }
        ]
    );
}

#[test]
fn dictionary_peers_response() {
    let body = b"d8:completei1e10:incompletei0e8:intervali60e12:min intervali30e5:peersld2:ip7:1.2.3.44:porti99eeee";
    let r = TrackerResponse::parse(body).unwrap();
    assert_eq!(r.min_interval, Some(30));
    assert_eq!(r.peers, vec![Peer { ip: "1.2.3.4".to_string(), port: 99 }]);
}

#[test]
fn bad_responses() {
    assert_eq!(
        TrackerResponse::parse(b"d8:intervali1ee").err(),
        Some(DecodeError::MissingField("peers".to_string()))
    );
    assert_eq!(
        TrackerResponse::parse(b"d5:peersi1ee").err(),
        Some(DecodeError::ExtraneousData)
    );
}

#[test]
fn shuffle_keeps_elements() {
    let mut v: Vec<u32> = (0..20).collect();
    knuth_shuffle(&mut v);
    let mut sorted = v.clone();
    sorted.sort();
    assert_eq!(sorted, (0..20).collect::<Vec<u32>>());

    let mut tiers = vec![vec!["a".to_string(), "b".to_string()], vec!["c".to_string()]];
    shuffle_announce_list(&mut tiers);
    assert_eq!(tiers[1], vec!["c".to_string()]);
    let mut first = tiers[0].clone();
    first.sort();
    assert_eq!(first, vec!["a".to_string(), "b".to_string()]);
}

#[test]
fn active_tracker_needs_two_peers() {
    assert!(!is_one_active(&[TrackerStatus::FoundPeers(1), TrackerStatus::HostUnresolved]));
    assert!(is_one_active(&[TrackerStatus::ErrorOccurred("x".to_string()), TrackerStatus::FoundPeers(2)]));
    assert!(!is_one_active(&[]));
}

#[test]
fn peer_id_has_prefix_and_twenty_chars() {
    let id = generate_peer_id();
    assert_eq!(id.len(), 20);
    assert!(id.starts_with(PEER_ID_PREFIX));
    assert!(id[8..].chars().all(|c| c.is_ascii_alphanumeric()));
}

#[test]
fn log_row_is_first_status_row() {
    assert_eq!(log_row(10, 1), 10);
    assert_eq!(log_row(10, 3), 8);
    assert_eq!(log_row(1, 1), 1);
}

#[test]
fn shuffle_moves_every_element() {
    for _ in 0..20 {
        let mut two = vec![1, 2];
        knuth_shuffle(&mut two);
        assert_eq!(two, vec![2, 1]);
        let mut v: Vec<u32> = (0..6).collect();
        knuth_shuffle(&mut v);
        for (i, x) in v.iter().enumerate() {
            assert_ne!(*x as usize, i);
        }
    }
}

#[test]
fn shuffle_with_given_draws() {
    let mut v = vec![1, 2, 3];
    shuffle_with(&mut v, &[0, 0]);
    assert_eq!(v, vec![2, 3, 1]);
    let mut w = vec![1, 2, 3];
    shuffle_with(&mut w, &[1, 0]);
    assert_eq!(w, vec![3, 1, 2]);
}

#[test]
fn peer_id_from_chars() {
    assert_eq!(rustorrent::base::peer_id::peer_id_from("abcdefghijkl"), "-RC0001-abcdefghijkl");
}

#[test]
fn announce_steps() {
    assert_eq!(announce_step(AnnounceMode::Listed, true), AnnounceAction::ReportThenWait(18000));
    assert_eq!(announce_step(AnnounceMode::Listed, false), AnnounceAction::Stop);
    assert_eq!(announce_step(AnnounceMode::Single, true), AnnounceAction::ReportThenWait(30));
    assert_eq!(announce_step(AnnounceMode::Single, false), AnnounceAction::Wait(5));
}
