use rustorrent::base::download::{
    create_file_infos, create_file_offsets, create_pieces, search_index, search_ptrs, Download, LayoutError, Piece,
    BLOCK_SIZE,
};
use rustorrent::base::ipc::Ipc;
use rustorrent::base::manager::{completed_name, Admission, PeerPool};
use rustorrent::base::meta_info::{FileInfo, Info, MultiInfo, SingleInfo, TorrentMetaInfo};
use rustorrent::bencode::hash::Sha1;
use rustorrent::peer::peer::Peer;
use rustorrent::peer::request_queue::RequestMetadata;

#[test]
fn search_ptrs_test() {
    let file_offsets = [0, 8, 16, 24];
    let _a = search_ptrs(&file_offsets, 15, 2);

    assert_eq!(search_ptrs(&file_offsets, 15, 1), (1, vec![(0, 7, 1)]));
    assert_eq!(search_ptrs(&file_offsets, 15, 2), (1, vec![(0, 7, 1), (1, 0, 1)]));
    assert_eq!(search_ptrs(&file_offsets, 0, 8), (0, vec![(0, 0, 8)]));
    assert_eq!(search_ptrs(&file_offsets, 8, 8), (1, vec![(0, 0, 8)]));
    assert_eq!(search_ptrs(&file_offsets, 8, 9), (1, vec![(0, 0, 8), (8, 0, 1)]));
    assert_eq!(search_ptrs(&file_offsets, 8, 16), (1, vec![(0, 0, 8), (8, 0, 8)]));
}

#[test]
fn search_ptrs_offsets_not_from_zero() {
    let file_offsets = [10, 13, 20];
    assert_eq!(search_index(&file_offsets, 12), 0);
    assert_eq!(search_ptrs(&file_offsets, 12, 5), (0, vec![(0, 2, 1), (1, 0, 4)]));
    assert_eq!(search_ptrs(&file_offsets, 10, 3), (0, vec![(0, 0, 3)]));
}

#[test]
fn search_index_finds_file() {
    let offsets = [0u64, 10, 10, 30];
    assert_eq!(search_index(&offsets, 0), 0);
    assert_eq!(search_index(&offsets, 9), 0);
    assert_eq!(search_index(&offsets, 29), 2);
}

#[test]
fn piece_blocks() {
    let p = Piece::new(BLOCK_SIZE * 2 + 5, 0, Sha1([0; 20]));
    assert_eq!(p.blocks.len(), 3);
    assert_eq!(p.blocks[0].length, BLOCK_SIZE);
    assert_eq!(p.blocks[2].length, 5);
    assert_eq!(p.blocks[2].index, 2);
    assert!(!p.has_all_blocks());
    let empty = Piece::new(0, 0, Sha1([0; 20]));
    assert_eq!(empty.blocks.len(), 0);
    assert!(empty.has_all_blocks());
}

#[test]
fn file_infos_and_offsets() {
    let info = Info::Multi(MultiInfo {
        files: vec![
            FileInfo { length: 3, md5sum: None, path: vec!["a".to_string(), "b.txt".to_string()] },
            FileInfo { length: 4, md5sum: None, path: vec!["c".to_string()] },
        ],
        name: "x".to_string(),
        piece_length: 4,
        pieces: vec![Sha1([1; 20]), Sha1([2; 20])],
    });
    let infos = create_file_infos(&info);
    assert_eq!(infos, vec![(3, "downloads/a/b.txt.temp".to_string()), (4, "downloads/c.temp".to_string())]);
    assert_eq!(create_file_offsets(&infos), vec![0, 3, 7]);

    let single = Info::Single(SingleInfo {
        length: 9,
        md5sum: None,
        name: "movie".to_string(),
        piece_length: 4,
        pieces: vec![],
    });
    assert_eq!(create_file_infos(&single), vec![(9, "downloads/movie.temp".to_string())]);
}

fn meta(pieces: Vec<Sha1>, piece_length: usize, files: Vec<u64>) -> TorrentMetaInfo {
    TorrentMetaInfo {
        info: Info::Multi(MultiInfo {
            files: files
                .iter()
                .map(|l| FileInfo { length: *l, md5sum: None, path: vec!["f".to_string()] })
                .collect(),
            name: "n".to_string(),
            piece_length,
            pieces,
        }),
        announce: None,
        announce_list: None,
        creation_date: None,
        comment: None,
        created_by: None,
        encoding: None,
    }
}

#[test]
fn pieces_of_a_torrent() {
    let m = meta(vec![Sha1([1; 20]), Sha1([2; 20])], 4, vec![3, 3]);
    let pieces = create_pieces(6, &m);
    assert_eq!(pieces.len(), 2);
    assert_eq!(pieces[0].length, 4);
    assert_eq!(pieces[1].length, 2);
    assert_eq!(pieces[1].offset, 4);
    assert_eq!(pieces[1].hash, Sha1([2; 20]));
}

#[test]
fn storing_and_verifying_a_piece() {
    let data = b"abcd".to_vec();
    let hash = Sha1::calculate_sha1(&data);
    let m = meta(vec![hash], 4, vec![4]);
    let mut d = Download::new("id".to_string(), m).unwrap();
    assert_eq!(d.file_infos(), &vec![(4, "downloads/f.temp".to_string())]);
    assert!(d.block_fits(0, 0, 4));
    assert!(!d.block_fits(1, 0, 4));
    assert!(!d.block_fits(0, 0, 5));
    assert_eq!(d.begin_store(0, 0, 4), Some((0, vec![(0, 0, 4)])));
    assert_eq!(d.incomplete_blocks_for_piece(0), vec![(0, 4)]);
    assert!(d.block_stored(0, 0));
    assert!(!d.verify_piece(0, b"abce"));
    assert_eq!(d.incomplete_blocks_for_piece(0), vec![(0, 4)]);
    assert!(d.block_stored(0, 0));
    assert!(d.verify_piece(0, &data));
    assert!(d.is_complete());
    assert_eq!(d.have_pieces(), vec![true]);
    assert_eq!(d.begin_store(0, 0, 4), None);
    assert!(d.files_fit(4));
    assert_eq!(d.finished_files(0, 4), vec![0]);
    let events = d.store_events(0, 0);
    assert_eq!(events.len(), 3);
    assert!(matches!(events[0], Ipc::BlockComplete(0, 0)));
    assert!(matches!(events[1], Ipc::PieceComplete(0)));
    assert!(matches!(events[2], Ipc::DownloadComplete));
    let r = RequestMetadata { piece_index: 0, block_index: 0, offset: 1, block_length: 2 };
    assert_eq!(d.request_offset(&r), Some(1));
    assert_eq!(d.our_peer_id(), "id");
}

#[test]
fn store_steps() {
    let data = b"abcd".to_vec();
    let hash = Sha1::calculate_sha1(&data);
    let mut d = Download::new("id".to_string(), meta(vec![hash], 4, vec![4])).unwrap();
    assert_eq!(d.block_written(0, 0), Some((0, 4)));
    let (files, events) = d.piece_read(0, 0, b"abce");
    assert!(files.is_empty());
    assert_eq!(events.len(), 1);
    assert!(matches!(events[0], Ipc::BlockComplete(0, 0)));
    assert_eq!(d.block_written(0, 0), Some((0, 4)));
    let (files, events) = d.piece_read(0, 0, &data);
    assert_eq!(files, vec![0]);
    assert_eq!(events.len(), 3);
    assert!(matches!(events[2], Ipc::DownloadComplete));
}

#[test]
fn download_lays_out_a_torrent() {
    let m = meta(vec![Sha1([1; 20]), Sha1([2; 20])], 4, vec![3, 3]);
    let d = Download::new("id".to_string(), m).unwrap();
    assert_eq!(d.file_infos().len(), 2);
    assert_eq!(d.have_pieces(), vec![false, false]);
    assert_eq!(d.piece_span(0), (0, 4));
    assert_eq!(d.piece_span(1), (4, 2));
    assert_eq!(d.incomplete_blocks_for_piece(1), vec![(0, 2)]);

    // the hashes do not cover the files
    let short = meta(vec![Sha1([1; 20])], 4, vec![3, 3]);
    assert_eq!(Download::new("id".to_string(), short).err(), Some(LayoutError::PiecesDoNotFit));
    // the files end before the last piece
    let long = meta(vec![Sha1([1; 20]), Sha1([2; 20]), Sha1([3; 20])], 4, vec![3, 3]);
    assert_eq!(Download::new("id".to_string(), long).err(), Some(LayoutError::PiecesDoNotFit));
    // the files are longer than a u64 counts
    let huge = meta(vec![], 4, vec![u64::MAX, 1]);
    assert_eq!(Download::new("id".to_string(), huge).err(), Some(LayoutError::FilesTooLong));
}

#[test]
fn finished_name_drops_temp_suffix() {
    assert_eq!(completed_name("downloads/a.txt.temp"), Some("downloads/a.txt".to_string()));
    assert_eq!(completed_name("downloads/a.txt"), None);
    assert_eq!(completed_name("é.temp"), Some("é".to_string()));
}

fn peer(n: u16) -> Peer {
    Peer { ip: "1.2.3.4".to_string(), port: n }
}

#[test]
fn peer_pool_limits_connections() {
    let mut pool = PeerPool::new();
    for i in 0..10 {
        assert_eq!(pool.take_in(true, peer(i)), Admission::Connect);
    }
    assert_eq!(pool.take_in(true, peer(3)), Admission::Known);
    assert_eq!(pool.take_in(true, peer(10)), Admission::Wait);
    assert_eq!(pool.take_in(true, peer(10)), Admission::Known);
    assert_eq!(pool.len(), 10);
    let next = pool.replace(&peer(0));
    assert_eq!(next, Some((true, peer(10))));
    assert_eq!(pool.len(), 10);
    pool.disconnected(&peer(1));
    assert_eq!(pool.len(), 9);
    assert_eq!(pool.replace(&peer(2)), None);
    assert_eq!(pool.len(), 8);
}
