use bittorrent::bittorrent::bencode::BencodeT;
use bittorrent::bittorrent::manager::Status;
use bittorrent::bittorrent::markers::DLMarker;
use bittorrent::bittorrent::metainfo::{BTFile, FileInfo, Info, MetaInfo};
use bittorrent::bittorrent::torrent::{make_pieces, piece_debug, FilePiece, Torrent};
use bittorrent::bittorrent::torrent_runtime::{PieceQueue, Rate, TorrentRuntime};
use bittorrent::bittorrent::{Piece, PieceData};

const PIECE_LENGTH: i64 = 262144;

/// A single-file torrent of `npieces` pieces.
fn metainfo(npieces: usize) -> MetaInfo {
    MetaInfo {
        info: Info {
            piece_length: PIECE_LENGTH,
            pieces: (0..npieces).map(|i| [i as u8; 20]).collect(),
            private: None,
            file_info: FileInfo::SingleFileInfo {
                name: "torrent.bin".to_string(),
                length: PIECE_LENGTH * npieces as i64,
                md5sum: None,
            },
        },
        announce: Some("http://127.0.0.1:3000/announce".to_string()),
        announce_list: None,
        creation_date: None,
        comment: None,
        created_by: None,
        encoding: None,
    }
}

fn test_vec(torrent: &Torrent, vec2: &Vec<DLMarker>) {
    let vec = torrent.map.get(&0).unwrap();
    assert_eq!(vec2, vec);
}

fn fpiece(b: i64, n: i64) -> FilePiece {
    FilePiece { path: Default::default(), begin: b, length: n }
}

#[test]
fn test_in_range() {
    let p = make_pieces();

    let mut torrent = Torrent::new(metainfo(4), "", false);

    for b in p.iter() {
        assert!(!torrent.have_block(&b));
    }

    torrent.insert_piece(&p[1]);

    for b in p.iter() {
        if *b != p[1] {
            assert!(!torrent.have_block(&b));
        } else {
            assert!(torrent.have_block(&b));
        }
    }

    torrent.insert_piece(&p[6]);

    for b in p.iter() {
        if *b != p[1] && *b != p[6] {
            assert!(!torrent.have_block(&b));
        } else {
            assert!(torrent.have_block(&b));
        }
    }

    torrent.insert_piece(&p[8]);

    for b in p.iter() {
        assert!(torrent.have_block(&b));
    }
}

#[test]
fn test_insert_piece() {
    let p = make_pieces();

    let mut torrent = Torrent::new(metainfo(4), "", false);

    torrent.insert_piece(&p[1]);
    torrent.insert_piece(&p[7]);

    test_vec(&torrent, &vec![DLMarker::Begin(1), DLMarker::End(3), DLMarker::Begin(10), DLMarker::End(11)]);

    // In shaded boundary conditions
    assert!(!torrent.in_shaded(&0, &0, true));
    assert!(!torrent.in_shaded(&0, &1, true));
    assert!(torrent.in_shaded(&0, &2, true));
    assert!(torrent.in_shaded(&0, &3, true));

    assert!(torrent.in_shaded(&0, &1, false));
    assert!(torrent.in_shaded(&0, &2, false));
    assert!(!torrent.in_shaded(&0, &3, false));

    torrent.insert_piece(&p[2]); // ###0
    assert!(torrent.in_shaded(&0, &0, false));
    test_vec(&torrent, &vec![DLMarker::Begin(0), DLMarker::End(3), DLMarker::Begin(10), DLMarker::End(11)]);

    torrent.insert_piece(&p[3]); // ######
    test_vec(&torrent, &vec![DLMarker::Begin(0), DLMarker::End(7), DLMarker::Begin(10), DLMarker::End(11)]);

    torrent.insert_piece(&p[4]);
    test_vec(&torrent, &vec![DLMarker::Begin(0), DLMarker::End(7), DLMarker::Begin(10), DLMarker::End(11)]);

    torrent.insert_piece(&p[5]);
    test_vec(&torrent, &vec![DLMarker::Begin(0), DLMarker::End(8), DLMarker::Begin(10), DLMarker::End(11)]);

    torrent.insert_piece(&p[6]);
    test_vec(&torrent, &vec![DLMarker::Begin(0), DLMarker::End(9), DLMarker::Begin(10), DLMarker::End(11)]);

    torrent.insert_piece(&p[8]);
    test_vec(&torrent, &vec![DLMarker::Begin(0), DLMarker::End(12)]);
}

#[test]
fn test_map_files() {
    let mut torrent = Torrent::new(metainfo(8), "", false);
    let piece_length: u32 = torrent.metainfo.info().piece_length as u32;
    let piece0 = Piece { index: 0, begin: 0, length: piece_length };
    let piece1 = Piece { index: 1, begin: 500, length: piece_length };
    let piece2 = Piece { index: 3, begin: 500, length: 2 * (piece_length / 4) + 1 };
    let files = vec![
        piece_length,
        piece_length,
        piece_length,
        piece_length / 4,
        0,
        1,
        piece_length / 4,
        500,
    ];
    torrent.files = files.iter().map(|l| BTFile { length: *l as i64, md5sum: None, path: String::new() }).collect();

    assert_eq!(torrent.map_files(&piece0), vec![fpiece(0, piece_length as i64)]);
    assert_eq!(torrent.map_files(&piece1), vec![fpiece(500, piece_length as i64 - 500), fpiece(0, 500)]);
    assert_eq!(
        torrent.map_files(&piece2),
        vec![
            fpiece(500, (piece_length / 4) as i64 - 500),
            fpiece(0, 0),
            fpiece(0, 1),
            fpiece(0, (piece_length / 4) as i64),
            fpiece(0, 500),
        ]
    );
}

fn _test_pause(torrent: &mut TorrentRuntime, begin: Status) {
    assert_eq!(torrent.status, begin);
    assert_eq!(torrent.pause(true), true);
    assert_eq!(torrent.status, Status::Paused);
    assert_eq!(torrent.pause(true), false);
    assert_eq!(torrent.status, Status::Paused);
    assert_eq!(torrent.pause(false), true);
    assert_eq!(torrent.status, begin);
    assert_eq!(torrent.pause(false), false);
    assert_eq!(torrent.status, begin);
}

#[test]
fn test_pause() {
    // Initialize, pause, then unpause
    _test_pause(&mut TorrentRuntime::new(metainfo(4), "", false), Status::Running);
    _test_pause(&mut TorrentRuntime::new(metainfo(4), "valid_torrent", true), Status::Complete);
}

#[test]
fn test_piece_queue() {
    let max_peers = bittorrent::MAX_PEERS as isize;
    let mut piece_queue = PieceQueue::new(3);
    // Initially nothing in queue
    assert_eq!(piece_queue.pop(), None);
    // Change priority
    piece_queue.change_priority_by(&0, |p| p - 1).unwrap();
    assert_eq!(piece_queue.queue_len(), 3);
    assert_eq!(piece_queue.zeros_len(), 2);
    assert_eq!(piece_queue.peek().unwrap(), (0, -1));
    // Change it back
    piece_queue.change_priority_by(&0, |p| p + 1).unwrap();
    assert_eq!(piece_queue.pop(), None);
    // Change again
    piece_queue.change_priority_by(&0, |p| p - max_peers);
    assert_eq!(piece_queue.pop().unwrap(), (0, -max_peers));
    assert_eq!(piece_queue.change_priority_by(&0, |p| p + 1), None);
    // Change the other two
    piece_queue.change_priority_by(&1, |p| p - 1).unwrap();
    piece_queue.change_priority_by(&2, |p| p - 2).unwrap();
    assert_eq!(piece_queue.peek().unwrap(), (1, -1));
}

#[test]
fn test_priority() {
    let mut torrent = TorrentRuntime::new(metainfo(6), "", false);

    // update priority for piece
    for i in 0..torrent.npieces() {
        torrent.update_priority(i, 1);
        assert_eq!(torrent.select_piece().unwrap().index as usize, i);
    }
    assert_eq!(torrent.select_piece(), None);
    assert_eq!(torrent.outstanding_requests.len(), torrent.npieces());
}

#[test]
fn test_pieces() {
    let bytes: [u8; 40] = [
        54, 30, 209, 250, 31, 227, 163, 34, 205, 182, 4, 37, 119, 22, 3, 185, 16, 53, 29, 166, 204, 177, 1, 160, 101,
        203, 150, 69, 169, 79, 86, 153, 37, 219, 218, 106, 227, 35, 24, 1,
    ];
    let vec = Info::split_hashes(&bytes).unwrap();
    assert_eq!(vec.len(), 2);
    let bstring = Info::hashes_to_string(&vec);
    // the bytes are not UTF-8, so they are kept as bytes
    assert_eq!(BencodeT::ByteString(bytes.to_vec()), bstring);
}

#[test]
fn split_hashes_needs_whole_hashes() {
    assert!(Info::split_hashes(&[1u8; 30]).is_err());
    assert_eq!(Info::split_hashes(&[]).unwrap().len(), 0);
}

#[test]
fn metainfo_sizes() {
    let m = metainfo(5);
    assert_eq!(m.npieces(), 5);
    assert_eq!(m.piece_length(), PIECE_LENGTH);
    assert_eq!(m.total_length(), 5 * PIECE_LENGTH);
    assert_eq!(m.last_piece_length(), PIECE_LENGTH as u32);
    assert_eq!(m.trackers(), vec!["http://127.0.0.1:3000/announce".to_string()]);
}

#[test]
fn metainfo_bencoding_roundtrip() {
    let m = metainfo(3);
    let bytes = m.encode();
    let back = MetaInfo::decode(&bytes).unwrap();
    assert_eq!(back, m);
    assert_eq!(m.info_hash(), back.info_hash());
}

#[test]
fn metainfo_missing_info() {
    assert!(MetaInfo::decode(b"d8:announce3:abce").is_err());
    assert!(MetaInfo::decode(b"i3e").is_err());
}

#[test]
fn valid_piece_checks_hash() {
    let m = metainfo(2);
    let pd = PieceData { piece: Piece { index: 0, begin: 0, length: 3 }, data: vec![1, 2, 3] };
    assert!(!m.valid_piece(&pd));
}

#[test]
fn torrent_counts() {
    let mut t = TorrentRuntime::new(metainfo(4), "", false);
    assert_eq!(t.npieces(), 4);
    assert_eq!(t.size(), 4 * PIECE_LENGTH as usize);
    assert_eq!(t.downloaded(), 0);
    assert_eq!(t.remaining(), 4 * PIECE_LENGTH as usize);
    assert_eq!(t.status(), Status::Running);
    assert!(t.set_complete().is_err());
    assert_eq!(t.download_rate(), 0);
    let done = TorrentRuntime::new(metainfo(4), "", true);
    assert_eq!(done.remaining(), 0);
    assert_eq!(done.downloaded(), 4 * PIECE_LENGTH as usize);
}

#[test]
fn set_complete_messages() {
    let mut t = TorrentRuntime::new(metainfo(2), "", true);
    assert_eq!(t.set_complete().unwrap_err(), "Tried to set torrent as complete, but its status is Complete");
    let mut r = TorrentRuntime::new(metainfo(2), "", false);
    assert_eq!(r.set_complete().unwrap_err(), "Tried to set torrent as complete, but it's not complete");
}

#[test]
fn rate_counts_recent_transfers() {
    let mut rate = Rate::new();
    assert_eq!(rate.rate(), 0);
    rate.update(100);
    rate.update(20);
    assert_eq!(rate.rate(), 120);
    rate.prune();
    assert_eq!(rate.rate(), 120);
    let mut old = Rate::new();
    old.update_at(50, 0);
    assert_eq!(old.rate_at(5000), 50);
    assert_eq!(old.rate_at(5001), 0);
}

#[test]
fn marker_values() {
    assert_eq!(DLMarker::Begin(4).val(), 4);
    assert_eq!(DLMarker::End(9).val(), 9);
}

#[test]
fn readable_blocks() {
    let mut t = Torrent::new(metainfo(2), "", false);
    let p = Piece { index: 0, begin: 0, length: 4 };
    assert_eq!(t.check_readable(&p).unwrap_err(), format!("Don't yet have requested piece: {:?}", p));
    t.insert_piece(&p);
    assert!(t.check_readable(&p).is_ok());
    let q = Piece { index: 5, begin: 0, length: 4 };
    assert_eq!(t.check_readable(&q).unwrap_err(), format!("Peer requested nonexistent piece: {:?}", q));
    assert_eq!(piece_debug(&q), format!("{:?}", q));
    let whole = TorrentRuntime::new(metainfo(2), "", true);
    assert!(whole.torrent.check_readable(&Piece { index: 1, begin: 0, length: PIECE_LENGTH as u32 }).is_ok());
}

#[test]
fn size_is_total_file_length() {
    let mut m = metainfo(2);
    m.info.piece_length = 4;
    m.info.file_info = FileInfo::SingleFileInfo { name: "five.bin".to_string(), length: 5, md5sum: None };
    let t = TorrentRuntime::new(m, "", false);
    assert_eq!(t.size(), 5);
    assert_eq!(t.torrent.checked_size(), Some(5));
}

#[test]
fn rate_right_after_update_adds() {
    let mut r = Rate::new();
    r.update_at(10, 1000);
    let before = r.rate_at(3000);
    r.update_at(7, 3000);
    assert_eq!(r.rate_at(3000), before + 7);
}

#[test]
fn last_piece_length_checked() {
    let mut m = metainfo(2);
    m.info.piece_length = 4;
    m.info.file_info = FileInfo::SingleFileInfo { name: "five.bin".to_string(), length: 5, md5sum: None };
    assert_eq!(m.checked_last_piece_length(), Some(1));
    assert_eq!(m.last_piece_length(), 1);
    m.info.file_info = FileInfo::SingleFileInfo { name: "three.bin".to_string(), length: 3, md5sum: None };
    assert_eq!(m.checked_last_piece_length(), None);
    m.info.pieces.clear();
    assert_eq!(m.checked_last_piece_length(), None);
}

#[test]
fn new_torrent_pauses_and_resumes() {
    let mut t = TorrentRuntime::new(metainfo(2), "", false);
    assert!(t.pause(true));
    assert_eq!(t.status(), Status::Paused);
    assert!(t.pause(false));
    assert_eq!(t.status(), Status::Running);
    let mut d = TorrentRuntime::new(metainfo(2), "", true);
    assert!(d.pause(true));
    assert!(d.pause(false));
    assert_eq!(d.status(), Status::Complete);
}

#[test]
fn completion_after_last_piece() {
    let mut t = TorrentRuntime::new(metainfo(2), "", false);
    assert_eq!(t.complete_if_done(), None);
    assert_eq!(t.status(), Status::Running);
    let mut done = TorrentRuntime::new(metainfo(2), "", true);
    done.status = Status::Running;
    assert_eq!(done.complete_if_done(), Some(Ok(())));
    assert_eq!(done.status(), Status::Complete);
    done.status = Status::Paused;
    assert_eq!(
        done.complete_if_done(),
        Some(Err("Tried to set torrent as complete, but its status is Paused".to_string()))
    );
}

#[test]
fn locate_checks_the_block() {
    let t = Torrent::new(metainfo(2), "", false);
    let inside = Piece { index: 1, begin: 0, length: 4 };
    assert_eq!(t.locate(&inside).unwrap(), t.map_files(&inside));
    let outside = Piece { index: 2, begin: 0, length: 1 };
    assert_eq!(t.locate(&outside).unwrap_err().to_text(), "Block lies outside the torrent's files");
}

#[test]
fn statuses_are_not_ranked() {
    assert_eq!(Status::Paused.partial_cmp(&Status::Complete), Some(std::cmp::Ordering::Equal));
    assert_eq!(Status::Complete.partial_cmp(&Status::Running), Some(std::cmp::Ordering::Equal));
    assert!(!(Status::Paused < Status::Complete));
}
