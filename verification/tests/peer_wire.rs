use bit_vec::BitVec;
use bittorrent::bittorrent::hash;
use bittorrent::bittorrent::peer::{Action, Peer, PeerInfo, QUEUE_LENGTH};
use bittorrent::bittorrent::wire::frame_length;
use bittorrent::bittorrent::{Piece, PieceData};

/// A message: the length prefix, the id, then each value as four big-endian bytes.
fn message(len: u32, id: u8, others: &[u32]) -> Vec<u8> {
    let mut vec = len.to_be_bytes().to_vec();
    vec.push(id);
    for o in others {
        vec.extend_from_slice(&o.to_be_bytes());
    }
    vec
}

fn message_from_bytes(len: u32, id: u8, bytes: &[u8]) -> Vec<u8> {
    let mut vec = message(len, id, &[]);
    vec.extend_from_slice(bytes);
    vec
}

fn byte_slice_from_u32s(ints: &[u32]) -> Vec<u8> {
    let mut vec = Vec::new();
    for i in ints {
        vec.extend_from_slice(&i.to_be_bytes());
    }
    vec
}

#[test]
fn peer_test_simple_messages() {
    let mut peer = Peer::new(PeerInfo::new(), 1);

    let choke = message(1, 0, &[]);
    let unchoke = message(1, 1, &[]);
    let interested = message(1, 2, &[]);
    let not_interested = message(1, 3, &[]);

    // keep_alive
    assert_eq!(peer.parse_message(&[]).unwrap(), Action::EOF);

    // unchoke
    assert_eq!(peer.parse_message(&unchoke).unwrap(), Action::ChokingChange);
    assert_eq!(peer.peer_choking, false);
    assert_eq!(peer.choke(false), unchoke);

    // choke
    assert_eq!(peer.parse_message(&choke).unwrap(), Action::ChokingChange);
    assert_eq!(peer.peer_choking, true);
    assert_eq!(peer.choke(true), choke);
    assert_eq!(peer.choke(true), &[0b00000000, 0b00000000, 0b00000000, 0b00000001, 0b000000000]);

    // interested
    assert_eq!(peer.parse_message(&interested).unwrap(), Action::InterestedChange);
    assert_eq!(peer.peer_interested, true);
    assert_eq!(peer.interested(true), interested);

    // not interested
    assert_eq!(peer.parse_message(&not_interested).unwrap(), Action::InterestedChange);
    assert_eq!(peer.peer_interested, false);
    assert_eq!(peer.interested(false), not_interested);
}

#[test]
fn peer_test_parse_have() {
    let mut peer = Peer::new(PeerInfo::new(), 32);

    let have = message(5, 4, &[0]);
    assert_eq!(Peer::have(0), have);
    assert_eq!(peer.parse_message(&have).unwrap(), Action::Have(0));
    assert_eq!(peer.bitfield.get(0).unwrap(), true);

    let bitfield = message(5, 5, &[0b01000000000000000000000000000001u32]);
    assert_eq!(Peer::bitfield(&BitVec::from_bytes(&[0b01000000, 0b00000000, 0b00000000, 0b00000001])), bitfield);
    let _ = peer.parse_message(&bitfield);
    assert_eq!(peer.bitfield.get(1).unwrap(), true);

    let have = message(5, 4, &[32]);
    assert_eq!(Peer::have(32), have);
    assert_eq!(
        peer.parse_message(&have).unwrap_err().description(),
        format!("Received have message with piece index {} that exceeds number of pieces {}", 32, 32)
    );

    let bitfield = message_from_bytes(6, 5, &[0b01000000, 0b00000000, 0b00000000, 0b00000001, 0b10000000]);
    assert_eq!(
        peer.parse_message(&bitfield).unwrap_err().description(),
        format!("Received bitfield with length ({}) different from existing bitfield ({})", 40, 32)
    );
    peer.bitfield = BitVec::from_elem(33, false);
    peer.parse_message(&bitfield).unwrap();
    assert_eq!(peer.bitfield.get(32).unwrap(), true);

    assert_eq!(peer.bitfield.get(7).unwrap(), false);
    let have = message(5, 4, &[7]);
    peer.parse_message(&have).unwrap();
    assert_eq!(peer.bitfield.get(7).unwrap(), true);
}

#[test]
fn peer_test_parse_request() {
    let mut peer = Peer::new(PeerInfo::new(), 1);

    let request = message(13, 6, &[0, 0, 16384]);

    for _i in 0..QUEUE_LENGTH - 1 {
        assert_eq!(peer.parse_request(&request).unwrap(), Action::Nothing);
    }

    let _ = peer.parse_request(&request);
    assert_eq!(peer.request_queue.len(), 0);
}

#[test]
fn peer_test_parse_piece() {
    let mut peer = Peer::new(PeerInfo::new(), 1);

    // the length counts the id and the five values
    let message = message(1 + 4 * 5, 7, &[0, 0, 1, 2, 3]);
    let bytes = byte_slice_from_u32s(&[1, 2, 3]);
    let piece = Piece { index: 0u32, begin: 0u32, length: 12u32 };
    let piece_data = PieceData { piece: piece, data: bytes };

    assert_eq!(Peer::piece(&piece_data), message);

    let result = peer.parse_message(&message);
    assert_eq!(result.unwrap(), Action::Write(piece_data));
}

#[test]
fn test_parse_handshake() {
    let peer_id = Peer::gen_peer_id();
    let info_hash = Peer::gen_peer_id();
    let hsmsg = Peer::handshake(&peer_id, &info_hash);
    let (pi, inf) = Peer::parse_handshake(&hsmsg).unwrap();

    assert_eq!(pi, peer_id);
    assert_eq!(inf, info_hash);
}

#[test]
fn test_create_bitfield() {
    assert_eq!(Peer::create_bitfield(&[0b00000001], 0).len(), 8);
    assert_eq!(Peer::create_bitfield(&[0b00000001], 2).len(), 6);
    assert_eq!(Peer::create_bitfield(&[0b00000001], 7).len(), 1);

    assert_eq!(Peer::create_bitfield(&[0b00000001, 0b00000001], 7).len(), 9);
    assert_eq!(Peer::create_bitfield(&[0b00000001, 0b00000001], 0).len(), 16);
}

#[test]
fn handshake_layout() {
    let peer_id = hash::Hash([7u8; 20]);
    let info_hash = hash::Hash([9u8; 20]);
    let hs = Peer::handshake(&peer_id, &info_hash);
    assert_eq!(hs.len(), 68);
    assert_eq!(hs[0], 19);
    assert_eq!(&hs[1..20], b"BitTorrent protocol");
    assert_eq!(&hs[20..28], &[0u8; 8]);
    assert_eq!(&hs[28..48], &[9u8; 20]);
    assert_eq!(&hs[48..68], &[7u8; 20]);
}

#[test]
fn handshake_errors() {
    assert_eq!(Peer::parse_handshake(&[19u8; 10]).unwrap_err().description(), "Unexpected handshake length: 10");
    let mut hs = Peer::handshake(&hash::Hash([1u8; 20]), &hash::Hash([2u8; 20]));
    hs[0] = 18;
    assert_eq!(Peer::parse_handshake(&hs).unwrap_err().description(), "Unexpected pstrlen: 18");
    hs[0] = 19;
    hs[1] = b'b';
    assert_eq!(
        Peer::parse_handshake(&hs).unwrap_err().description(),
        format!("Unexpected protocol string: {:?}", &hs[1..20])
    );
}

#[test]
fn message_errors() {
    let mut peer = Peer::new(PeerInfo::new(), 8);
    assert_eq!(
        peer.parse_message(&[0, 0]).unwrap_err().description(),
        format!("Received message of length less than 4: {:?}", &[0u8, 0u8])
    );
    assert_eq!(peer.parse_message(&[0, 0, 0, 0]).unwrap(), Action::Nothing);
    assert_eq!(
        peer.parse_message(&[0, 0, 0, 5, 4]).unwrap_err().description(),
        "Reported message length 9 does not match actual length 5"
    );
    assert_eq!(peer.parse_message(&message(1, 9, &[])).unwrap_err().description(), "Port messages are not supported");
    assert_eq!(peer.parse_message(&message(1, 12, &[])).unwrap_err().description(), "Invalid message id: 12");
}

#[test]
fn request_and_cancel_messages() {
    let piece = Piece { index: 3, begin: 16384, length: 16384 };
    assert_eq!(Peer::request(&piece), message(13, 6, &[3, 16384, 16384]));
    assert_eq!(Peer::cancel(&piece), message(13, 8, &[3, 16384, 16384]));
    let mut peer = Peer::new(PeerInfo::new(), 8);
    assert_eq!(peer.parse_message(&Peer::request(&piece)).unwrap(), Action::Request(vec![piece]));
}

#[test]
fn bitfield_message_roundtrip() {
    let mut bv = BitVec::from_elem(11, false);
    bv.set(0, true);
    bv.set(10, true);
    let msg = Peer::bitfield(&bv);
    assert_eq!(msg, vec![0, 0, 0, 3, 5, 0b10000000, 0b00100000]);
    let mut peer = Peer::new(PeerInfo::new(), 11);
    assert!(matches!(peer.parse_message(&msg).unwrap(), Action::Bitfield(_)));
    assert_eq!(peer.bitfield, bv);
}

#[test]
fn peer_info_default() {
    let info = PeerInfo::new();
    assert_eq!(info.ip, "127.0.0.1");
    assert_eq!(info.port, 8000);
    assert_eq!(info.peer_id, hash::Hash([0u8; 20]));
}

#[test]
fn frames_of_received_bytes() {
    assert_eq!(frame_length(&[0, 0]), None);
    assert_eq!(frame_length(&[0, 0, 0, 0]), Some(4));
    assert_eq!(frame_length(&[0, 0, 0, 2, 7]), None);
    assert_eq!(frame_length(&[0, 0, 0, 1, 7, 9, 9]), Some(5));
}
