use bittorrent::bittorrent::bencoder::encode;
use bittorrent::bittorrent::hash;
use bittorrent::bittorrent::hash::byte_to_nibbles;
use bittorrent::bittorrent::peer::Peer;
use bittorrent::bittorrent::timers::{Timer, Timers};
use bittorrent::bittorrent::tracker::{announce_urls, parse_response, peers_to_dial, query_string, TrackerPeer, TrackerResponse};

type TP = TrackerPeer;

fn place(i: usize, place: usize) -> bool {
    i & (1 << place) != 0
}

fn make_trackerpeers(n: usize, binary: bool) -> Vec<TrackerPeer> {
    (0..n)
        .map(|i| {
            if binary {
                TrackerPeer::Binary { ip: format!("127.0.0.{}", i), port: i }
            } else {
                TrackerPeer::Dictionary { ip: format!("127.0.0.{}", i), port: i, peer_id: Peer::gen_peer_id() }
            }
        })
        .collect()
}

fn make_resps() -> Vec<TrackerResponse> {
    (0..8)
        .map(|i| TrackerResponse {
            warning_message: if place(i, 0) { None } else { Some("msg".to_string()) },
            interval: 1,
            min_interval: if place(i, 1) { None } else { Some(1) },
            tracker_id: String::from("xyz"),
            complete: 10,
            incomplete: 10,
            peers: make_trackerpeers(20, place(i, 2)),
        })
        .collect()
}

#[test]
fn test_tracker_resp() {
    for resp in make_resps() {
        assert_eq!(resp, TrackerResponse::from_BencodeT(&resp.to_BencodeT()).unwrap());
    }
}

#[test]
fn test_u32_from_ip() {
    assert_eq!(TP::u32_from_ip("255.255.255.255"), ((1_u64 << 32) - 1) as u32);
    assert_eq!(TP::u32_from_ip("0.0.0.0"), 0);
    assert_eq!(TP::ip_from_u32(256), "0.0.1.0");

    for i in 0..(1 << 4) {
        let i = i << 28;
        assert_eq!(TP::u32_from_ip(&TP::ip_from_u32(i as u32)), i as u32);
    }
}

#[test]
fn binary_peers() {
    assert_eq!(TP::to_binary("127.0.0.1", 6881), [127, 0, 0, 1, 0x1a, 0xe1]);
    assert_eq!(
        TP::from_binary(&[10, 0, 0, 2, 0, 80]).unwrap(),
        TrackerPeer::Binary { ip: "10.0.0.2".to_string(), port: 80 }
    );
    assert_eq!(
        TP::from_binary(&[1, 2, 3]).unwrap_err().description(),
        "Expected binary-encoded TrackerPeer, but data field not long enough: 3"
    );
}

#[test]
fn response_peers_and_dialing() {
    let resp = TrackerResponse {
        warning_message: None,
        interval: 1,
        min_interval: Some(1),
        tracker_id: String::from("xyz"),
        complete: 10,
        incomplete: 10,
        peers: vec![
            TrackerPeer::Binary { ip: "127.0.0.1".to_string(), port: 1700 },
            TrackerPeer::Binary { ip: "127.0.0.1".to_string(), port: 6881 },
            TrackerPeer::Binary { ip: "127.0.0.2".to_string(), port: 1701 },
        ],
    };
    let body = encode(&resp.to_BencodeT());
    let peers = parse_response(&body).unwrap();
    assert_eq!(peers, resp.peers);
    assert_eq!(
        peers_to_dial(&peers, 6881),
        vec![("127.0.0.1".to_string(), 1700), ("127.0.0.2".to_string(), 1701)]
    );
    assert!(parse_response(b"le").is_err());
}

#[test]
fn announce_query() {
    let h = hash::Hash([0x41u8; 20]);
    let p = hash::Hash([0x20u8; 20]);
    let q = query_string(&h, &p);
    let expected = format!(
        "info_hash={}&peer_id={}&port=6881&uploaded=0&downloaded=0&left=0&compact=1&event=started&numwant=30",
        "A".repeat(20),
        "%2B".repeat(20)
    );
    assert_eq!(q, expected);
    let urls = announce_urls(&vec!["http://t/announce".to_string()], &h, &p);
    assert_eq!(urls, vec![format!("http://t/announce?{}", expected)]);
}

#[test]
fn hashes_in_hex() {
    assert_eq!(byte_to_nibbles(0xab), (10, 11));
    let h = hash::Hash::from_str("00112233445566778899aabbccddeeff00112233".to_string()).unwrap();
    assert_eq!(h.0[1], 0x11);
    assert_eq!(h.to_hex_string(), "00112233445566778899aabbccddeeff00112233");
    assert_eq!(
        hash::Hash::from_str("0011".to_string()).unwrap_err().description(),
        "String must be 40 hex digits: 0011"
    );
    assert!(hash::Hash::from_str("zz".repeat(20)).is_err());
    assert_ne!(hash::Hash::random(), hash::Hash::random());
}

#[test]
fn test_loop() {
    // intervals of 1,2,3: the task runs every base interval until it says stop
    let max: u64 = 5;
    for interval in 1..4u64 {
        let mut a: u64 = 0;
        let mut ticks: u64 = 0;
        {
            let mut wheel: Timers<u8> = Timers::new(interval);
            assert!(wheel.add(interval, 0).is_ok());
            'outer: loop {
                ticks += 1;
                for _task in wheel.tick() {
                    a += 1;
                    if a == 5 {
                        break 'outer;
                    }
                }
            }
        }
        assert!(a == max);
        assert_eq!(ticks * interval, max * interval);
    }
}

#[test]
fn timers_refuse_other_durations() {
    let mut wheel: Timers<u8> = Timers::new(2);
    assert_eq!(wheel.add(3, 1), Err("Duration must be a multiple of base"));
    assert!(wheel.timers.is_empty());
    assert!(wheel.add(6, 1).is_ok());
    // a six-second timer on a two-second wheel is due on every third tick
    let due: Vec<usize> = (0..9).map(|_| wheel.tick().len()).collect();
    assert_eq!(due, vec![0, 0, 1, 0, 0, 1, 0, 0, 1]);
}

#[test]
fn timer_counts_down() {
    let mut t = Timer::new(3, ());
    assert!(!t.tick(1));
    assert_eq!(t.remaining, 2);
    assert!(!t.tick(1));
    assert!(t.tick(1));
    assert_eq!(t.remaining, 3);
}

#[test]
fn hash_text_reads_back() {
    let h = hash::Hash([0xa5; 20]);
    let back = hash::Hash::from_str(h.to_hex_string()).unwrap();
    assert_eq!(back, h);
    let z = hash::Hash([0; 20]);
    assert_eq!(hash::Hash::from_str(z.to_hex_string()).unwrap(), z);
}
