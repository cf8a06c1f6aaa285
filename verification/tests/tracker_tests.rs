use torrent_core::bencode::{encode, Item};
use torrent_core::tracker::{
    announce_request, connect_request, get_addr, http_get_bytes, make_addr,
    parse_announce_resp, parse_connect_resp, peers_from_tree, strip_http_header, IpPort,
    TrackerError, TrackerProto,
};

#[test]
fn connect_request_shape() {
    let (req, tid) = connect_request();
    assert_eq!(req.len(), 16);
    // protocol magic, big-endian
    assert_eq!(&req[..8], &[0x00, 0x00, 0x04, 0x17, 0x27, 0x10, 0x19, 0x80]);
    // connect action
    assert_eq!(&req[8..12], &[0, 0, 0, 0]);
    // transaction id, big-endian
    let back = u32::from_be_bytes([req[12], req[13], req[14], req[15]]);
    assert_eq!(back, tid);
}

#[test]
fn connect_response_parses() {
    let mut resp = vec![0, 0, 0, 0, 0, 0, 0, 7];
    resp.extend_from_slice(&[1, 2, 3, 4, 5, 6, 7, 8]);
    assert_eq!(parse_connect_resp(&resp, 7), Some(0x0102030405060708));
    assert_eq!(parse_connect_resp(&resp, 8), None); // wrong transaction id
    assert_eq!(parse_connect_resp(&resp[..12].to_vec(), 7), None); // short
}

#[test]
fn announce_request_shape() {
    let ih = vec![0xAAu8; 20];
    let pid = vec![0xBBu8; 20];
    let req = announce_request(0x1122334455667788, 9, &ih, &pid, 1000, 0x8B266989, 32, 6881);
    assert_eq!(req.len(), 98);
    assert_eq!(&req[..8], &[0x11, 0x22, 0x33, 0x44, 0x55, 0x66, 0x77, 0x88]);
    assert_eq!(&req[8..12], &[0, 0, 0, 1]); // announce action
    assert_eq!(&req[12..16], &[0, 0, 0, 9]);
    assert_eq!(&req[16..36], &ih[..]);
    assert_eq!(&req[36..56], &pid[..]);
    assert_eq!(&req[64..72], &1000u64.to_be_bytes());
    assert_eq!(&req[96..98], &6881u16.to_be_bytes());
}

#[test]
fn announce_response_parses_whole_pairs() {
    let mut resp = Vec::new();
    resp.extend_from_slice(&[0, 0, 0, 1]); // action
    resp.extend_from_slice(&[0, 0, 0, 5]); // transaction id
    resp.extend_from_slice(&[0, 0, 0, 60]); // interval
    resp.extend_from_slice(&[0, 0, 0, 2]); // leechers
    resp.extend_from_slice(&[0, 0, 0, 3]); // seeders
    resp.extend_from_slice(&[10, 0, 0, 1, 0x1A, 0xE1]); // 10.0.0.1:6881
    resp.extend_from_slice(&[192, 168, 0, 9, 0x1A, 0xE2]); // 192.168.0.9:6882
    resp.extend_from_slice(&[9, 9]); // trailing fragment, ignored
    let (interval, leechers, seeders, peers) =
        parse_announce_resp(&resp, 5).expect("valid announce response");
    assert_eq!((interval, leechers, seeders), (60, 2, 3));
    assert_eq!(peers.len(), 2);
    assert_eq!(peers[0].ip, u32::from_be_bytes([10, 0, 0, 1]));
    assert_eq!(peers[0].port, 6881);
    assert_eq!(peers[1].port, 6882);
    assert!(parse_announce_resp(&resp, 6).is_none());
}

#[test]
fn compact_peer_list_parses() {
    let bytes = vec![1, 2, 3, 4, 0x1A, 0xE1, 5, 6, 7, 8, 0x1A, 0xE9];
    let peers = IpPort::from_bytes(&bytes);
    assert_eq!(peers.len(), 2);
    assert_eq!(peers[0].ip, u32::from_be_bytes([1, 2, 3, 4]));
    assert_eq!(peers[1].port, 6889);
    // a ragged list counts as empty
    assert!(IpPort::from_bytes(&bytes[..7].to_vec()).is_empty());
}

#[test]
fn http_request_bytes() {
    let ih: Vec<u8> = vec![0x01, 0xAB, 0xFF, 0x00, 0x10, 0x01, 0xAB, 0xFF, 0x00, 0x10,
        0x01, 0xAB, 0xFF, 0x00, 0x10, 0x01, 0xAB, 0xFF, 0x00, 0x10];
    let pid = b"-vt0001-abcdefghijkl".to_vec();
    let req = http_get_bytes(&ih, &pid, 6881, 12345, 50);
    let text = String::from_utf8(req).expect("request is ascii");
    let expected = format!(
        "GET /announce?info_hash={}&peer_id=-vt0001-abcdefghijkl&port=6881\
         &uploaded=0&downloaded=0&left=12345&compact=1&numwant=50\
         &event=started HTTP/1.1\r\n\r\n",
        "%01%ab%ff%00%10".repeat(4)
    );
    assert_eq!(text, expected);
}

#[test]
fn http_header_is_stripped() {
    let mut reply = b"HTTP/1.1 200 OK\r\nContent-Type: text/plain\r\n\r\n".to_vec();
    reply.extend_from_slice(b"d5:peers0:e");
    let body = strip_http_header(&reply).expect("header ends");
    assert_eq!(body, b"d5:peers0:e".to_vec());
    assert!(strip_http_header(&b"no blank line".to_vec()).is_none());
}

#[test]
fn peers_and_failure_from_tracker_reply() {
    let ok = Item::Dict(vec![(
        b"peers".to_vec(),
        Item::String(vec![10, 0, 0, 1, 0x1A, 0xE1]),
    )]);
    let peers = peers_from_tree(&vec![ok]).expect("peers present");
    assert_eq!(peers.len(), 1);
    assert_eq!(peers[0].port, 6881);

    let failing = Item::Dict(vec![(
        b"failure reason".to_vec(),
        Item::String(b"torrent not registered".to_vec()),
    )]);
    match peers_from_tree(&vec![failing]) {
        Err(TrackerError::Failure(reason)) => {
            assert_eq!(reason, b"torrent not registered".to_vec());
        }
        _ => panic!("a failure reason surfaces as an error"),
    }

    match peers_from_tree(&vec![Item::Int(3)]) {
        Err(TrackerError::Malformed) => {}
        _ => panic!("a reply that is no dictionary is malformed"),
    }

    // a ragged peer string is malformed too
    let ragged = Item::Dict(vec![(
        b"peers".to_vec(),
        Item::String(vec![10, 0, 0, 1, 0x1A]),
    )]);
    match peers_from_tree(&vec![ragged]) {
        Err(TrackerError::Malformed) => {}
        _ => panic!("a ragged peer list is malformed"),
    }
}

#[test]
fn tracker_addresses_from_urls() {
    let a = make_addr(&b"udp://tracker.example:6969/announce".to_vec()).expect("udp url");
    assert!(matches!(a.proto, TrackerProto::Udp));
    assert_eq!(a.hostport, b"tracker.example:6969".to_vec());

    let b = make_addr(&b"http://tracker.example/announce".to_vec()).expect("http url");
    assert!(matches!(b.proto, TrackerProto::Http));
    assert_eq!(b.hostport, b"tracker.example:80".to_vec());

    assert!(make_addr(&b"https://secure.example/announce".to_vec()).is_err());
    assert!(make_addr(&b"ftp://old.example".to_vec()).is_err());
}

#[test]
fn endpoint_choice_prefers_announce() {
    let root = Item::Dict(vec![
        (b"announce".to_vec(), Item::String(b"http://first.example/announce".to_vec())),
        (
            b"announce-list".to_vec(),
            Item::List(vec![Item::List(vec![Item::String(
                b"udp://second.example:1/announce".to_vec(),
            )])]),
        ),
    ]);
    let a = get_addr(&vec![root]).expect("announce names a usable tracker");
    assert!(matches!(a.proto, TrackerProto::Http));
    assert_eq!(a.hostport, b"first.example:80".to_vec());
}

#[test]
fn endpoint_choice_falls_back_to_announce_list() {
    let root = Item::Dict(vec![
        (b"announce".to_vec(), Item::String(b"https://no.example/announce".to_vec())),
        (
            b"announce-list".to_vec(),
            Item::List(vec![
                Item::List(vec![Item::String(b"wss://also-no.example".to_vec())]),
                Item::List(vec![Item::String(b"udp://yes.example:1337/announce".to_vec())]),
            ]),
        ),
    ]);
    let tree = vec![root];
    let a = get_addr(&tree).expect("the list names a usable tracker");
    assert!(matches!(a.proto, TrackerProto::Udp));
    assert_eq!(a.hostport, b"yes.example:1337".to_vec());

    let bare = vec![Item::Dict(Vec::new())];
    assert!(get_addr(&bare).is_err());
}
