use torrent_core::msg::{
    partial_parse, try_parse, parse_msg, parse_u32, push_be32, Handshake, Header, Have,
    Bitfield, Request, Piece, Cancel, Message, CHOKE, UNCHOKE, INTEREST, HAVE, BITFIELD,
    REQUEST, PIECE, CANCEL,
};

fn sample_handshake() -> Vec<u8> {
    let mut hs = Handshake::default();
    hs.info_hash = vec![7u8; 20];
    hs.peer_id = vec![9u8; 20];
    hs.as_bytes()
}

fn sample_request() -> Vec<u8> {
    Request {
        head: Header { len: 13, byte: REQUEST },
        index: 3,
        offset: 16384,
        plen: 16384,
    }
    .as_bytes()
}

fn kind(m: &Message) -> u8 {
    match m {
        Message::Handshake(_) => 100,
        Message::Choke(_) => CHOKE,
        Message::Unchoke(_) => UNCHOKE,
        Message::Interest(_) => INTEREST,
        Message::Uninterest(_) => 3,
        Message::Have(_) => HAVE,
        Message::Bitfield(_) => BITFIELD,
        Message::Request(_) => REQUEST,
        Message::Piece(_) => PIECE,
        Message::Cancel(_) => CANCEL,
    }
}

fn stream() -> Vec<u8> {
    let mut s = sample_handshake();
    s.extend_from_slice(&Header { len: 1, byte: INTEREST }.as_bytes());
    s.extend_from_slice(&[0, 0, 0, 0]); // keep-alive, consumed silently
    s.extend_from_slice(&sample_request());
    s
}

#[test]
fn parse_whole_stream() {
    let mut buf = stream();
    assert!(try_parse(&buf));
    let (ok, msgs) = partial_parse(&mut buf);
    assert!(ok);
    assert!(buf.is_empty());
    let kinds: Vec<u8> = msgs.iter().map(kind).collect();
    assert_eq!(kinds, vec![100, INTEREST, REQUEST]);
    match &msgs[2] {
        Message::Request(q) => {
            assert_eq!(q.index, 3);
            assert_eq!(q.offset, 16384);
            assert_eq!(q.plen, 16384);
        }
        _ => panic!("third message must be the request"),
    }
}

#[test]
fn partial_parse_is_incremental() {
    // for every split of a well-formed stream, feeding the two halves
    // yields the same messages as feeding the whole
    let whole = stream();
    let mut reference = whole.clone();
    let (_, expect) = partial_parse(&mut reference);
    let expect_kinds: Vec<u8> = expect.iter().map(kind).collect();
    for cut in 0..=whole.len() {
        let mut first = whole[..cut].to_vec();
        let (ok1, ms1) = partial_parse(&mut first);
        assert!(ok1, "a prefix of a well-formed stream stays healthy");
        // the tail stays in place; append the second half and go on
        first.extend_from_slice(&whole[cut..]);
        let (ok2, ms2) = partial_parse(&mut first);
        assert!(ok2);
        assert!(first.is_empty());
        let mut kinds: Vec<u8> = ms1.iter().map(kind).collect();
        kinds.extend(ms2.iter().map(kind));
        assert_eq!(kinds, expect_kinds, "split at {}", cut);
    }
}

#[test]
fn partial_parse_reports_malformed() {
    let mut buf = vec![0, 0, 0, 1, 9]; // tag 9 is unknown
    let (ok, msgs) = partial_parse(&mut buf);
    assert!(!ok);
    assert!(msgs.is_empty());
    assert_eq!(buf, vec![0, 0, 0, 1, 9]);
}

#[test]
fn partial_parse_keeps_incomplete_tail() {
    let mut buf = vec![0, 0, 0, 13, REQUEST, 0, 0]; // request frame cut short
    let (ok, msgs) = partial_parse(&mut buf);
    assert!(ok);
    assert!(msgs.is_empty());
    assert_eq!(buf.len(), 7);
}

#[test]
fn try_parse_and_parse_msg() {
    assert!(!try_parse(&Vec::new()));
    let mut buf = stream();
    assert!(try_parse(&buf));
    let msgs = parse_msg(&mut buf);
    assert_eq!(msgs.len(), 3);
    assert!(buf.is_empty());
    assert!(!try_parse(&vec![0, 0, 0, 1, 9]));
}

#[test]
fn struct_parsers_consume_exact_frames() {
    let mut h = vec![0, 0, 0, 5, HAVE, 0, 0, 0, 2, 99];
    let have = Have::parse(&mut h).expect("valid HAVE");
    assert_eq!(have.index, 2);
    assert_eq!(h, vec![99]);

    let mut b = vec![0, 0, 0, 3, BITFIELD, 0xAA, 0x55, 7];
    let bf = Bitfield::parse(&mut b).expect("valid BITFIELD");
    assert_eq!(bf.data, vec![0xAA, 0x55]);
    assert_eq!(b, vec![7]);

    let mut p = vec![0, 0, 0, 11, PIECE, 0, 0, 0, 1, 0, 0, 64, 0, 5, 6];
    let pc = Piece::parse(&mut p).expect("valid PIECE");
    assert_eq!(pc.index, 1);
    assert_eq!(pc.offset, 16384);
    assert_eq!(pc.data, vec![5, 6]);
    assert!(p.is_empty());

    let mut c = vec![0, 0, 0, 13, CANCEL, 0, 0, 0, 1, 0, 0, 0, 2, 0, 0, 0, 3];
    let cl = Cancel::parse(&mut c).expect("valid CANCEL");
    assert_eq!((cl.index, cl.offset, cl.plen), (1, 2, 3));

    let mut bad = vec![0, 0, 0, 5, HAVE, 0, 0, 0]; // too short
    assert!(Have::parse(&mut bad).is_none());
    assert_eq!(bad.len(), 8);
}

#[test]
fn handshake_parse_checks_protocol() {
    let mut good = sample_handshake();
    let hs = Handshake::parse(&mut good).expect("valid handshake");
    assert!(hs.test());
    assert_eq!(hs.info_hash, vec![7u8; 20]);
    assert!(good.is_empty());

    let mut bad = sample_handshake();
    bad[1] = b'X';
    assert!(Handshake::parse(&mut bad).is_none());
    assert_eq!(bad.len(), 68);
}

#[test]
fn u32_round_trip() {
    let mut out = Vec::new();
    push_be32(&mut out, 0xDEADBEEF);
    assert_eq!(out, vec![0xDE, 0xAD, 0xBE, 0xEF]);
    assert_eq!(parse_u32(&out, 0), 0xDEADBEEF);
}

#[test]
fn piece_as_bytes_reparses() {
    let pc = Piece {
        head: Header { len: 9 + 3, byte: PIECE },
        index: 4,
        offset: 0,
        data: vec![1, 2, 3],
    };
    let mut bytes = pc.as_bytes();
    let back = Piece::parse(&mut bytes).expect("own encoding parses");
    assert_eq!(back.index, 4);
    assert_eq!(back.data, vec![1, 2, 3]);
    assert!(bytes.is_empty());
}
