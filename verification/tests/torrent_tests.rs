use sha1::{Digest, Sha1};
use torrent_core::bencode::{encode, Item};
use torrent_core::hash::{get_info_hash, split_hashes};
use torrent_core::torrent::Torrent;
use torrent_core::SUBPIECE_LEN;

fn sha(bytes: &[u8]) -> Vec<u8> {
    let mut h = Sha1::new();
    h.update(bytes);
    h.finalize().to_vec()
}

/// Bencoded metainfo for one file of `total` bytes in `piece_len` pieces.
fn single_file_metainfo(piece_len: i64, total: i64, pieces: Vec<u8>) -> Vec<u8> {
    let info = Item::Dict(vec![
        (b"length".to_vec(), Item::Int(total)),
        (b"name".to_vec(), Item::String(b"payload.bin".to_vec())),
        (b"piece length".to_vec(), Item::Int(piece_len)),
        (b"pieces".to_vec(), Item::String(pieces)),
    ]);
    let root = Item::Dict(vec![
        (b"announce".to_vec(), Item::String(b"udp://tracker.example:6969/announce".to_vec())),
        (b"info".to_vec(), info),
    ]);
    encode(&vec![root])
}

#[test]
fn single_file_parses() {
    let bytes = single_file_metainfo(32768, 40000, [sha(b"a"), sha(b"b")].concat());
    let t = Torrent::new(&bytes).expect("valid metainfo");
    assert_eq!(t.piece_len, 32768);
    assert_eq!(t.num_pieces, 2);
    assert_eq!(t.file_len, 40000);
    assert_eq!(t.name, b"payload.bin".to_vec());
    assert_eq!(t.files.len(), 1);
    assert_eq!(t.files[0].length, 40000);
    assert_eq!(t.files[0].path, vec![b"payload.bin".to_vec()]);
    assert_eq!(t.hashes.len(), 2);
    assert_eq!(t.hashes[0], sha(b"a"));
}

#[test]
fn info_hash_covers_on_wire_info_range() {
    let bytes = single_file_metainfo(16384, 16384, sha(b"x"));
    let t = Torrent::new(&bytes).expect("valid metainfo");
    // the info value is the byte range from its opening 'd' to the byte
    // before the final 'e' that closes the outer dictionary
    let marker = b"4:infod";
    let start = bytes
        .windows(7)
        .position(|w| w == marker)
        .expect("metainfo names its info dictionary")
        + 6;
    let span = &bytes[start..bytes.len() - 1];
    assert_eq!(t.info_hash, sha(span));
    assert_eq!(get_info_hash(&bytes).expect("marker found"), sha(span));
}

#[test]
fn multi_file_parses() {
    let f1 = Item::Dict(vec![
        (b"length".to_vec(), Item::Int(10000)),
        (b"path".to_vec(), Item::List(vec![Item::String(b"a.bin".to_vec())])),
    ]);
    let f2 = Item::Dict(vec![
        (b"length".to_vec(), Item::Int(30000)),
        (b"path".to_vec(), Item::List(vec![
            Item::String(b"sub".to_vec()),
            Item::String(b"b.bin".to_vec()),
        ])),
    ]);
    let info = Item::Dict(vec![
        (b"files".to_vec(), Item::List(vec![f1, f2])),
        (b"name".to_vec(), Item::String(b"album".to_vec())),
        (b"piece length".to_vec(), Item::Int(16384)),
        (b"pieces".to_vec(), Item::String([sha(b"1"), sha(b"2"), sha(b"3")].concat())),
    ]);
    let root = Item::Dict(vec![(b"info".to_vec(), info)]);
    let bytes = encode(&vec![root]);
    let t = Torrent::new(&bytes).expect("valid multi-file metainfo");
    assert_eq!(t.file_len, 40000);
    assert_eq!(t.num_pieces, 3);
    assert_eq!(t.files.len(), 2);
    assert_eq!(t.files[1].path, vec![b"sub".to_vec(), b"b.bin".to_vec()]);
    assert_eq!(t.files[1].length, 30000);
}

#[test]
fn invalid_metainfo_is_refused() {
    // unparseable bytes
    assert!(Torrent::new(&b"not bencode".to_vec()).is_err());
    // missing info key
    let root = Item::Dict(vec![(b"announce".to_vec(), Item::String(b"x".to_vec()))]);
    assert!(Torrent::new(&encode(&vec![root])).is_err());
    // total length does not fit the piece geometry: 2 pieces of 16384
    // cannot carry 40000 bytes
    let bytes = single_file_metainfo(16384, 40000, [sha(b"a"), sha(b"b")].concat());
    assert!(Torrent::new(&bytes).is_err());
    // hash string is no multiple of twenty bytes
    let bytes = single_file_metainfo(16384, 16384, vec![1, 2, 3]);
    assert!(Torrent::new(&bytes).is_err());
}

#[test]
fn final_piece_length_is_the_remainder() {
    let bytes = single_file_metainfo(32768, 40000, [sha(b"a"), sha(b"b")].concat());
    let t = Torrent::new(&bytes).expect("valid metainfo");
    assert_eq!(t.final_piece_len(), 40000 - 32768);
}

#[test]
fn total_equal_to_piece_length_means_one_piece() {
    let bytes = single_file_metainfo(32768, 32768, sha(b"only"));
    let t = Torrent::new(&bytes).expect("valid metainfo");
    assert_eq!(t.num_pieces, 1);
    assert_eq!(t.final_piece_len(), 32768);
    // the fetch path still issues requests for the one piece
    let reqs = t.plan_requests(0);
    assert_eq!(reqs.len(), 2);
    assert_eq!(reqs[0].plen, SUBPIECE_LEN);
    assert_eq!(reqs[1].plen, SUBPIECE_LEN);
}

#[test]
fn request_plan_with_tail() {
    // two pieces; the second is the 7232-byte tail, one short sub-piece
    let bytes = single_file_metainfo(32768, 40000, [sha(b"a"), sha(b"b")].concat());
    let t = Torrent::new(&bytes).expect("valid metainfo");
    assert_eq!(t.final_piece_len(), 7232);
    let r0 = t.plan_requests(0);
    let r1 = t.plan_requests(1);
    assert_eq!(r0.len() + r1.len(), 3);
    assert_eq!(r0.len(), 2);
    assert_eq!((r0[0].offset, r0[0].plen), (0, 16384));
    assert_eq!((r0[1].offset, r0[1].plen), (16384, 16384));
    assert_eq!(r1.len(), 1);
    // the final request carries the short tail
    assert_eq!((r1[0].offset, r1[0].plen), (0, 7232));
    assert_eq!(r1[0].index, 1);
    assert_eq!(r1[0].head.byte, torrent_core::msg::REQUEST);
}

#[test]
fn request_plan_with_block_tail() {
    // a final piece longer than one block: sub-pieces of 16384 and 7232
    let bytes = single_file_metainfo(32768, 56384, [sha(b"a"), sha(b"b")].concat());
    let t = Torrent::new(&bytes).expect("valid metainfo");
    assert_eq!(t.final_piece_len(), 23616);
    let r0 = t.plan_requests(0);
    let r1 = t.plan_requests(1);
    assert_eq!(r0.len() + r1.len(), 4);
    assert_eq!(r1.len(), 2);
    assert_eq!((r1[0].offset, r1[0].plen), (0, 16384));
    assert_eq!((r1[1].offset, r1[1].plen), (16384, 7232));
}

#[test]
fn split_hashes_cuts_twenty_byte_digests() {
    let flat: Vec<u8> = (0u8..40).collect();
    let hs = split_hashes(&flat);
    assert_eq!(hs.len(), 2);
    assert_eq!(hs[0], (0u8..20).collect::<Vec<u8>>());
    assert_eq!(hs[1], (20u8..40).collect::<Vec<u8>>());
}
