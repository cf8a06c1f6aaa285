use sha1::{Digest, Sha1};
use torrent_core::engine::{BundleOutcome, Engine};
use torrent_core::field::{ByteField, COMPLETE, EMPTY, IN_PROGRESS};
use torrent_core::filemap::Storage;
use torrent_core::msg::{Header, Piece, Request, PIECE, REQUEST};

fn sha(bytes: &[u8]) -> Vec<u8> {
    let mut h = Sha1::new();
    h.update(bytes);
    h.finalize().to_vec()
}

fn block(index: u32, offset: u32, data: Vec<u8>) -> Piece {
    Piece {
        head: Header { len: 9 + data.len() as u32, byte: PIECE },
        index,
        offset,
        data,
    }
}

fn content(len: usize) -> Vec<u8> {
    (0..len).map(|i| (i % 251) as u8).collect()
}

fn request(index: u32, offset: u32, plen: u32) -> Request {
    Request { head: Header { len: 13, byte: REQUEST }, index, offset, plen }
}

/// Single file, one piece of 32768 bytes, two sub-pieces, no tail.
#[test]
fn single_piece_two_blocks() {
    let data = content(32768);
    let hashes = vec![sha(&data)];
    let store = Storage::new_zeroed(&vec![32768usize]);
    let mut e = Engine::new(32768, 32768, hashes, store);
    let idx = e.reserve(1).expect("one empty piece");
    assert_eq!(idx, 0);
    let bundle = vec![
        block(0, 0, data[..16384].to_vec()),
        block(0, 16384, data[16384..].to_vec()),
    ];
    match e.process_bundle(&bundle) {
        BundleOutcome::Committed(i) => assert_eq!(i, 0),
        _ => panic!("a correct bundle commits"),
    }
    assert_eq!(e.field.arr, vec![COMPLETE]);
    assert_eq!(e.store.files[0], data);
    assert!(e.is_complete());
}

/// Blocks arriving out of offset order still assemble.
#[test]
fn reordered_blocks_assemble() {
    let data = content(32768);
    let hashes = vec![sha(&data)];
    let store = Storage::new_zeroed(&vec![32768usize]);
    let mut e = Engine::new(32768, 32768, hashes, store);
    e.reserve(1).expect("reserve");
    let bundle = vec![
        block(0, 16384, data[16384..].to_vec()),
        block(0, 0, data[..16384].to_vec()),
    ];
    match e.process_bundle(&bundle) {
        BundleOutcome::Committed(0) => {}
        _ => panic!("order of arrival must not matter"),
    }
    assert_eq!(e.store.files[0], data);
}

/// A corrupted block sends the piece back to empty, and a second actor
/// fetches it correctly afterwards.
#[test]
fn hash_mismatch_recovers() {
    let data = content(16384);
    let hashes = vec![sha(&data)];
    let store = Storage::new_zeroed(&vec![16384usize]);
    let mut e = Engine::new(16384, 16384, hashes, store);
    e.reserve(7).expect("reserve for the first peer");
    let mut corrupted = data.clone();
    corrupted[100] ^= 0xFF;
    match e.process_bundle(&vec![block(0, 0, corrupted)]) {
        BundleOutcome::Rejected(0) => {}
        _ => panic!("a corrupted bundle is rejected"),
    }
    assert_eq!(e.field.arr, vec![EMPTY]);
    // another actor wakes up, reserves the piece, fetches correctly
    let idx = e.reserve(8).expect("piece is free again");
    assert_eq!(idx, 0);
    match e.process_bundle(&vec![block(0, 0, data.clone())]) {
        BundleOutcome::Committed(0) => {}
        _ => panic!("the clean bundle commits"),
    }
    assert_eq!(e.field.arr, vec![COMPLETE]);
}

/// The engine computes real SHA-1: a known digest commits, so the hash
/// step cannot be a pass-through of its input.
#[test]
fn sha1_known_digest() {
    let expected = vec![
        0xa9, 0x99, 0x3e, 0x36, 0x47, 0x06, 0x81, 0x6a, 0xba, 0x3e, 0x25, 0x71, 0x78, 0x50,
        0xc2, 0x6c, 0x9c, 0xd0, 0xd8, 0x9d,
    ];
    let store = Storage::new_zeroed(&vec![3usize]);
    let mut e = Engine::new(3, 3, vec![expected], store);
    e.reserve(1).expect("reserve");
    match e.process_bundle(&vec![block(0, 0, b"abc".to_vec())]) {
        BundleOutcome::Committed(0) => {}
        _ => panic!("the published SHA-1 of abc must match"),
    }
}

/// A prior run left the first pieces on disk; resume reclaims exactly
/// those.
#[test]
fn resume_reclaims_prior_pieces() {
    let piece_len = 16384usize;
    let num = 3usize;
    let total = piece_len * num;
    let data = content(total);
    let hashes: Vec<Vec<u8>> = (0..num)
        .map(|i| sha(&data[i * piece_len..(i + 1) * piece_len]))
        .collect();
    // pieces 0 and 1 were written, piece 2 is still zeroed
    let mut file = data.clone();
    for b in &mut file[2 * piece_len..] {
        *b = 0;
    }
    let store = Storage { files: vec![file] };
    let mut e = Engine::new(piece_len, total, hashes, store);
    e.resume(0);
    assert_eq!(e.field.arr, vec![COMPLETE, COMPLETE, EMPTY]);
    assert_eq!(e.seeded, 0);
}

/// After completion an inbound request is answered with the stored block
/// and counted; a request out of range or for an incomplete piece gets
/// nothing.
#[test]
fn seed_after_complete() {
    let data = content(16384);
    let hashes = vec![sha(&data)];
    let store = Storage { files: vec![data.clone()] };
    let mut e = Engine::new(16384, 16384, hashes, store);
    e.resume(0);
    assert!(e.is_complete());
    let before = e.seeded;
    let reply = e.fulfill_request(&request(0, 0, 16384)).expect("block is served");
    assert_eq!(reply.index, 0);
    assert_eq!(reply.offset, 0);
    assert_eq!(reply.data, data);
    assert_eq!(reply.head.byte, PIECE);
    assert_eq!(e.seeded, before + 1);
    // out of range: no reply, counter unchanged
    assert!(e.fulfill_request(&request(5, 0, 16384)).is_none());
    assert!(e.fulfill_request(&request(0, 16384, 16384)).is_none());
    assert_eq!(e.seeded, before + 1);
}

/// The torrent's final short sub-piece is served, truncated at the piece
/// end, like every other block.
#[test]
fn seed_serves_short_tail() {
    // two pieces: 32768 bytes and a 7232-byte tail
    let total = 40000usize;
    let data = content(total);
    let hashes = vec![sha(&data[..32768]), sha(&data[32768..])];
    let store = Storage { files: vec![data.clone()] };
    let mut e = Engine::new(32768, total, hashes, store);
    e.resume(0);
    assert!(e.is_complete());
    // asking for a whole block of the tail returns the 7232 bytes there
    let reply = e.fulfill_request(&request(1, 0, 16384)).expect("tail is served");
    assert_eq!(reply.data, &data[32768..]);
    assert_eq!(reply.data.len(), 7232);
    assert_eq!(reply.head.len, 7232 + 9);
    assert_eq!(reply.head.byte, PIECE);
    assert_eq!(e.seeded, 1);
    // an offset at or past the piece end still gets nothing
    assert!(e.fulfill_request(&request(1, 7232, 16384)).is_none());
    assert_eq!(e.seeded, 1);
}

/// A final piece shorter than one block is served whole.
#[test]
fn seed_serves_piece_shorter_than_block() {
    let total = 20000usize;
    let data = content(total);
    let hashes = vec![sha(&data[..16384]), sha(&data[16384..])];
    let store = Storage { files: vec![data.clone()] };
    let mut e = Engine::new(16384, total, hashes, store);
    e.resume(0);
    let reply = e.fulfill_request(&request(1, 0, 16384)).expect("short piece is served");
    assert_eq!(reply.data, &data[16384..]);
    assert_eq!(reply.data.len(), 3616);
    assert_eq!(reply.head.len, 3616 + 9);
}

/// A request for a piece that is not complete gets no reply.
#[test]
fn no_seed_for_incomplete_piece() {
    let store = Storage::new_zeroed(&vec![16384usize]);
    let mut e = Engine::new(16384, 16384, vec![vec![0u8; 20]], store);
    assert!(e.fulfill_request(&request(0, 0, 16384)).is_none());
    assert_eq!(e.seeded, 0);
}

/// Reservation hands out the lowest empty piece once; a released piece
/// can be taken again.
#[test]
fn reserve_release_cycle() {
    let store = Storage::new_zeroed(&vec![48usize]);
    let hashes = vec![vec![0u8; 20], vec![1u8; 20], vec![2u8; 20]];
    let mut e = Engine::new(16, 48, hashes, store);
    assert_eq!(e.reserve(1), Some(0));
    assert_eq!(e.reserve(2), Some(1));
    assert_eq!(e.field.arr, vec![IN_PROGRESS, IN_PROGRESS, EMPTY]);
    assert_eq!(e.owners[0], 1);
    assert_eq!(e.owners[1], 2);
    e.release(1, 0);
    assert_eq!(e.field.arr, vec![EMPTY, IN_PROGRESS, EMPTY]);
    assert_eq!(e.reserve(3), Some(0));
    assert_eq!(e.reserve(4), Some(2));
    assert_eq!(e.reserve(5), None);
    assert!(!e.is_reservable());
    assert_eq!(e.count_complete(), 0);
}

/// Multi-file boundary: a piece written across two files reads back.
#[test]
fn multi_file_boundary() {
    // files of 10000 and 30000 bytes, piece length 16384
    let total = 40000usize;
    let piece_len = 16384usize;
    let data = content(total);
    let hashes: Vec<Vec<u8>> = vec![
        sha(&data[0..16384]),
        sha(&data[16384..32768]),
        sha(&data[32768..40000]),
    ];
    let store = Storage::new_zeroed(&vec![10000usize, 30000usize]);
    let mut e = Engine::new(piece_len, total, hashes, store);
    // piece 0 straddles the file boundary
    e.reserve(1).expect("reserve piece 0");
    match e.process_bundle(&vec![block(0, 0, data[0..16384].to_vec())]) {
        BundleOutcome::Committed(0) => {}
        _ => panic!("piece 0 commits"),
    }
    assert_eq!(&e.store.files[0][..], &data[0..10000]);
    assert_eq!(&e.store.files[1][..6384], &data[10000..16384]);
    // piece 1 lies inside the second file
    e.reserve(1).expect("reserve piece 1");
    match e.process_bundle(&vec![block(1, 0, data[16384..32768].to_vec())]) {
        BundleOutcome::Committed(1) => {}
        _ => panic!("piece 1 commits"),
    }
    // piece 2 is the short tail
    e.reserve(1).expect("reserve piece 2");
    match e.process_bundle(&vec![block(2, 0, data[32768..40000].to_vec())]) {
        BundleOutcome::Committed(2) => {}
        _ => panic!("piece 2 commits"),
    }
    // reading any sub-piece returns the originally written bytes
    let r = e.fulfill_request(&request(0, 0, 16384)).expect("read across the boundary");
    assert_eq!(r.data, &data[0..16384]);
    let r1 = e.fulfill_request(&request(1, 0, 16384)).expect("read second piece");
    assert_eq!(r1.data, &data[16384..32768]);
}

/// A bundle that does not cover its piece is rejected, not committed.
#[test]
fn short_bundle_rejected() {
    let data = content(32768);
    let hashes = vec![sha(&data)];
    let store = Storage::new_zeroed(&vec![32768usize]);
    let mut e = Engine::new(32768, 32768, hashes, store);
    e.reserve(1).expect("reserve");
    match e.process_bundle(&vec![block(0, 0, data[..16384].to_vec())]) {
        BundleOutcome::Rejected(0) => {}
        _ => panic!("a bundle missing blocks is rejected"),
    }
    assert_eq!(e.field.arr, vec![EMPTY]);
}

/// A fetch bitmap fills as sub-pieces arrive; offsets past the map are
/// ignored.
#[test]
fn subpiece_bitmap_fills() {
    let mut f = ByteField::new(2);
    assert!(!f.mark_subpiece(0));
    assert!(!f.mark_subpiece(5 * 16384)); // out of range, no change
    assert_eq!(f.arr, vec![COMPLETE, EMPTY]);
    assert!(f.mark_subpiece(16384));
    assert_eq!(f.arr, vec![COMPLETE, COMPLETE]);
}

/// The shutdown condition counts served blocks in whole pieces, rounding
/// up, against the piece count.
#[test]
fn share_reached_counts_whole_uploads() {
    // two pieces of two blocks each: three served blocks round up to two
    // pieces' worth and reach the share, two do not
    let data = content(65536);
    let hashes = vec![sha(&data[..32768]), sha(&data[32768..])];
    let store = Storage { files: vec![data.clone()] };
    let mut e = Engine::new(32768, 65536, hashes, store);
    e.resume(0);
    assert!(!e.share_reached());
    e.fulfill_request(&request(0, 0, 16384)).expect("first block");
    e.fulfill_request(&request(0, 16384, 16384)).expect("second block");
    assert!(!e.share_reached());
    e.fulfill_request(&request(1, 0, 16384)).expect("third block");
    assert!(e.share_reached());
}

/// A piece shorter than one block still counts as one block per piece.
#[test]
fn share_reached_short_piece() {
    let store = Storage::new_zeroed(&vec![100usize]);
    let mut e = Engine::new(100, 100, vec![vec![0u8; 20]], store);
    assert!(!e.share_reached());
    e.seeded = 1;
    assert!(e.share_reached());
}

/// A bundle for a piece nobody reserved changes nothing.
#[test]
fn bundle_without_reservation_is_invalid() {
    let data = content(16384);
    let hashes = vec![sha(&data)];
    let store = Storage::new_zeroed(&vec![16384usize]);
    let mut e = Engine::new(16384, 16384, hashes, store);
    match e.process_bundle(&vec![block(0, 0, data)]) {
        BundleOutcome::Invalid => {}
        _ => panic!("no reservation, no effect"),
    }
    assert_eq!(e.field.arr, vec![EMPTY]);
}
