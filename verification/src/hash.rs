//! Piece hashing: the SHA-1 digest named abstractly, the splitting of the
//! metainfo hash string into per-piece digests, and digest comparison.

use sha1::Digest;
use vstd::prelude::*;

verus! {

/// The twenty-byte SHA-1 digest of a byte string. The function itself is
/// left unspecified; everything proved about digests goes through this name.
pub uninterp spec fn sha1_of(bytes: Seq<u8>) -> Seq<u8>;

/// Relies on sha1::Sha1 (via the Digest trait): one-shot SHA-1 of the
/// input, twenty bytes, a function of the input bytes alone.
#[verifier::external_body]
pub fn sha1(bytes: &Vec<u8>) -> (r: Vec<u8>)
    ensures
        r@ == sha1_of(bytes@),
        r@.len() == 20,
{
    let mut hasher = sha1::Sha1::new();
    hasher.update(bytes);
    hasher.finalize().to_vec()
}

/// Cuts the metainfo's flat hash string into twenty-byte digests.
pub fn split_hashes(hashes: &Vec<u8>) -> (r: Vec<Vec<u8>>)
    ensures
        r@.len() == hashes@.len() as int / 20,
        forall|i: int| 0 <= i < r@.len()
            ==> (#[trigger] r@[i])@ == hashes@.subrange(20 * i, 20 * i + 20),
{
    let num_pieces = hashes.len() / 20;
    proof {
        assert(20 * (hashes@.len() as int / 20) <= hashes@.len()) by (nonlinear_arith)
            requires hashes@.len() >= 0,
        ;
    }
    let mut out: Vec<Vec<u8>> = Vec::new();
    let mut i: usize = 0;
    while i < num_pieces
        invariant
            i <= num_pieces,
            num_pieces == hashes@.len() as int / 20,
            hashes@.len() <= usize::MAX,
            20 * num_pieces <= hashes@.len(),
            out@.len() == i,
            forall|k: int| 0 <= k < i
                ==> (#[trigger] out@[k])@ == hashes@.subrange(20 * k, 20 * k + 20),
        decreases num_pieces - i,
    {
        let mut h: Vec<u8> = Vec::new();
        let mut j: usize = 0;
        while j < 20
            invariant
                j <= 20,
                i < num_pieces,
                num_pieces <= hashes@.len() as int / 20,
                hashes@.len() <= usize::MAX,
                20 * num_pieces <= hashes@.len(),
                h@ == hashes@.subrange(20 * i as int, 20 * i + j),
            decreases 20 - j,
        {
            h.push(hashes[20 * i + j]);
            proof {
                assert(h@ =~= hashes@.subrange(20 * i as int, 20 * i + j + 1));
            }
            j += 1;
        }
        out.push(h);
        i += 1;
    }
    out
}

/// The marker that opens the raw `info` dictionary in a metainfo file.
pub open spec fn info_marker() -> Seq<u8> {
    seq![52u8, 58u8, 105u8, 110u8, 102u8, 111u8, 100u8]
}

/// Position of the first occurrence of the marker at or after `w`, or -1.
pub open spec fn find_marker(s: Seq<u8>, w: int) -> int
    decreases s.len() - w when 0 <= w <= s.len()
{
    if w + 7 > s.len() {
        -1
    } else if s.subrange(w, w + 7) == info_marker() {
        w
    } else {
        find_marker(s, w + 1)
    }
}

/// SHA-1 of the on-wire byte range of the `info` sub-map: everything from
/// the dictionary opener after the first `4:info` key through the byte
/// before the outer dictionary's closing byte.
pub fn get_info_hash(bytes: &Vec<u8>) -> (r: Option<Vec<u8>>)
    ensures
        (r is Some) == (find_marker(bytes@, 0) != -1),
        r is Some ==> ({
            let w = find_marker(bytes@, 0);
            r->0@ == sha1_of(bytes@.subrange(w + 6, bytes@.len() - 1))
                && r->0@.len() == 20
        }),
{
    let len = bytes.len();
    if len < 7 {
        return None;
    }
    let mut w: usize = 0;
    while w <= len - 7
        invariant
            w <= len - 6,
            7 <= len == bytes@.len(),
            find_marker(bytes@, 0) == find_marker(bytes@, w as int),
        decreases len - w,
    {
        if bytes[w] == 52 && bytes[w + 1] == 58 && bytes[w + 2] == 105
            && bytes[w + 3] == 110 && bytes[w + 4] == 102 && bytes[w + 5] == 111
            && bytes[w + 6] == 100 {
            proof {
                assert(bytes@.subrange(w as int, w + 7int) =~= info_marker());
                assert(find_marker(bytes@, w as int) == w as int);
            }
            let span = crate::msg::copy_range(bytes, w + 6, len - 1);
            return Some(sha1(&span));
        }
        proof {
            let sub = bytes@.subrange(w as int, w + 7int);
            if sub == info_marker() {
                assert(sub[0] == bytes@[w as int]);
                assert(sub[1] == bytes@[w + 1int]);
                assert(sub[2] == bytes@[w + 2int]);
                assert(sub[3] == bytes@[w + 3int]);
                assert(sub[4] == bytes@[w + 4int]);
                assert(sub[5] == bytes@[w + 5int]);
                assert(sub[6] == bytes@[w + 6int]);
                assert(false);
            }
            assert(find_marker(bytes@, w as int) == find_marker(bytes@, w + 1int));
        }
        w += 1;
    }
    proof {
        assert(find_marker(bytes@, w as int) == -1);
    }
    None
}

/// Do two digests hold the same bytes?
pub fn digest_matches(d: &Vec<u8>, expected: &Vec<u8>) -> (r: bool)
    ensures
        r == (d@ == expected@),
{
    crate::bencode::bytes_eq(d, expected)
}

} // verus!
