//! Core logic of a BitTorrent v1 client: bencode trees, the peer-wire
//! codec, piece bookkeeping, the file span mapper, and the hash/commit
//! engine, each with a verified contract.

pub mod bencode;
pub mod engine;
pub mod field;
pub mod filemap;
pub mod hash;
pub mod msg;
pub mod torrent;
pub mod tracker;

use vstd::prelude::*;

verus! {

/// Byte length of one sub-piece (block) on the peer wire.
pub const SUBPIECE_LEN: u32 = 0x4000;

/// Byte length of piece `index` out of `num` pieces: the nominal length for
/// every piece but the last, and what remains of `total` for the last.
pub open spec fn piece_rem(total: int, plen: int, num: int, index: int) -> int {
    if index == num - 1 {
        total - (num - 1) * plen
    } else {
        plen
    }
}

/// Number of sub-pieces of a piece of `rem` bytes.
pub open spec fn nsub_of(rem: int) -> int {
    rem / (SUBPIECE_LEN as int) + if rem % (SUBPIECE_LEN as int) > 0 { 1int } else { 0int }
}

/// Byte length of sub-piece `k` of a piece of `rem` bytes: a whole block,
/// or the shorter tail for the last sub-piece.
pub open spec fn blen_of(rem: int, k: int) -> int {
    if (k + 1) * (SUBPIECE_LEN as int) <= rem {
        SUBPIECE_LEN as int
    } else {
        rem - k * (SUBPIECE_LEN as int)
    }
}

/// The sub-pieces of a piece of `rem` bytes tile it exactly: each starts at
/// a block boundary inside the piece, each but the last is a whole block,
/// and their lengths add up to `rem`.
pub proof fn lemma_subpiece_tiling(rem: int, k: int)
    requires
        rem >= 1,
        0 <= k < nsub_of(rem),
    ensures
        nsub_of(rem) >= 1,
        blen_of(rem, k) >= 1,
        k * (SUBPIECE_LEN as int) + blen_of(rem, k) <= rem,
        k < nsub_of(rem) - 1 ==> blen_of(rem, k) == SUBPIECE_LEN as int,
        k == nsub_of(rem) - 1 ==> k * (SUBPIECE_LEN as int) + blen_of(rem, k) == rem,
{
    let b = SUBPIECE_LEN as int;
    let q = rem / b;
    let m = rem % b;
    vstd::arithmetic::div_mod::lemma_fundamental_div_mod(rem, b);
    assert(rem == b * q + m && 0 <= m < b);
    if k < nsub_of(rem) - 1 {
        assert((k + 1) * b <= rem) by (nonlinear_arith)
            requires rem == b * q + m, 0 <= m < b, b == 0x4000,
                k + 1 <= q + (if m > 0 { 1int } else { 0int }) - 1 + 1,
                k + 1 <= q || (m > 0 && k + 1 <= q),
        ;
    } else {
        assert(k == nsub_of(rem) - 1);
        if m > 0 {
            assert(k == q);
            assert(k * b + (rem - k * b) == rem);
            assert(!((k + 1) * b <= rem)) by (nonlinear_arith)
                requires rem == b * q + m, 0 < m < b, k == q, b == 0x4000,
            ;
            assert(rem - k * b == m) by (nonlinear_arith)
                requires rem == b * q + m, k == q,
            ;
        } else {
            assert(k == q - 1);
            assert((k + 1) * b == rem) by (nonlinear_arith)
                requires rem == b * q, k == q - 1,
            ;
        }
    }
    assert(blen_of(rem, k) >= 1 && k * b + blen_of(rem, k) <= rem) by (nonlinear_arith)
        requires rem == b * q + m, 0 <= m < b, b == 0x4000, rem >= 1,
            k >= 0, k + 1 <= q + (if m > 0 { 1int } else { 0int }),
            blen_of(rem, k) == (if (k + 1) * b <= rem { b } else { rem - k * b }),
    ;
}

} // verus!
