//! The piece-exchange engine: the shared piece map with owner tracking,
//! the hash-and-commit step for assembled bundles, request fulfilment for
//! seeding, and the resume pass. Every complete piece is backed by stored
//! bytes that hash to its published digest.

use vstd::prelude::*;
use crate::field::{ByteField, EMPTY, IN_PROGRESS, COMPLETE};
use crate::filemap::Storage;
use crate::hash::{sha1, sha1_of, digest_matches};
use crate::msg::{Header, Piece, Request, PIECE};
use crate::{SUBPIECE_LEN, piece_rem, nsub_of, blen_of, lemma_subpiece_tiling};

verus! {

/// What became of one bundle handed to the hasher.
pub enum BundleOutcome {
    /// The bytes hashed to the published digest and were committed.
    Committed(usize),
    /// The bundle was ill-shaped or hashed wrong; the piece is empty again.
    Rejected(usize),
    /// The bundle named no piece this engine could act on; nothing changed.
    Invalid,
}

/// Index of the first block with the given offset, or -1.
pub open spec fn find_off(bs: Seq<Piece>, off: int) -> int
    decreases bs,
{
    if bs.len() == 0 {
        -1
    } else if bs[0].offset == off {
        0
    } else {
        let r = find_off(bs.subrange(1, bs.len() as int), off);
        if r == -1 {
            -1
        } else {
            r + 1
        }
    }
}

/// The piece bytes a bundle assembles to, block by block: sub-piece `k`
/// must be present exactly once as the first block at offset `k` blocks,
/// with the right length.
pub open spec fn assembled_upto(bs: Seq<Piece>, rem: int, k: int) -> Option<Seq<u8>>
    decreases k,
{
    if k <= 0 {
        Some(Seq::empty())
    } else {
        match assembled_upto(bs, rem, k - 1) {
            None => None,
            Some(pre) => {
                let idx = find_off(bs, (k - 1) * (SUBPIECE_LEN as int));
                if idx == -1 {
                    None
                } else if bs[idx].data@.len() != blen_of(rem, k - 1) {
                    None
                } else {
                    Some(pre + bs[idx].data@)
                }
            }
        }
    }
}

/// The full assembly of a bundle for a piece of `rem` bytes.
pub open spec fn assembled(bs: Seq<Piece>, rem: int) -> Option<Seq<u8>> {
    assembled_upto(bs, rem, nsub_of(rem))
}

/// The shared state of one torrent's exchange: the piece map and who holds
/// each reservation, the backing storage, the published digests, and the
/// count of blocks served to peers.
pub struct Engine {
    pub piece_len: usize,
    pub total_len: usize,
    pub hashes: Vec<Vec<u8>>,
    pub field: ByteField,
    pub owners: Vec<u64>,
    pub store: Storage,
    pub seeded: u64,
}

impl Engine {
    /// Number of pieces.
    pub open spec fn num_pieces(&self) -> int {
        self.hashes@.len() as int
    }

    /// The stored bytes of piece `i`.
    pub open spec fn piece_bytes(&self, i: int) -> Seq<u8> {
        self.store.flat().subrange(
            i * self.piece_len,
            i * self.piece_len + piece_rem(
                self.total_len as int,
                self.piece_len as int,
                self.num_pieces(),
                i,
            ),
        )
    }

    /// Well-formed engine. Besides the structural bounds this carries the
    /// central invariant: the piece map holds only the three defined states
    /// with one slot per piece, and every complete piece's stored bytes
    /// hash to the published digest for that piece.
    pub open spec fn wf(&self) -> bool {
        &&& 1 <= self.num_pieces() < 0x1_0000_0000
        &&& 1 <= self.piece_len < 0x1_0000_0000
        &&& self.field.arr@.len() == self.num_pieces()
        &&& self.field.wf()
        &&& self.owners@.len() == self.num_pieces()
        &&& forall|i: int| 0 <= i < self.num_pieces()
            ==> (#[trigger] self.hashes@[i])@.len() == 20
        &&& self.store.flat().len() == self.total_len
        &&& (self.num_pieces() - 1) * self.piece_len < self.total_len
        &&& self.total_len <= self.num_pieces() * self.piece_len
        &&& forall|i: int| 0 <= i < self.num_pieces()
            && #[trigger] self.field.arr@[i] == COMPLETE
            ==> sha1_of(self.piece_bytes(i)) == self.hashes@[i]@
    }

    /// Actor `a` holds the reservation on piece `i`.
    pub open spec fn holds(&self, a: u64, i: int) -> bool {
        0 <= i < self.num_pieces()
            && self.field.arr@[i] == IN_PROGRESS
            && self.owners@[i] == a
    }

    /// Byte length of piece `i`.
    pub open spec fn rem_of(&self, i: int) -> int {
        piece_rem(self.total_len as int, self.piece_len as int, self.num_pieces(), i)
    }

    /// Builds an engine with every piece empty.
    pub fn new(piece_len: usize, total_len: usize, hashes: Vec<Vec<u8>>, store: Storage)
        -> (r: Engine)
        requires
            1 <= hashes@.len() < 0x1_0000_0000,
            1 <= piece_len < 0x1_0000_0000,
            forall|i: int| 0 <= i < hashes@.len() ==> (#[trigger] hashes@[i])@.len() == 20,
            store.flat().len() == total_len,
            (hashes@.len() - 1) * piece_len < total_len,
            total_len <= hashes@.len() * piece_len,
        ensures
            r.wf(),
            r.seeded == 0,
            r.piece_len == piece_len,
            r.total_len == total_len,
            r.hashes == hashes,
            r.store == store,
            forall|i: int| 0 <= i < r.num_pieces() ==> r.field.arr@[i] == EMPTY,
    {
        let n = hashes.len();
        let field = ByteField::new(n);
        let mut owners: Vec<u64> = Vec::new();
        let mut i: usize = 0;
        while i < n
            invariant
                i <= n,
                owners@.len() == i,
            decreases n - i,
        {
            owners.push(0);
            i += 1;
        }
        Engine { piece_len, total_len, hashes, field, owners, store, seeded: 0 }
    }

    /// All pieces are complete.
    pub fn is_complete(&self) -> (r: bool)
        requires
            self.wf(),
        ensures
            r == self.field.spec_is_full(),
    {
        self.field.is_full()
    }

    /// Some piece is still empty.
    pub fn is_reservable(&self) -> (r: bool)
        requires
            self.wf(),
        ensures
            r == exists|i: int| 0 <= i < self.num_pieces()
                && #[trigger] self.field.arr@[i] == EMPTY,
    {
        match self.field.get_empty() {
            Some(_) => true,
            None => false,
        }
    }

    /// How many pieces are complete.
    pub fn count_complete(&self) -> (r: usize)
        requires
            self.wf(),
        ensures
            r == self.field.arr@.filter(|b: u8| b == COMPLETE).len(),
    {
        self.field.count_complete()
    }

    /// Reserves the lowest empty piece for `actor`: the one atomic
    /// empty-to-in-progress transition. Returns nothing when no piece is
    /// empty, and then changes nothing.
    pub fn reserve(&mut self, actor: u64) -> (r: Option<usize>)
        requires
            old(self).wf(),
        ensures
            final(self).wf(),
            final(self).seeded == old(self).seeded,
            final(self).store == old(self).store,
            final(self).hashes == old(self).hashes,
            final(self).piece_len == old(self).piece_len,
            final(self).total_len == old(self).total_len,
            match r {
                Some(i) => i < old(self).num_pieces()
                    && old(self).field.arr@[i as int] == EMPTY
                    && (forall|j: int| 0 <= j < i ==> old(self).field.arr@[j] != EMPTY)
                    && final(self).field.arr@
                        == old(self).field.arr@.update(i as int, IN_PROGRESS)
                    && final(self).owners@ == old(self).owners@.update(i as int, actor)
                    && final(self).holds(actor, i as int),
                None => *final(self) == *old(self)
                    && forall|j: int| 0 <= j < old(self).num_pieces()
                        ==> old(self).field.arr@[j] != EMPTY,
            },
    {
        match self.field.get_empty() {
            None => None,
            Some(i) => {
                self.field.arr.set(i, IN_PROGRESS);
                self.owners.set(i, actor);
                proof {
                    assert forall|j: int| 0 <= j < self.num_pieces()
                        && #[trigger] self.field.arr@[j] == COMPLETE
                        implies sha1_of(self.piece_bytes(j)) == self.hashes@[j]@ by {
                        assert(old(self).field.arr@[j] == COMPLETE);
                        assert(self.piece_bytes(j) == old(self).piece_bytes(j));
                    }
                }
                Some(i)
            }
        }
    }

    /// Gives a reserved piece back: in-progress to empty, by its holder.
    pub fn release(&mut self, actor: u64, index: usize)
        requires
            old(self).wf(),
            old(self).holds(actor, index as int),
        ensures
            final(self).wf(),
            final(self).seeded == old(self).seeded,
            final(self).store == old(self).store,
            final(self).hashes == old(self).hashes,
            final(self).piece_len == old(self).piece_len,
            final(self).total_len == old(self).total_len,
            final(self).field.arr@ == old(self).field.arr@.update(index as int, EMPTY),
            final(self).owners@ == old(self).owners@,
    {
        self.field.arr.set(index, EMPTY);
        proof {
            assert forall|j: int| 0 <= j < self.num_pieces()
                && #[trigger] self.field.arr@[j] == COMPLETE
                implies sha1_of(self.piece_bytes(j)) == self.hashes@[j]@ by {
                assert(old(self).field.arr@[j] == COMPLETE);
                assert(self.piece_bytes(j) == old(self).piece_bytes(j));
            }
        }
    }
}

/// The first matching index is found when everything before it misses.
pub proof fn lemma_find_off_first(bs: Seq<Piece>, off: int, j: int)
    requires
        0 <= j < bs.len(),
        bs[j].offset == off,
        forall|j2: int| 0 <= j2 < j ==> (#[trigger] bs[j2]).offset != off,
    ensures
        find_off(bs, off) == j,
    decreases j,
{
    if j > 0 {
        let tl = bs.subrange(1, bs.len() as int);
        assert(tl[j - 1] == bs[j]);
        assert forall|j2: int| 0 <= j2 < j - 1 implies (#[trigger] tl[j2]).offset != off by {
            assert(tl[j2] == bs[j2 + 1]);
        }
        lemma_find_off_first(tl, off, j - 1);
    }
}

/// When no block carries the offset, the search misses.
pub proof fn lemma_find_off_none(bs: Seq<Piece>, off: int)
    requires
        forall|j: int| 0 <= j < bs.len() ==> (#[trigger] bs[j]).offset != off,
    ensures
        find_off(bs, off) == -1,
    decreases bs,
{
    if bs.len() > 0 {
        let tl = bs.subrange(1, bs.len() as int);
        assert forall|j: int| 0 <= j < tl.len() implies (#[trigger] tl[j]).offset != off by {
            assert(tl[j] == bs[j + 1]);
        }
        lemma_find_off_none(tl, off);
    }
}

/// Length of a partial assembly: full blocks up to `k`, the whole piece
/// once every sub-piece is in.
pub proof fn lemma_assembled_upto_len(bs: Seq<Piece>, rem: int, k: int)
    requires
        rem >= 1,
        0 <= k <= nsub_of(rem),
        assembled_upto(bs, rem, k) is Some,
    ensures
        assembled_upto(bs, rem, k)->Some_0.len()
            == if k == nsub_of(rem) { rem } else { k * (SUBPIECE_LEN as int) },
    decreases k,
{
    let b = SUBPIECE_LEN as int;
    if k == 0 {
        vstd::arithmetic::div_mod::lemma_fundamental_div_mod(rem, b);
        assert(nsub_of(rem) >= 1);
    } else {
        lemma_assembled_upto_len(bs, rem, k - 1);
        lemma_subpiece_tiling(rem, k - 1);
        if k < nsub_of(rem) {
            assert((k - 1) * b + b == k * b) by (nonlinear_arith);
        }
    }
}

impl Engine {
    /// Takes one assembled bundle through the hash-and-commit step: an
    /// exact cover of the named piece whose bytes hash to the published
    /// digest is written to storage and the piece becomes complete; any
    /// other bundle sends the piece back to empty; a bundle that names no
    /// piece held in progress changes nothing.
    #[verifier::rlimit(100)]
    pub fn process_bundle(&mut self, bundle: &Vec<Piece>) -> (r: BundleOutcome)
        requires
            old(self).wf(),
        ensures
            final(self).wf(),
            final(self).seeded == old(self).seeded,
            final(self).hashes == old(self).hashes,
            final(self).piece_len == old(self).piece_len,
            final(self).total_len == old(self).total_len,
            final(self).owners@ == old(self).owners@,
            match r {
                BundleOutcome::Invalid => *final(self) == *old(self)
                    && (bundle@.len() == 0
                        || bundle@[0].index as int >= old(self).num_pieces()
                        || old(self).field.arr@[bundle@[0].index as int] != IN_PROGRESS),
                BundleOutcome::Rejected(i) => bundle@.len() > 0
                    && i == bundle@[0].index as usize
                    && (i as int) < old(self).num_pieces()
                    && old(self).field.arr@[i as int] == IN_PROGRESS
                    && final(self).field.arr@ == old(self).field.arr@.update(i as int, EMPTY)
                    && final(self).store == old(self).store
                    && (assembled(bundle@, old(self).rem_of(i as int)) is None
                        || sha1_of(assembled(bundle@, old(self).rem_of(i as int))->Some_0)
                            != old(self).hashes@[i as int]@),
                BundleOutcome::Committed(i) => bundle@.len() > 0
                    && i == bundle@[0].index as usize
                    && (i as int) < old(self).num_pieces()
                    && old(self).field.arr@[i as int] == IN_PROGRESS
                    && final(self).field.arr@
                        == old(self).field.arr@.update(i as int, COMPLETE)
                    && assembled(bundle@, old(self).rem_of(i as int)) is Some
                    && sha1_of(assembled(bundle@, old(self).rem_of(i as int))->Some_0)
                        == old(self).hashes@[i as int]@
                    && final(self).store.flat() == crate::filemap::splice(
                        old(self).store.flat(),
                        i as int * old(self).piece_len,
                        assembled(bundle@, old(self).rem_of(i as int))->Some_0,
                    )
                    && final(self).piece_bytes(i as int)
                        == assembled(bundle@, old(self).rem_of(i as int))->Some_0
                    && (forall|j: int| 0 <= j < old(self).num_pieces() && j != i
                        ==> #[trigger] final(self).piece_bytes(j) == old(self).piece_bytes(j)),
            },
    {
        let num = self.hashes.len();
        if bundle.len() == 0 {
            return BundleOutcome::Invalid;
        }
        let index = bundle[0].index as usize;
        if index >= num {
            return BundleOutcome::Invalid;
        }
        if self.field.arr[index] != IN_PROGRESS {
            return BundleOutcome::Invalid;
        }
        proof {
            assert((num - 1) * self.piece_len < self.total_len);
            if index as int == num - 1 {
            } else {
                assert(index as int <= num - 2);
                assert((index as int) * self.piece_len <= (num - 1) * self.piece_len)
                    by (nonlinear_arith)
                    requires index as int <= num - 1, self.piece_len >= 0,
                ;
            }
        }
        let rem: usize = if index == num - 1 {
            self.total_len - (num - 1) * self.piece_len
        } else {
            self.piece_len
        };
        proof {
            assert(rem as int == self.rem_of(index as int));
            assert(rem >= 1 && rem as int <= self.piece_len as int) by (nonlinear_arith)
                requires
                    rem as int == piece_rem(self.total_len as int, self.piece_len as int,
                        self.num_pieces(), index as int),
                    (self.num_pieces() - 1) * self.piece_len < self.total_len,
                    self.total_len <= self.num_pieces() * self.piece_len,
                    self.piece_len >= 1,
                    0 <= index as int && (index as int) < self.num_pieces(),
            ;
        }
        let bsz = SUBPIECE_LEN as usize;
        let nsub: usize = rem / bsz + if rem % bsz > 0 { 1 } else { 0 };
        proof {
            assert(nsub as int == nsub_of(rem as int));
        }
        let ghost grem = rem as int;
        let mut buf: Vec<u8> = Vec::new();
        let mut k: usize = 0;
        let mut bad: bool = false;
        while k < nsub && !bad
            invariant
                k <= nsub,
                nsub as int == nsub_of(grem),
                grem == old(self).rem_of(index as int),
                rem as int == grem,
                bsz == SUBPIECE_LEN as usize,
                1 <= grem <= old(self).piece_len,
                old(self).piece_len < 0x1_0000_0000,
                self == old(self),
                (index as int) < old(self).num_pieces(),
                bundle@.len() > 0,
                !bad ==> assembled_upto(bundle@, grem, k as int) == Some(buf@),
                bad ==> assembled(bundle@, grem) is None,
            decreases nsub - k, (if bad { 0int } else { 1int }),
        {
            proof {
                lemma_subpiece_tiling(grem, k as int);
                assert(k * (bsz as int) <= grem) by (nonlinear_arith)
                    requires
                        (k as int) * (SUBPIECE_LEN as int) + blen_of(grem, k as int) <= grem,
                        blen_of(grem, k as int) >= 1,
                        bsz == SUBPIECE_LEN as usize,
                        k >= 0,
                ;
            }
            let offu: usize = k * bsz;
            let off32: u32 = offu as u32;
            proof {
                assert(off32 as int == k * (bsz as int));
            }
            let blenk: usize = if rem - offu >= bsz { bsz } else { rem - offu };
            proof {
                assert((k + 1) * (bsz as int) == k * (bsz as int) + bsz) by (nonlinear_arith);
                assert(blenk as int == blen_of(grem, k as int));
            }
            // find the first block at this offset
            let mut j: usize = 0;
            let mut fidx: usize = 0;
            let mut found: bool = false;
            while j < bundle.len() && !found
                invariant
                    j <= bundle@.len(),
                    !found ==> forall|j2: int| 0 <= j2 < j
                        ==> (#[trigger] bundle@[j2]).offset != off32,
                    found ==> fidx < bundle@.len() && bundle@[fidx as int].offset == off32
                        && forall|j2: int| 0 <= j2 < fidx
                            ==> (#[trigger] bundle@[j2]).offset != off32,
                decreases bundle@.len() - j, (if found { 0int } else { 1int }),
            {
                if bundle[j].offset == off32 {
                    fidx = j;
                    found = true;
                } else {
                    j += 1;
                }
            }
            if !found {
                proof {
                    lemma_find_off_none(bundle@, off32 as int);
                    assert(assembled_upto(bundle@, grem, k + 1) is None);
                    lemma_assembled_none_above(bundle@, grem, k + 1, nsub_of(grem));
                }
                bad = true;
                continue;
            }
            if bundle[fidx].data.len() != blenk {
                proof {
                    lemma_find_off_first(bundle@, off32 as int, fidx as int);
                    assert(assembled_upto(bundle@, grem, k + 1) is None);
                    lemma_assembled_none_above(bundle@, grem, k + 1, nsub_of(grem));
                }
                bad = true;
                continue;
            }
            let ghost pre = buf@;
            let data = &bundle[fidx].data;
            let mut t: usize = 0;
            while t < data.len()
                invariant
                    t <= data@.len(),
                    buf@ == pre + data@.take(t as int),
                decreases data@.len() - t,
            {
                buf.push(data[t]);
                proof {
                    assert(buf@ =~= pre + data@.take(t + 1int));
                }
                t += 1;
            }
            proof {
                assert(data@.take(data@.len() as int) =~= data@);
                lemma_find_off_first(bundle@, off32 as int, fidx as int);
                assert(assembled_upto(bundle@, grem, k + 1) == Some(pre + data@));
            }
            k += 1;
        }
        if bad {
            self.field.arr.set(index, EMPTY);
            proof {
                self.lemma_same_bytes_keep_wf(*old(self), index as int, EMPTY);
            }
            return BundleOutcome::Rejected(index);
        }
        proof {
            lemma_assembled_upto_len(bundle@, grem, nsub as int);
            assert(buf@.len() == grem);
        }
        let digest = sha1(&buf);
        if !digest_matches(&digest, &self.hashes[index]) {
            self.field.arr.set(index, EMPTY);
            proof {
                self.lemma_same_bytes_keep_wf(*old(self), index as int, EMPTY);
            }
            return BundleOutcome::Rejected(index);
        }
        // hash matched: commit the bytes, then mark the piece complete
        proof {
            assert((index as int) * self.piece_len + grem <= self.total_len)
                by (nonlinear_arith)
                requires
                    grem == piece_rem(self.total_len as int, self.piece_len as int,
                        self.num_pieces(), index as int),
                    (self.num_pieces() - 1) * self.piece_len < self.total_len,
                    self.total_len <= self.num_pieces() * self.piece_len,
                    self.piece_len >= 1,
                    grem <= self.piece_len,
                    0 <= index as int && (index as int) < self.num_pieces(),
            ;
        }
        let start = index * self.piece_len;
        self.store.write_span(start, &buf);
        self.field.arr.set(index, COMPLETE);
        proof {
            let e0 = *old(self);
            let i = index as int;
            assert forall|j: int| 0 <= j < e0.num_pieces() && j != i
                implies #[trigger] self.piece_bytes(j) == e0.piece_bytes(j) by {
                self.lemma_disjoint_piece(e0, i, j, grem);
            }
            assert(self.piece_bytes(i) =~= buf@);
            assert forall|j: int| 0 <= j < self.num_pieces()
                && #[trigger] self.field.arr@[j] == COMPLETE
                implies sha1_of(self.piece_bytes(j)) == self.hashes@[j]@ by {
                if j != i {
                    assert(e0.field.arr@[j] == COMPLETE);
                    assert(self.piece_bytes(j) == e0.piece_bytes(j));
                }
            }
        }
        BundleOutcome::Committed(index)
    }

    /// Pieces other than the one written keep their bytes.
    proof fn lemma_disjoint_piece(&self, e0: Engine, i: int, j: int, grem: int)
        requires
            e0.wf(),
            0 <= i < e0.num_pieces(),
            0 <= j && j < e0.num_pieces(),
            j != i,
            grem == e0.rem_of(i),
            1 <= grem <= e0.piece_len,
            self.piece_len == e0.piece_len,
            self.total_len == e0.total_len,
            self.hashes == e0.hashes,
            self.store.flat().len() == e0.store.flat().len(),
            e0.store.flat().len() == e0.total_len,
            forall|p: int| 0 <= p < e0.store.flat().len()
                && !(i * e0.piece_len <= p < i * e0.piece_len + grem)
                ==> #[trigger] self.store.flat()[p] == e0.store.flat()[p],
        ensures
            self.piece_bytes(j) == e0.piece_bytes(j),
    {
        let plen = e0.piece_len as int;
        let remj = e0.rem_of(j);
        assert(remj >= 1 && remj <= plen) by (nonlinear_arith)
            requires
                remj == piece_rem(e0.total_len as int, plen, e0.num_pieces(), j),
                (e0.num_pieces() - 1) * plen < e0.total_len,
                e0.total_len <= e0.num_pieces() * plen,
                plen >= 1,
                0 <= j && j < e0.num_pieces(),
        ;
        assert(j * plen + remj <= e0.total_len) by (nonlinear_arith)
            requires
                remj == piece_rem(e0.total_len as int, plen, e0.num_pieces(), j),
                (e0.num_pieces() - 1) * plen < e0.total_len,
                e0.total_len <= e0.num_pieces() * plen,
                plen >= 1,
                remj <= plen,
                0 <= j && j < e0.num_pieces(),
        ;
        if j < i {
            assert(j * plen + remj <= i * plen) by (nonlinear_arith)
                requires j < i, remj <= plen, plen >= 1, j >= 0,
            ;
        } else {
            assert(i * plen + grem <= j * plen) by (nonlinear_arith)
                requires i < j, grem <= plen, plen >= 1, i >= 0,
            ;
        }
        assert(self.piece_bytes(j) =~= e0.piece_bytes(j));
    }

    /// Changing one piece-map slot to a non-complete state keeps the
    /// engine well-formed when the bytes did not move.
    proof fn lemma_same_bytes_keep_wf(&self, e0: Engine, i: int, v: u8)
        requires
            e0.wf(),
            0 <= i < e0.num_pieces(),
            v == EMPTY || v == IN_PROGRESS,
            self.piece_len == e0.piece_len,
            self.total_len == e0.total_len,
            self.hashes == e0.hashes,
            self.owners@.len() == e0.owners@.len(),
            self.store == e0.store,
            self.seeded == e0.seeded,
            self.field.arr@ == e0.field.arr@.update(i, v),
        ensures
            self.wf(),
    {
        assert forall|j: int| 0 <= j < self.num_pieces()
            && #[trigger] self.field.arr@[j] == COMPLETE
            implies sha1_of(self.piece_bytes(j)) == self.hashes@[j]@ by {
            assert(e0.field.arr@[j] == COMPLETE);
            assert(self.piece_bytes(j) == e0.piece_bytes(j));
        }
    }
}

impl Engine {
    /// Byte length of the block served from offset `offset` of a piece of
    /// `rem` bytes: a whole block, or what the piece still has after the
    /// offset — the torrent's final sub-piece may be shorter than a block.
    pub open spec fn serve_len(rem: int, offset: int) -> int {
        if rem - offset >= SUBPIECE_LEN as int {
            SUBPIECE_LEN as int
        } else {
            rem - offset
        }
    }

    /// Answers a peer's block request while seeding: a block out of a
    /// complete piece is read back and counted, truncated at the piece end
    /// so the torrent's final short sub-piece is served too; any request
    /// past the piece, or for a piece not complete, gets no reply and
    /// changes nothing.
    pub fn fulfill_request(&mut self, req: &Request) -> (r: Option<Piece>)
        requires
            old(self).wf(),
        ensures
            final(self).wf(),
            final(self).seeded >= old(self).seeded,
            final(self).store == old(self).store,
            final(self).hashes == old(self).hashes,
            final(self).field == old(self).field,
            final(self).owners == old(self).owners,
            final(self).piece_len == old(self).piece_len,
            final(self).total_len == old(self).total_len,
            match r {
                Some(pc) => ({
                    let rem = old(self).rem_of(req.index as int);
                    let blen = Engine::serve_len(rem, req.offset as int);
                    let start = req.index as int * old(self).piece_len + req.offset as int;
                    &&& (req.index as int) < old(self).num_pieces()
                    &&& old(self).field.arr@[req.index as int] == COMPLETE
                    &&& (req.offset as int) < rem
                    &&& pc.index == req.index
                    &&& pc.offset == req.offset
                    &&& pc.head.byte == PIECE
                    &&& pc.head.len as int == 9 + blen
                    &&& pc.data@ == old(self).store.flat().subrange(start, start + blen)
                    &&& (old(self).seeded < u64::MAX
                        ==> final(self).seeded == old(self).seeded + 1)
                }),
                None => *final(self) == *old(self)
                    && !((req.index as int) < old(self).num_pieces()
                        && old(self).field.arr@[req.index as int] == COMPLETE
                        && (req.offset as int) < old(self).rem_of(req.index as int)),
            },
    {
        let num = self.hashes.len();
        let index = req.index as usize;
        if index >= num {
            return None;
        }
        if self.field.arr[index] != COMPLETE {
            return None;
        }
        proof {
            assert((index as int) * self.piece_len <= (self.num_pieces() - 1) * self.piece_len)
                by (nonlinear_arith)
                requires
                    index as int <= self.num_pieces() - 1,
                    self.piece_len >= 0,
            ;
        }
        let rem: usize = if index == num - 1 {
            self.total_len - (num - 1) * self.piece_len
        } else {
            self.piece_len
        };
        proof {
            assert(rem as int == self.rem_of(index as int));
            assert(rem as int <= self.piece_len) by (nonlinear_arith)
                requires
                    rem as int == piece_rem(self.total_len as int, self.piece_len as int,
                        self.num_pieces(), index as int),
                    (self.num_pieces() - 1) * self.piece_len < self.total_len,
                    self.total_len <= self.num_pieces() * self.piece_len,
                    self.piece_len >= 1,
                    0 <= index as int && (index as int) < self.num_pieces(),
            ;
        }
        let bsz = SUBPIECE_LEN as usize;
        if req.offset as u64 >= rem as u64 {
            return None;
        }
        let offset = req.offset as usize;
        let blen: usize = if rem - offset >= bsz { bsz } else { rem - offset };
        proof {
            assert(blen as int == Engine::serve_len(rem as int, offset as int));
            assert((index as int) * self.piece_len + rem <= self.total_len)
                by (nonlinear_arith)
                requires
                    rem as int == piece_rem(self.total_len as int, self.piece_len as int,
                        self.num_pieces(), index as int),
                    (self.num_pieces() - 1) * self.piece_len < self.total_len,
                    self.total_len <= self.num_pieces() * self.piece_len,
                    self.piece_len >= 1,
                    rem as int <= self.piece_len,
                    0 <= index as int && (index as int) < self.num_pieces(),
            ;
        }
        let start = index * self.piece_len + offset;
        let data = self.store.read_span(start, blen);
        if self.seeded < u64::MAX {
            self.seeded = self.seeded + 1;
        }
        Some(Piece {
            head: Header { len: (9 + blen) as u32, byte: PIECE },
            index: req.index,
            offset: req.offset,
            data,
        })
    }
}

/// Concatenation of the sub-piece reads of a piece: block-sized reads from
/// `start`, the last one shorter when `rem` is no multiple of a block.
pub open spec fn subpieces_cat(flat: Seq<u8>, start: int, rem: int) -> Seq<u8>
    decreases rem,
{
    if rem <= SUBPIECE_LEN as int {
        flat.subrange(start, start + rem)
    } else {
        flat.subrange(start, start + SUBPIECE_LEN as int)
            + subpieces_cat(flat, start + SUBPIECE_LEN as int, rem - SUBPIECE_LEN as int)
    }
}

/// The sub-piece reads of a span concatenate to the whole span.
pub proof fn lemma_subpieces_cat(flat: Seq<u8>, start: int, rem: int)
    requires
        0 <= start,
        0 <= rem,
        start + rem <= flat.len(),
    ensures
        subpieces_cat(flat, start, rem) == flat.subrange(start, start + rem),
    decreases rem,
{
    if rem > SUBPIECE_LEN as int {
        lemma_subpieces_cat(flat, start + SUBPIECE_LEN as int, rem - SUBPIECE_LEN as int);
        assert(flat.subrange(start, start + SUBPIECE_LEN as int)
            + flat.subrange(start + SUBPIECE_LEN as int, start + rem)
            =~= flat.subrange(start, start + rem));
    }
}

/// For every complete piece, the bytes obtained by concatenating the
/// block-sized sub-piece reads of that piece hash to its published digest.
pub proof fn lemma_complete_piece_readback(e: &Engine, i: int)
    requires
        e.wf(),
        0 <= i < e.num_pieces(),
        e.field.arr@[i] == COMPLETE,
    ensures
        sha1_of(subpieces_cat(e.store.flat(), i * e.piece_len, e.rem_of(i)))
            == e.hashes@[i]@,
{
    let plen = e.piece_len as int;
    let rem = e.rem_of(i);
    assert(1 <= rem <= plen && i * plen + rem <= e.total_len) by (nonlinear_arith)
        requires
            rem == piece_rem(e.total_len as int, plen, e.num_pieces(), i),
            (e.num_pieces() - 1) * plen < e.total_len,
            e.total_len <= e.num_pieces() * plen,
            plen >= 1,
            0 <= i && i < e.num_pieces(),
    ;
    lemma_subpieces_cat(e.store.flat(), i * plen, rem);
}

/// A failed assembly step fails the whole assembly.
pub proof fn lemma_assembled_none_above(bs: Seq<Piece>, rem: int, k: int, k2: int)
    requires
        assembled_upto(bs, rem, k) is None,
        k <= k2,
    ensures
        assembled_upto(bs, rem, k2) is None,
    decreases k2 - k,
{
    if k < k2 {
        lemma_assembled_none_above(bs, rem, k + 1, k2);
    }
}

/// A bundle whose block `j` carries exactly the stored bytes of sub-piece
/// `j` assembles to exactly the stored piece bytes.
proof fn lemma_readback_assembles(bs: Seq<Piece>, flat: Seq<u8>, pstart: int, rem: int, k: int)
    requires
        1 <= rem,
        0 <= pstart,
        pstart + rem <= flat.len(),
        bs.len() == nsub_of(rem),
        forall|j: int| 0 <= j < bs.len()
            ==> (#[trigger] bs[j]).offset as int == j * (SUBPIECE_LEN as int),
        forall|j: int| 0 <= j < bs.len() ==> (#[trigger] bs[j]).data@ == flat.subrange(
            pstart + j * (SUBPIECE_LEN as int),
            pstart + j * (SUBPIECE_LEN as int) + blen_of(rem, j),
        ),
        0 <= k <= nsub_of(rem),
    ensures
        assembled_upto(bs, rem, k) == Some(flat.subrange(
            pstart,
            pstart + (if k == nsub_of(rem) { rem } else { k * (SUBPIECE_LEN as int) }),
        )),
    decreases k,
{
    let b = SUBPIECE_LEN as int;
    vstd::arithmetic::div_mod::lemma_fundamental_div_mod(rem, b);
    if k == 0 {
        assert(nsub_of(rem) >= 1);
        assert(Seq::<u8>::empty() =~= flat.subrange(pstart, pstart));
    } else {
        lemma_readback_assembles(bs, flat, pstart, rem, k - 1);
        lemma_subpiece_tiling(rem, k - 1);
        assert forall|j2: int| 0 <= j2 < k - 1
            implies (#[trigger] bs[j2]).offset as int != (k - 1) * b by {
            assert(j2 * b < (k - 1) * b) by (nonlinear_arith)
                requires j2 < k - 1, b >= 1, j2 >= 0,
            ;
        }
        lemma_find_off_first(bs, (k - 1) * b, k - 1);
        let pre = flat.subrange(pstart, pstart + (k - 1) * b);
        let blk = flat.subrange(pstart + (k - 1) * b, pstart + (k - 1) * b + blen_of(rem, k - 1));
        assert(bs[k - 1].data@.len() == blen_of(rem, k - 1));
        if k == nsub_of(rem) {
            assert((k - 1) * b + blen_of(rem, k - 1) == rem);
            assert(pre + blk =~= flat.subrange(pstart, pstart + rem));
        } else {
            assert(blen_of(rem, k - 1) == b);
            assert((k - 1) * b + b == k * b) by (nonlinear_arith);
            assert(pre + blk =~= flat.subrange(pstart, pstart + k * b));
        }
    }
}

impl Engine {
    /// The resume pass: with every piece still empty, reads each piece's
    /// sub-pieces back from storage, sends them through the ordinary
    /// hash-and-commit step, and so reclaims exactly the pieces whose
    /// stored bytes already hash to their published digests. The stored
    /// bytes themselves do not change.
    #[verifier::rlimit(100)]
    pub fn resume(&mut self, actor: u64)
        requires
            old(self).wf(),
            forall|j: int| 0 <= j < old(self).num_pieces()
                ==> old(self).field.arr@[j] == EMPTY,
        ensures
            final(self).wf(),
            final(self).seeded == old(self).seeded,
            final(self).hashes == old(self).hashes,
            final(self).piece_len == old(self).piece_len,
            final(self).total_len == old(self).total_len,
            final(self).store.flat() == old(self).store.flat(),
            forall|j: int| 0 <= j < old(self).num_pieces()
                ==> final(self).field.arr@[j] == (
                    if sha1_of(old(self).piece_bytes(j)) == old(self).hashes@[j]@ {
                        COMPLETE
                    } else {
                        EMPTY
                    }),
    {
        let num = self.hashes.len();
        let bsz = SUBPIECE_LEN as usize;
        let mut i: usize = 0;
        while i < num
            invariant
                self.wf(),
                i <= num,
                num == self.hashes@.len(),
                bsz == SUBPIECE_LEN as usize,
                self.hashes == old(self).hashes,
                self.piece_len == old(self).piece_len,
                self.total_len == old(self).total_len,
                self.seeded == old(self).seeded,
                self.store.flat() == old(self).store.flat(),
                forall|j: int| i <= j < num ==> self.field.arr@[j] == EMPTY,
                forall|j: int| 0 <= j < i ==> self.field.arr@[j] == (
                    if sha1_of(old(self).piece_bytes(j)) == old(self).hashes@[j]@ {
                        COMPLETE
                    } else {
                        EMPTY
                    }),
            decreases num - i,
        {
            let ghost pre_self = *self;
            // reserve piece i for the resume actor
            self.field.arr.set(i, IN_PROGRESS);
            self.owners.set(i, actor);
            proof {
                self.lemma_same_bytes_keep_wf(pre_self, i as int, IN_PROGRESS);
            }
            let ghost snap = *self;
            // piece geometry
            proof {
                assert((i as int) * self.piece_len <= (self.num_pieces() - 1) * self.piece_len)
                    by (nonlinear_arith)
                    requires i as int <= self.num_pieces() - 1, self.piece_len >= 0,
                ;
            }
            let rem: usize = if i == num - 1 {
                self.total_len - (num - 1) * self.piece_len
            } else {
                self.piece_len
            };
            proof {
                assert(rem as int == self.rem_of(i as int));
                assert(1 <= rem as int <= self.piece_len
                    && (i as int) * self.piece_len + rem <= self.total_len)
                    by (nonlinear_arith)
                    requires
                        rem as int == piece_rem(self.total_len as int, self.piece_len as int,
                            self.num_pieces(), i as int),
                        (self.num_pieces() - 1) * self.piece_len < self.total_len,
                        self.total_len <= self.num_pieces() * self.piece_len,
                        self.piece_len >= 1,
                        0 <= i as int && (i as int) < self.num_pieces(),
                ;
            }
            let nsub: usize = rem / bsz + if rem % bsz > 0 { 1 } else { 0 };
            let pstart = i * self.piece_len;
            let ghost grem = rem as int;
            // read every sub-piece back into a bundle
            let mut bundle: Vec<Piece> = Vec::new();
            let mut k: usize = 0;
            while k < nsub
                invariant
                    k <= nsub,
                    nsub as int == nsub_of(grem),
                    grem == rem as int,
                    bsz == SUBPIECE_LEN as usize,
                    1 <= grem <= self.piece_len,
                    self.piece_len < 0x1_0000_0000,
                    i < num,
                    num == self.hashes@.len(),
                    *self == snap,
                    self.hashes == old(self).hashes,
                    self.piece_len == old(self).piece_len,
                    self.total_len == old(self).total_len,
                    self.seeded == old(self).seeded,
                    self.store.flat() == old(self).store.flat(),
                    pstart == i as int * self.piece_len,
                    pstart + grem <= self.total_len,
                    self.wf(),
                    self.store.flat().len() == self.total_len,
                    bundle@.len() == k,
                    forall|j: int| 0 <= j < k
                        ==> (#[trigger] bundle@[j]).offset as int == j * (SUBPIECE_LEN as int),
                    forall|j: int| 0 <= j < k ==> (#[trigger] bundle@[j]).index == i as u32,
                    forall|j: int| 0 <= j < k
                        ==> (#[trigger] bundle@[j]).data@ == self.store.flat().subrange(
                            pstart + j * (SUBPIECE_LEN as int),
                            pstart + j * (SUBPIECE_LEN as int) + blen_of(grem, j),
                        ),
                decreases nsub - k,
            {
                proof {
                    lemma_subpiece_tiling(grem, k as int);
                    assert(k * (bsz as int) <= grem) by (nonlinear_arith)
                        requires
                            (k as int) * (SUBPIECE_LEN as int) + blen_of(grem, k as int) <= grem,
                            blen_of(grem, k as int) >= 1,
                            bsz == SUBPIECE_LEN as usize,
                            k >= 0,
                    ;
                }
                let offu: usize = k * bsz;
                let blenk: usize = if rem - offu >= bsz { bsz } else { rem - offu };
                proof {
                    assert((k + 1) * (bsz as int) == k * (bsz as int) + bsz)
                        by (nonlinear_arith);
                    assert(blenk as int == blen_of(grem, k as int));
                }
                let data = self.store.read_span(pstart + offu, blenk);
                bundle.push(Piece {
                    head: Header { len: (9 + blenk) as u32, byte: PIECE },
                    index: i as u32,
                    offset: offu as u32,
                    data,
                });
                k += 1;
            }
            // the bundle assembles to exactly the stored piece bytes
            proof {
                lemma_readback_assembles(bundle@, self.store.flat(), pstart as int, grem,
                    nsub as int);
                assert(assembled(bundle@, grem) == Some(self.piece_bytes(i as int)));
            }
            let ghost before = *self;
            let outcome = self.process_bundle(&bundle);
            proof {
                let pb = before.piece_bytes(i as int);
                match outcome {
                    BundleOutcome::Invalid => {
                        assert(bundle@.len() > 0);
                        assert(bundle@[0].index == i as u32);
                        assert(false);
                    }
                    BundleOutcome::Rejected(ii) => {
                        assert(ii == i);
                        assert(sha1_of(pb) != before.hashes@[i as int]@);
                    }
                    BundleOutcome::Committed(ii) => {
                        assert(ii == i);
                        assert(sha1_of(pb) == before.hashes@[i as int]@);
                        assert(self.store.flat() =~= before.store.flat());
                    }
                }
                assert(self.store.flat() == old(self).store.flat());
                assert forall|j: int| 0 <= j < num implies
                    #[trigger] old(self).piece_bytes(j) == before.piece_bytes(j) by {}
            }
            i += 1;
        }
    }
}

/// A piece marked complete has been hashed to the published digest for
/// its index: the stored bytes behind it carry that digest, and the only
/// step that marks a piece complete checked it.
pub proof fn lemma_complete_is_verified(e: &Engine, i: int)
    requires
        e.wf(),
        0 <= i < e.num_pieces(),
        e.field.arr@[i] == COMPLETE,
    ensures
        sha1_of(e.piece_bytes(i)) == e.hashes@[i]@,
{
}

/// Whole pieces' worth of blocks served: the count divided by blocks per
/// piece, rounded up; a piece shorter than one block counts as one block.
pub open spec fn seeded_pieces(seeded: int, piece_len: int) -> int {
    let bpp = if piece_len / (SUBPIECE_LEN as int) >= 1 {
        piece_len / (SUBPIECE_LEN as int)
    } else {
        1int
    };
    seeded / bpp + if seeded % bpp > 0 { 1int } else { 0int }
}

impl Engine {
    /// The controller's shutdown condition: the blocks served amount to at
    /// least one whole upload of the torrent (share ratio of one).
    pub fn share_reached(&self) -> (r: bool)
        requires
            self.wf(),
        ensures
            r == (seeded_pieces(self.seeded as int, self.piece_len as int)
                >= self.num_pieces()),
    {
        let bsz = SUBPIECE_LEN as usize;
        let mut bpp: u64 = (self.piece_len / bsz) as u64;
        if bpp == 0 {
            bpp = 1;
        }
        let q = self.seeded / bpp;
        let rem = self.seeded % bpp;
        proof {
            vstd::arithmetic::div_mod::lemma_fundamental_div_mod(
                self.seeded as int, bpp as int);
            if rem > 0 {
                assert(bpp >= 2);
                assert(q < u64::MAX) by (nonlinear_arith)
                    requires
                        q as int * bpp as int + rem as int == self.seeded as int,
                        0 < rem as int,
                        (rem as int) < bpp as int,
                        self.seeded <= u64::MAX,
                        bpp >= 2,
                        q >= 0,
                ;
            }
        }
        let pieces: u64 = if rem > 0 { q + 1 } else { q };
        pieces >= self.hashes.len() as u64
    }
}

/// At most one actor holds a given piece at any time: holding is recorded
/// in a single owner slot, so two holders of one piece are the same actor.
pub proof fn lemma_unique_owner(e: &Engine, a: u64, b: u64, i: int)
    requires
        e.wf(),
        e.holds(a, i),
        e.holds(b, i),
    ensures
        a == b,
{
}

} // verus!
