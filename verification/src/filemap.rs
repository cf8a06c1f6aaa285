//! Maps the torrent's logical byte space onto an ordered set of backing
//! files: byte addressing across file boundaries, and reads and writes of
//! arbitrary spans against in-memory file images.

use vstd::prelude::*;
use vstd::pervasive::VecAdditionalExecFns;

verus! {

/// Views of each file's bytes.
pub open spec fn file_views(files: Seq<Vec<u8>>) -> Seq<Seq<u8>> {
    Seq::new(files.len(), |i: int| files[i]@)
}

/// Concatenation of a sequence of byte strings.
pub open spec fn cat(ss: Seq<Seq<u8>>) -> Seq<u8>
    decreases ss,
{
    if ss.len() == 0 {
        Seq::empty()
    } else {
        ss[0] + cat(ss.subrange(1, ss.len() as int))
    }
}

/// Sum of the lengths in a byte-string sequence.
pub open spec fn cat_len(ss: Seq<Seq<u8>>) -> int
    decreases ss,
{
    if ss.len() == 0 {
        0
    } else {
        ss[0].len() + cat_len(ss.subrange(1, ss.len() as int))
    }
}

/// `cat` has the summed length.
pub proof fn lemma_cat_len(ss: Seq<Seq<u8>>)
    ensures
        cat(ss).len() == cat_len(ss),
        cat_len(ss) >= 0,
    decreases ss,
{
    if ss.len() > 0 {
        lemma_cat_len(ss.subrange(1, ss.len() as int));
    }
}

/// The ordered in-memory images of the torrent's backing files.
pub struct Storage {
    pub files: Vec<Vec<u8>>,
}

impl Storage {
    /// The whole logical byte space: the files laid end to end.
    pub open spec fn flat(&self) -> Seq<u8> {
        cat(file_views(self.files@))
    }

    /// Builds all-zero file images of the given lengths.
    pub fn new_zeroed(lens: &Vec<usize>) -> (r: Storage)
        ensures
            r.files@.len() == lens@.len(),
            forall|i: int| 0 <= i < lens@.len()
                ==> (#[trigger] r.files@[i])@ == Seq::new(lens@[i] as nat, |j: int| 0u8),
    {
        let mut files: Vec<Vec<u8>> = Vec::new();
        let mut i: usize = 0;
        while i < lens.len()
            invariant
                i <= lens@.len(),
                files@.len() == i,
                forall|k: int| 0 <= k < i
                    ==> (#[trigger] files@[k])@ == Seq::new(lens@[k] as nat, |j: int| 0u8),
            decreases lens@.len() - i,
        {
            let n = lens[i];
            let mut f: Vec<u8> = Vec::new();
            let mut j: usize = 0;
            while j < n
                invariant
                    j <= n,
                    f@ == Seq::new(j as nat, |k: int| 0u8),
                decreases n - j,
            {
                f.push(0);
                proof {
                    assert(f@ =~= Seq::new((j + 1) as nat, |k: int| 0u8));
                }
                j += 1;
            }
            files.push(f);
            i += 1;
        }
        Storage { files }
    }
}

/// Byte `off` of file `i` is byte `sum-of-earlier-lengths + off` of the
/// concatenation.
pub proof fn lemma_cat_index(ss: Seq<Seq<u8>>, i: int, off: int)
    requires
        0 <= i < ss.len(),
        0 <= off < ss[i].len(),
    ensures
        0 <= cat_len(ss.take(i)) + off < cat(ss).len(),
        cat(ss)[cat_len(ss.take(i)) + off] == ss[i][off],
    decreases i,
{
    lemma_cat_len(ss);
    lemma_cat_len(ss.take(i));
    let tl = ss.subrange(1, ss.len() as int);
    if i == 0 {
        assert(ss.take(0) =~= Seq::<Seq<u8>>::empty());
        assert(cat(ss) == ss[0] + cat(tl));
        lemma_cat_len(tl);
    } else {
        lemma_cat_index(tl, i - 1, off);
        assert(tl[i - 1] == ss[i]);
        assert(tl.take(i - 1) =~= ss.take(i).subrange(1, i));
        assert(ss.take(i)[0] == ss[0]);
        assert(cat_len(ss.take(i)) == ss[0].len() + cat_len(tl.take(i - 1)));
        assert(cat(ss) == ss[0] + cat(tl));
    }
}

/// Updating byte `off` of file `i` updates exactly that byte of the
/// concatenation.
pub proof fn lemma_cat_update(ss: Seq<Seq<u8>>, i: int, off: int, b: u8)
    requires
        0 <= i < ss.len(),
        0 <= off < ss[i].len(),
    ensures
        cat(ss.update(i, ss[i].update(off, b)))
            == cat(ss).update(cat_len(ss.take(i)) + off, b),
    decreases i,
{
    lemma_cat_len(ss);
    lemma_cat_len(ss.take(i));
    lemma_cat_index(ss, i, off);
    let ss2 = ss.update(i, ss[i].update(off, b));
    let tl = ss.subrange(1, ss.len() as int);
    if i == 0 {
        assert(ss.take(0) =~= Seq::<Seq<u8>>::empty());
        assert(ss2[0] == ss[0].update(off, b));
        assert(ss2.subrange(1, ss2.len() as int) =~= tl);
        assert(cat(ss2) == ss[0].update(off, b) + cat(tl));
        lemma_cat_len(tl);
        assert(cat(ss2) =~= cat(ss).update(off, b));
    } else {
        let tl2 = ss2.subrange(1, ss2.len() as int);
        assert(tl2 =~= tl.update(i - 1, tl[i - 1].update(off, b)));
        lemma_cat_update(tl, i - 1, off, b);
        assert(tl.take(i - 1) =~= ss.take(i).subrange(1, i));
        assert(ss.take(i)[0] == ss[0]);
        assert(cat_len(ss.take(i)) == ss[0].len() + cat_len(tl.take(i - 1)));
        assert(ss2[0] == ss[0]);
        assert(cat(ss2) == ss[0] + cat(tl2));
        assert(cat(ss) == ss[0] + cat(tl));
        lemma_cat_len(tl.take(i - 1));
        assert(cat(ss2) =~= cat(ss).update(cat_len(ss.take(i)) + off, b));
    }
}

impl Storage {
    /// Finds the file and in-file offset of logical byte `pos`.
    fn locate(&self, pos: usize) -> (r: (usize, usize))
        requires
            pos < self.flat().len(),
        ensures
            r.0 < self.files@.len(),
            r.1 < self.files@[r.0 as int]@.len(),
            cat_len(file_views(self.files@).take(r.0 as int)) + r.1 == pos,
            self.flat()[pos as int] == self.files@[r.0 as int]@[r.1 as int],
    {
        let ghost ss = file_views(self.files@);
        let nfiles = self.files.len();
        let mut i: usize = 0;
        let mut rem: usize = pos;
        proof {
            lemma_cat_len(ss);
            assert(ss.take(0) =~= Seq::<Seq<u8>>::empty());
            assert(ss.skip(0) =~= ss);
            lemma_cat_skip_take(ss, 0);
        }
        loop
            invariant
                nfiles == self.files@.len(),
                i <= nfiles,
                rem <= pos,
                cat_len(ss.take(i as int)) + rem == pos,
                pos < cat(ss).len(),
                ss == file_views(self.files@),
                cat_len(ss.take(i as int)) >= 0,
                rem < cat_len(ss.skip(i as int)),
            decreases self.files@.len() - i,
        {
            proof {
                lemma_cat_len(ss.skip(i as int));
                if i >= self.files@.len() {
                    assert(ss.skip(i as int).len() == 0);
                    assert(cat_len(ss.skip(i as int)) == 0);
                    assert(false);
                }
            }
            let flen = self.files[i].len();
            if rem < flen {
                proof {
                    lemma_cat_index(ss, i as int, rem as int);
                }
                return (i, rem);
            }
            proof {
                assert(ss.take(i + 1).drop_last() =~= ss.take(i as int));
                assert(ss.take(i + 1).last() == ss[i as int]);
                lemma_cat_take_unfold(ss, i as int);
                assert(ss.skip(i as int)[0] == ss[i as int]);
                assert(ss.skip(i as int).subrange(1, ss.skip(i as int).len() as int)
                    =~= ss.skip(i + 1));
                assert(cat_len(ss.skip(i as int))
                    == ss[i as int].len() + cat_len(ss.skip(i + 1)));
            }
            rem = rem - flen;
            i += 1;
        }
    }

    /// Reads logical byte `pos`.
    pub fn get_byte(&self, pos: usize) -> (r: u8)
        requires
            pos < self.flat().len(),
        ensures
            r == self.flat()[pos as int],
    {
        let (i, off) = self.locate(pos);
        self.files[i][off]
    }

    /// Overwrites logical byte `pos`.
    pub fn set_byte(&mut self, pos: usize, b: u8)
        requires
            pos < old(self).flat().len(),
        ensures
            final(self).flat() == old(self).flat().update(pos as int, b),
            final(self).files@.len() == old(self).files@.len(),
            forall|i: int| 0 <= i < old(self).files@.len()
                ==> (#[trigger] final(self).files@[i])@.len() == old(self).files@[i]@.len(),
    {
        let (i, off) = self.locate(pos);
        let ghost ss = file_views(self.files@);
        let mut f: Vec<u8> = Vec::new();
        self.files.set_and_swap(i, &mut f);
        f.set(off, b);
        self.files.set_and_swap(i, &mut f);
        proof {
            let ss2 = file_views(self.files@);
            assert(ss2 =~= ss.update(i as int, ss[i as int].update(off as int, b)));
            lemma_cat_update(ss, i as int, off as int, b);
        }
    }

    /// Reads the `len` bytes at logical position `start`.
    pub fn read_span(&self, start: usize, len: usize) -> (r: Vec<u8>)
        requires
            start + len <= self.flat().len(),
            start + len <= usize::MAX,
        ensures
            r@ == self.flat().subrange(start as int, start + len),
    {
        let mut out: Vec<u8> = Vec::new();
        let mut k: usize = 0;
        while k < len
            invariant
                k <= len,
                start + len <= self.flat().len(),
                start + len <= usize::MAX,
                out@ == self.flat().subrange(start as int, start + k),
            decreases len - k,
        {
            out.push(self.get_byte(start + k));
            proof {
                assert(out@ =~= self.flat().subrange(start as int, start + k + 1));
            }
            k += 1;
        }
        out
    }

    /// Writes `data` at logical position `start`.
    pub fn write_span(&mut self, start: usize, data: &Vec<u8>)
        requires
            start + data@.len() <= old(self).flat().len(),
            start + data@.len() <= usize::MAX,
        ensures
            final(self).flat().len() == old(self).flat().len(),
            final(self).flat() == splice(old(self).flat(), start as int, data@),
            final(self).flat().subrange(start as int, start + data@.len()) == data@,
            forall|j: int| 0 <= j < old(self).flat().len()
                && !(start <= j < start + data@.len())
                ==> final(self).flat()[j] == old(self).flat()[j],
            final(self).files@.len() == old(self).files@.len(),
            forall|i: int| 0 <= i < old(self).files@.len()
                ==> (#[trigger] final(self).files@[i])@.len() == old(self).files@[i]@.len(),
    {
        let len = data.len();
        let mut k: usize = 0;
        while k < len
            invariant
                k <= len,
                len == data@.len(),
                start + len <= usize::MAX,
                start + len <= self.flat().len(),
                self.flat().len() == old(self).flat().len(),
                forall|j: int| 0 <= j < k ==> self.flat()[start + j] == data@[j],
                forall|j: int| 0 <= j < old(self).flat().len()
                    && !(start <= j < start + len)
                    ==> self.flat()[j] == old(self).flat()[j],
                self.files@.len() == old(self).files@.len(),
                forall|i: int| 0 <= i < old(self).files@.len()
                    ==> (#[trigger] self.files@[i])@.len() == old(self).files@[i]@.len(),
            decreases len - k,
        {
            self.set_byte(start + k, data[k]);
            k += 1;
        }
        proof {
            assert(self.flat().subrange(start as int, start + data@.len()) =~= data@);
            assert(self.flat() =~= splice(old(self).flat(), start as int, data@));
        }
    }
}

/// Unfolds the sum of lengths one file at a time from the left.
proof fn lemma_cat_take_unfold(ss: Seq<Seq<u8>>, i: int)
    requires
        0 <= i < ss.len(),
    ensures
        cat_len(ss.take(i + 1)) == cat_len(ss.take(i)) + ss[i].len(),
    decreases i,
{
    if i == 0 {
        assert(ss.take(0) =~= Seq::<Seq<u8>>::empty());
        let t = ss.take(1);
        assert(t[0] == ss[0]);
        assert(t.subrange(1, 1) =~= Seq::<Seq<u8>>::empty());
    } else {
        let t1 = ss.take(i + 1);
        let t0 = ss.take(i);
        let tl = ss.subrange(1, ss.len() as int);
        lemma_cat_take_unfold(tl, i - 1);
        assert(t1[0] == ss[0]);
        assert(t0[0] == ss[0]);
        assert(t1.subrange(1, t1.len() as int) =~= tl.take(i));
        assert(t0.subrange(1, t0.len() as int) =~= tl.take(i - 1));
        assert(tl[i - 1] == ss[i]);
    }
}

/// The whole is the part before `i` plus the part from `i` on.
proof fn lemma_cat_skip_take(ss: Seq<Seq<u8>>, i: int)
    requires
        0 <= i <= ss.len(),
    ensures
        cat_len(ss) == cat_len(ss.take(i)) + cat_len(ss.skip(i)),
    decreases ss.len() - i,
{
    if i == ss.len() {
        assert(ss.take(i) =~= ss);
        assert(ss.skip(i) =~= Seq::<Seq<u8>>::empty());
    } else {
        lemma_cat_skip_take(ss, i + 1);
        lemma_cat_take_unfold(ss, i);
        assert(ss.skip(i)[0] == ss[i]);
        assert(ss.skip(i).subrange(1, ss.skip(i).len() as int) =~= ss.skip(i + 1));
        assert(cat_len(ss.skip(i)) == ss[i].len() + cat_len(ss.skip(i + 1)));
    }
}

/// The flat byte space after a span is overwritten.
pub open spec fn splice(flat: Seq<u8>, start: int, x: Seq<u8>) -> Seq<u8> {
    flat.subrange(0, start) + x + flat.subrange(start + x.len(), flat.len() as int)
}

/// File mapper law: after writing `x` over the span that starts at `start`,
/// reading that span back yields exactly `x`, and no byte outside the span
/// has moved.
pub proof fn lemma_read_of_write(flat: Seq<u8>, start: int, x: Seq<u8>)
    requires
        0 <= start,
        start + x.len() <= flat.len(),
    ensures
        splice(flat, start, x).len() == flat.len(),
        splice(flat, start, x).subrange(start, start + x.len() as int) == x,
        forall|j: int| 0 <= j < flat.len() && !(start <= j < start + x.len())
            ==> #[trigger] splice(flat, start, x)[j] == flat[j],
{
    assert(splice(flat, start, x).subrange(start, start + x.len() as int) =~= x);
}

} // verus!
