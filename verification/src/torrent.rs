//! Torrent metadata: the projection of the metainfo tree that the engine
//! needs, parsed exactly, with the piece geometry spelled out.

use vstd::prelude::*;
use vstd::pervasive::VecAdditionalExecFns;
use crate::bencode::{Item, spec_dict_get, parse, enc_seq, views, wf_seq, Bval};
use crate::hash::split_hashes;
use crate::msg::{Header, Request, REQUEST};
use crate::{SUBPIECE_LEN, piece_rem, nsub_of, blen_of, lemma_subpiece_tiling};

verus! {

/// The bytes of the dictionary key `info`.
pub open spec fn key_info() -> Seq<u8> {
    seq![105u8, 110u8, 102u8, 111u8]
}

/// The key `info` as a byte vector.
pub fn key_info_vec() -> (r: Vec<u8>)
    ensures
        r@ == key_info(),
{
    let mut v: Vec<u8> = Vec::new();
    v.push(105);
    v.push(110);
    v.push(102);
    v.push(111);
    proof {
        assert(v@ =~= key_info());
    }
    v
}

/// The bytes of the dictionary key `piece length`.
pub open spec fn key_piece_length() -> Seq<u8> {
    seq![112u8, 105u8, 101u8, 99u8, 101u8, 32u8, 108u8, 101u8, 110u8, 103u8, 116u8, 104u8]
}

/// The key `piece length` as a byte vector.
pub fn key_piece_length_vec() -> (r: Vec<u8>)
    ensures
        r@ == key_piece_length(),
{
    let mut v: Vec<u8> = Vec::new();
    v.push(112);
    v.push(105);
    v.push(101);
    v.push(99);
    v.push(101);
    v.push(32);
    v.push(108);
    v.push(101);
    v.push(110);
    v.push(103);
    v.push(116);
    v.push(104);
    proof {
        assert(v@ =~= key_piece_length());
    }
    v
}

/// The bytes of the dictionary key `pieces`.
pub open spec fn key_pieces() -> Seq<u8> {
    seq![112u8, 105u8, 101u8, 99u8, 101u8, 115u8]
}

/// The key `pieces` as a byte vector.
pub fn key_pieces_vec() -> (r: Vec<u8>)
    ensures
        r@ == key_pieces(),
{
    let mut v: Vec<u8> = Vec::new();
    v.push(112);
    v.push(105);
    v.push(101);
    v.push(99);
    v.push(101);
    v.push(115);
    proof {
        assert(v@ =~= key_pieces());
    }
    v
}

/// The bytes of the dictionary key `name`.
pub open spec fn key_name() -> Seq<u8> {
    seq![110u8, 97u8, 109u8, 101u8]
}

/// The key `name` as a byte vector.
pub fn key_name_vec() -> (r: Vec<u8>)
    ensures
        r@ == key_name(),
{
    let mut v: Vec<u8> = Vec::new();
    v.push(110);
    v.push(97);
    v.push(109);
    v.push(101);
    proof {
        assert(v@ =~= key_name());
    }
    v
}

/// The bytes of the dictionary key `length`.
pub open spec fn key_length() -> Seq<u8> {
    seq![108u8, 101u8, 110u8, 103u8, 116u8, 104u8]
}

/// The key `length` as a byte vector.
pub fn key_length_vec() -> (r: Vec<u8>)
    ensures
        r@ == key_length(),
{
    let mut v: Vec<u8> = Vec::new();
    v.push(108);
    v.push(101);
    v.push(110);
    v.push(103);
    v.push(116);
    v.push(104);
    proof {
        assert(v@ =~= key_length());
    }
    v
}

/// The bytes of the dictionary key `files`.
pub open spec fn key_files() -> Seq<u8> {
    seq![102u8, 105u8, 108u8, 101u8, 115u8]
}

/// The key `files` as a byte vector.
pub fn key_files_vec() -> (r: Vec<u8>)
    ensures
        r@ == key_files(),
{
    let mut v: Vec<u8> = Vec::new();
    v.push(102);
    v.push(105);
    v.push(108);
    v.push(101);
    v.push(115);
    proof {
        assert(v@ =~= key_files());
    }
    v
}

/// The bytes of the dictionary key `path`.
pub open spec fn key_path() -> Seq<u8> {
    seq![112u8, 97u8, 116u8, 104u8]
}

/// The key `path` as a byte vector.
pub fn key_path_vec() -> (r: Vec<u8>)
    ensures
        r@ == key_path(),
{
    let mut v: Vec<u8> = Vec::new();
    v.push(112);
    v.push(97);
    v.push(116);
    v.push(104);
    proof {
        assert(v@ =~= key_path());
    }
    v
}

/// The bytes of the dictionary key `announce`.
pub open spec fn key_announce() -> Seq<u8> {
    seq![97u8, 110u8, 110u8, 111u8, 117u8, 110u8, 99u8, 101u8]
}

/// The key `announce` as a byte vector.
pub fn key_announce_vec() -> (r: Vec<u8>)
    ensures
        r@ == key_announce(),
{
    let mut v: Vec<u8> = Vec::new();
    v.push(97);
    v.push(110);
    v.push(110);
    v.push(111);
    v.push(117);
    v.push(110);
    v.push(99);
    v.push(101);
    proof {
        assert(v@ =~= key_announce());
    }
    v
}

/// The bytes of the dictionary key `announce-list`.
pub open spec fn key_announce_list() -> Seq<u8> {
    seq![97u8, 110u8, 110u8, 111u8, 117u8, 110u8, 99u8, 101u8, 45u8, 108u8, 105u8, 115u8, 116u8]
}

/// The key `announce-list` as a byte vector.
pub fn key_announce_list_vec() -> (r: Vec<u8>)
    ensures
        r@ == key_announce_list(),
{
    let mut v: Vec<u8> = Vec::new();
    v.push(97);
    v.push(110);
    v.push(110);
    v.push(111);
    v.push(117);
    v.push(110);
    v.push(99);
    v.push(101);
    v.push(45);
    v.push(108);
    v.push(105);
    v.push(115);
    v.push(116);
    proof {
        assert(v@ =~= key_announce_list());
    }
    v
}

/// The bytes of the dictionary key `peers`.
pub open spec fn key_peers() -> Seq<u8> {
    seq![112u8, 101u8, 101u8, 114u8, 115u8]
}

/// The key `peers` as a byte vector.
pub fn key_peers_vec() -> (r: Vec<u8>)
    ensures
        r@ == key_peers(),
{
    let mut v: Vec<u8> = Vec::new();
    v.push(112);
    v.push(101);
    v.push(101);
    v.push(114);
    v.push(115);
    proof {
        assert(v@ =~= key_peers());
    }
    v
}

/// The bytes of the dictionary key `failure reason`.
pub open spec fn key_failure_reason() -> Seq<u8> {
    seq![102u8, 97u8, 105u8, 108u8, 117u8, 114u8, 101u8, 32u8, 114u8, 101u8, 97u8, 115u8, 111u8, 110u8]
}

/// The key `failure reason` as a byte vector.
pub fn key_failure_reason_vec() -> (r: Vec<u8>)
    ensures
        r@ == key_failure_reason(),
{
    let mut v: Vec<u8> = Vec::new();
    v.push(102);
    v.push(97);
    v.push(105);
    v.push(108);
    v.push(117);
    v.push(114);
    v.push(101);
    v.push(32);
    v.push(114);
    v.push(101);
    v.push(97);
    v.push(115);
    v.push(111);
    v.push(110);
    proof {
        assert(v@ =~= key_failure_reason());
    }
    v
}

/// Why a metainfo file was rejected.
#[derive(Debug)]
pub enum TorrentError {
    /// Unparseable bencode, missing or ill-typed keys, or lengths that do
    /// not fit the piece geometry.
    MetainfoInvalid,
}

/// Mathematical model of the loaded metainfo.
pub struct MetaM {
    pub name: Seq<u8>,
    pub files: Seq<(Seq<Seq<u8>>, int)>,
    pub piece_len: int,
    pub num_pieces: int,
    pub hashes: Seq<Seq<u8>>,
    pub total_len: int,
}

/// Path components and length of one file entry, when well-typed.
pub open spec fn path_of(pl: Seq<Item>) -> Option<Seq<Seq<u8>>>
    decreases pl,
{
    if pl.len() == 0 {
        Some(Seq::empty())
    } else if !(pl[0] is String) {
        None
    } else {
        match path_of(pl.subrange(1, pl.len() as int)) {
            None => None,
            Some(rest) => Some(seq![pl[0]->String_0@] + rest),
        }
    }
}

/// One entry of the `files` list, when well-typed.
pub open spec fn entry_of(it: Item) -> Option<(Seq<Seq<u8>>, int)> {
    if !(it is Dict) {
        None
    } else {
        let d = it->Dict_0@;
        match spec_dict_get(d, key_length()) {
            Some(Item::Int(l)) => if l < 0 {
                None
            } else {
                match spec_dict_get(d, key_path()) {
                    Some(Item::List(pl)) => match path_of(pl@) {
                        Some(p) => if p.len() >= 1 {
                            Some((p, l as int))
                        } else {
                            None
                        },
                        None => None,
                    },
                    _ => None,
                }
            },
            _ => None,
        }
    }
}

/// The whole `files` list, when every entry is well-typed.
pub open spec fn files_of(fl: Seq<Item>) -> Option<Seq<(Seq<Seq<u8>>, int)>>
    decreases fl,
{
    if fl.len() == 0 {
        Some(Seq::empty())
    } else {
        match entry_of(fl[0]) {
            None => None,
            Some(e) => match files_of(fl.subrange(1, fl.len() as int)) {
                None => None,
                Some(rest) => Some(seq![e] + rest),
            },
        }
    }
}

/// Sum of the file lengths.
pub open spec fn sum_files(fs: Seq<(Seq<Seq<u8>>, int)>) -> int
    decreases fs,
{
    if fs.len() == 0 {
        0
    } else {
        fs[0].1 + sum_files(fs.subrange(1, fs.len() as int))
    }
}

/// Cuts a flat hash string into twenty-byte digests.
pub open spec fn spec_split20(s: Seq<u8>) -> Seq<Seq<u8>> {
    Seq::new(s.len() / 20, |i: int| s.subrange(20 * i, 20 * i + 20))
}

/// The metainfo a parsed tree denotes, or nothing when the tree misses a
/// required key, types one wrongly, or states lengths that do not fit the
/// piece geometry or the machine.
pub open spec fn meta_of(tree: Seq<Item>) -> Option<MetaM> {
    if tree.len() == 0 || !(tree[0] is Dict) {
        None
    } else {
        let rd = tree[0]->Dict_0@;
        match spec_dict_get(rd, key_info()) {
            Some(Item::Dict(info)) => {
                let id = info@;
                match (spec_dict_get(id, key_piece_length()), spec_dict_get(id, key_pieces()),
                    spec_dict_get(id, key_name())) {
                    (Some(Item::Int(pl)), Some(Item::String(ps)), Some(Item::String(nm))) => {
                        if !(1 <= pl < 0x1_0000_0000 && pl <= usize::MAX as int) {
                            None
                        } else if !(ps@.len() % 20 == 0 && 1 <= ps@.len() / 20 < 0x1_0000_0000) {
                            None
                        } else {
                            let num = ps@.len() / 20;
                            let fs_opt = if spec_dict_get(id, key_length()) is Some {
                                match spec_dict_get(id, key_length()) {
                                    Some(Item::Int(l)) => if l >= 0 {
                                        Some(seq![(seq![nm@], l as int)])
                                    } else {
                                        None
                                    },
                                    _ => None,
                                }
                            } else {
                                match spec_dict_get(id, key_files()) {
                                    Some(Item::List(fl)) => match files_of(fl@) {
                                        Some(fs) => if fs.len() >= 1 {
                                            Some(fs)
                                        } else {
                                            None
                                        },
                                        None => None,
                                    },
                                    _ => None,
                                }
                            };
                            match fs_opt {
                                None => None,
                                Some(fs) => {
                                    let total = sum_files(fs);
                                    if !(0 <= total <= usize::MAX as int) {
                                        None
                                    } else if !((num - 1) * pl < total && total <= num * pl) {
                                        None
                                    } else {
                                        Some(MetaM {
                                            name: nm@,
                                            files: fs,
                                            piece_len: pl as int,
                                            num_pieces: num as int,
                                            hashes: spec_split20(ps@),
                                            total_len: total,
                                        })
                                    }
                                }
                            }
                        }
                    }
                    _ => None,
                }
            }
            _ => None,
        }
    }
}

/// Byte views of a path's components.
pub open spec fn path_views(p: Seq<Vec<u8>>) -> Seq<Seq<u8>> {
    Seq::new(p.len(), |j: int| p[j]@)
}

/// Models of collected entries: path views and lengths.
pub open spec fn entries_model(es: Seq<(Vec<Vec<u8>>, u64)>) -> Seq<(Seq<Seq<u8>>, int)> {
    Seq::new(es.len(), |i: int| (path_views(es[i].0@), es[i].1 as int))
}

/// Splitting a sum at `k`.
pub proof fn lemma_sum_split(fs: Seq<(Seq<Seq<u8>>, int)>, k: int)
    requires
        0 <= k <= fs.len(),
    ensures
        sum_files(fs) == sum_files(fs.take(k)) + sum_files(fs.skip(k)),
    decreases k,
{
    if k == 0 {
        assert(fs.take(0) =~= Seq::<(Seq<Seq<u8>>, int)>::empty());
        assert(fs.skip(0) =~= fs);
    } else {
        lemma_sum_split(fs, k - 1);
        let a = fs.take(k - 1);
        let b = fs.take(k);
        assert(b[0] == fs[0]);
        if k == 1 {
            assert(a =~= Seq::<(Seq<Seq<u8>>, int)>::empty());
            assert(b.subrange(1, 1) =~= Seq::<(Seq<Seq<u8>>, int)>::empty());
            assert(sum_files(b) == fs[0].1);
        } else {
            assert(a[0] == fs[0]);
            assert(b.subrange(1, k) =~= fs.subrange(1, fs.len() as int).take(k - 1));
            assert(a.subrange(1, k - 1) =~= fs.subrange(1, fs.len() as int).take(k - 2));
        }
        lemma_sum_take_unfold(fs, k - 1);
        assert(fs.skip(k - 1)[0] == fs[k - 1]);
        assert(fs.skip(k - 1).subrange(1, fs.skip(k - 1).len() as int) =~= fs.skip(k));
        assert(sum_files(fs.skip(k - 1)) == fs[k - 1].1 + sum_files(fs.skip(k)));
    }
}

/// One more entry in a prefix sum.
pub proof fn lemma_sum_take_unfold(fs: Seq<(Seq<Seq<u8>>, int)>, k: int)
    requires
        0 <= k < fs.len(),
    ensures
        sum_files(fs.take(k + 1)) == sum_files(fs.take(k)) + fs[k].1,
    decreases k,
{
    if k == 0 {
        assert(fs.take(0) =~= Seq::<(Seq<Seq<u8>>, int)>::empty());
        let t = fs.take(1);
        assert(t[0] == fs[0]);
        assert(t.subrange(1, 1) =~= Seq::<(Seq<Seq<u8>>, int)>::empty());
    } else {
        let tl = fs.subrange(1, fs.len() as int);
        lemma_sum_take_unfold(tl, k - 1);
        let t1 = fs.take(k + 1);
        let t0 = fs.take(k);
        assert(t1[0] == fs[0] && t0[0] == fs[0]);
        assert(t1.subrange(1, t1.len() as int) =~= tl.take(k));
        assert(t0.subrange(1, t0.len() as int) =~= tl.take(k - 1));
        assert(tl[k - 1] == fs[k]);
    }
}

/// Sums of non-negative entries are non-negative.
pub proof fn lemma_sum_nonneg(fs: Seq<(Seq<Seq<u8>>, int)>)
    requires
        forall|i: int| 0 <= i < fs.len() ==> (#[trigger] fs[i]).1 >= 0,
    ensures
        sum_files(fs) >= 0,
    decreases fs,
{
    if fs.len() > 0 {
        let tl = fs.subrange(1, fs.len() as int);
        assert forall|i: int| 0 <= i < tl.len() implies (#[trigger] tl[i]).1 >= 0 by {
            assert(tl[i] == fs[i + 1]);
        }
        lemma_sum_nonneg(tl);
    }
}

/// One file entry parsed from the `files` list.
pub struct FileEntry {
    pub path: Vec<Vec<u8>>,
    pub length: usize,
}

/// The metainfo projection the engine works from.
pub struct Torrent {
    pub name: Vec<u8>,
    pub files: Vec<FileEntry>,
    pub piece_len: usize,
    pub num_pieces: usize,
    pub hashes: Vec<Vec<u8>>,
    pub file_len: usize,
    pub info_hash: Vec<u8>,
}

impl Torrent {
    /// The model this metainfo stands for.
    pub open spec fn model(&self) -> MetaM {
        MetaM {
            name: self.name@,
            files: Seq::new(
                self.files@.len(),
                |i: int| (path_views(self.files@[i].path@), self.files@[i].length as int),
            ),
            piece_len: self.piece_len as int,
            num_pieces: self.num_pieces as int,
            hashes: Seq::new(self.hashes@.len(), |i: int| self.hashes@[i]@),
            total_len: self.file_len as int,
        }
    }

    /// Structurally sound metainfo: positive geometry that the total
    /// length fits, per-piece digests of twenty bytes, and at least one
    /// file whose lengths sum to the total.
    pub open spec fn wf(&self) -> bool {
        &&& 1 <= self.piece_len < 0x1_0000_0000
        &&& 1 <= self.num_pieces < 0x1_0000_0000
        &&& self.hashes@.len() == self.num_pieces
        &&& forall|i: int| 0 <= i < self.hashes@.len()
            ==> (#[trigger] self.hashes@[i])@.len() == 20
        &&& (self.num_pieces - 1) * self.piece_len < self.file_len
        &&& self.file_len <= self.num_pieces * self.piece_len
        &&& self.files@.len() >= 1
        &&& sum_files(self.model().files) == self.file_len
        &&& self.info_hash@.len() == 20
    }
}

/// Reads the components of a `path` list.
fn parse_path(pl: &Vec<Item>) -> (r: Result<Vec<Vec<u8>>, TorrentError>)
    ensures
        match r {
            Ok(p) => path_of(pl@) == Some(path_views(p@)),
            Err(_) => path_of(pl@) is None,
        },
{
    let mut out: Vec<Vec<u8>> = Vec::new();
    let mut k: usize = 0;
    proof {
        assert(pl@.skip(0) =~= pl@);
    }
    while k < pl.len()
        invariant
            k <= pl@.len(),
            out@.len() == k,
            path_of(pl@) == match path_of(pl@.skip(k as int)) {
                None => None::<Seq<Seq<u8>>>,
                Some(rest) => Some(path_views(out@) + rest),
            },
        decreases pl@.len() - k,
    {
        let ghost s = pl@.skip(k as int);
        proof {
            assert(s[0] == pl@[k as int]);
            assert(s.subrange(1, s.len() as int) =~= pl@.skip(k + 1));
        }
        match &pl[k] {
            Item::String(sv) => {
                let copy = crate::msg::copy_range(sv, 0, sv.len());
                proof {
                    assert(copy@ =~= sv@);
                }
                out.push(copy);
                proof {
                    assert(path_views(out@) =~= path_views(out@.drop_last()).push(sv@));
                    assert forall|rest: Seq<Seq<u8>>|
                        path_of(pl@.skip(k + 1)) == Some(rest)
                        implies path_views(out@) + rest
                            =~= path_views(out@.drop_last()) + (seq![sv@] + rest) by {}
                }
                k += 1;
            }
            _ => {
                return Err(TorrentError::MetainfoInvalid);
            }
        }
    }
    proof {
        assert(pl@.skip(pl@.len() as int) =~= Seq::<Item>::empty());
        assert(path_views(out@) + Seq::<Seq<u8>>::empty() =~= path_views(out@));
    }
    Ok(out)
}

/// Reads one entry of the `files` list: its length and its path.
fn parse_entry(it: &Item) -> (r: Result<(Vec<Vec<u8>>, u64), TorrentError>)
    ensures
        match r {
            Ok(pe) => entry_of(*it) == Some((path_views(pe.0@), pe.1 as int)),
            Err(_) => entry_of(*it) is None,
        },
{
    match it {
        Item::Dict(_) => {}
        _ => {
            return Err(TorrentError::MetainfoInvalid);
        }
    }
    let klen = key_length_vec();
    let l: i64 = match it.dict_get(&klen) {
        Some(lit) => {
            match lit {
                Item::Int(v) => {
                    if *v < 0 {
                        return Err(TorrentError::MetainfoInvalid);
                    }
                    *v
                }
                _ => {
                    return Err(TorrentError::MetainfoInvalid);
                }
            }
        }
        None => {
            return Err(TorrentError::MetainfoInvalid);
        }
    };
    let kpath = key_path_vec();
    match it.dict_get(&kpath) {
        Some(pit) => {
            match pit {
                Item::List(pl) => {
                    match parse_path(pl) {
                        Ok(p) => {
                            if p.len() == 0 {
                                return Err(TorrentError::MetainfoInvalid);
                            }
                            Ok((p, l as u64))
                        }
                        Err(e) => Err(e),
                    }
                }
                _ => Err(TorrentError::MetainfoInvalid),
            }
        }
        None => Err(TorrentError::MetainfoInvalid),
    }
}

impl Torrent {
    /// Builds the metainfo projection from a parsed bencode tree and the
    /// already computed info hash. Succeeds exactly when the tree denotes
    /// a metainfo, and then returns exactly what it denotes.
    #[verifier::rlimit(100)]
    pub fn from_tree(tree: &Vec<Item>, info_hash: Vec<u8>) -> (r: Result<Torrent, TorrentError>)
        requires
            info_hash@.len() == 20,
        ensures
            match r {
                Ok(t) => meta_of(tree@) == Some(t.model()) && t.wf()
                    && t.info_hash == info_hash,
                Err(_) => meta_of(tree@) is None,
            },
    {
        if tree.len() == 0 {
            return Err(TorrentError::MetainfoInvalid);
        }
        let root = &tree[0];
        match root {
            Item::Dict(_) => {}
            _ => {
                return Err(TorrentError::MetainfoInvalid);
            }
        }
        let kinfo = key_info_vec();
        let info = match root.dict_get(&kinfo) {
            Some(it) => it,
            None => {
                return Err(TorrentError::MetainfoInvalid);
            }
        };
        match info {
            Item::Dict(_) => {}
            _ => {
                return Err(TorrentError::MetainfoInvalid);
            }
        }
        let kpl = key_piece_length_vec();
        let piece_len: usize = match info.dict_get(&kpl) {
            Some(plit) => match plit {
                Item::Int(v) => {
                    if *v < 1 || *v >= 0x1_0000_0000i64 || (*v as u64) > (usize::MAX as u64) {
                        return Err(TorrentError::MetainfoInvalid);
                    }
                    *v as usize
                }
                _ => {
                    return Err(TorrentError::MetainfoInvalid);
                }
            },
            None => {
                return Err(TorrentError::MetainfoInvalid);
            }
        };
        let kpieces = key_pieces_vec();
        let (hashes, num_pieces): (Vec<Vec<u8>>, usize) = match info.dict_get(&kpieces) {
            Some(psit) => match psit {
                Item::String(ps) => {
                    if ps.len() % 20 != 0 || ps.len() / 20 == 0
                        || (ps.len() / 20) as u64 >= 0x1_0000_0000u64 {
                        return Err(TorrentError::MetainfoInvalid);
                    }
                    let hs = split_hashes(ps);
                    proof {
                        assert(Seq::new(hs@.len(), |i: int| hs@[i]@) =~= spec_split20(ps@));
                    }
                    (hs, ps.len() / 20)
                }
                _ => {
                    return Err(TorrentError::MetainfoInvalid);
                }
            },
            None => {
                return Err(TorrentError::MetainfoInvalid);
            }
        };
        let kname = key_name_vec();
        let name: Vec<u8> = match info.dict_get(&kname) {
            Some(nit) => match nit {
                Item::String(nm) => crate::msg::copy_range(nm, 0, nm.len()),
                _ => {
                    return Err(TorrentError::MetainfoInvalid);
                }
            },
            None => {
                return Err(TorrentError::MetainfoInvalid);
            }
        };
        proof {
            assert(name@ =~= spec_dict_get(info->Dict_0@, key_name())->Some_0->String_0@);
        }
        // collect (path, length) pairs, single-file or the files list
        let klen = key_length_vec();
        let mut entries: Vec<(Vec<Vec<u8>>, u64)> = Vec::new();
        let single = info.dict_get(&klen);
        let ghost id = info->Dict_0@;
        match single {
            Some(lit) => {
                match lit {
                    Item::Int(l) => {
                        if *l < 0 {
                            return Err(TorrentError::MetainfoInvalid);
                        }
                        let mut path: Vec<Vec<u8>> = Vec::new();
                        path.push(crate::msg::copy_range(&name, 0, name.len()));
                        entries.push((path, *l as u64));
                        proof {
                            assert(path_views(entries@[0].0@) =~= seq![name@]);
                            assert(entries_model(entries@)
                                =~= seq![(seq![name@], *l as int)]);
                        }
                    }
                    _ => {
                        return Err(TorrentError::MetainfoInvalid);
                    }
                }
            }
            None => {
                let kfiles = key_files_vec();
                let fl = match info.dict_get(&kfiles) {
                    Some(fit) => match fit {
                        Item::List(fl) => fl,
                        _ => {
                            return Err(TorrentError::MetainfoInvalid);
                        }
                    },
                    None => {
                        return Err(TorrentError::MetainfoInvalid);
                    }
                };
                let mut k: usize = 0;
                let mut badf: bool = false;
                proof {
                    assert(fl@.skip(0) =~= fl@);
                }
                while k < fl.len() && !badf
                    invariant
                        k <= fl@.len(),
                        entries@.len() == k,
                        badf ==> files_of(fl@) is None,
                        !badf ==> files_of(fl@) == match files_of(fl@.skip(k as int)) {
                            None => None::<Seq<(Seq<Seq<u8>>, int)>>,
                            Some(rest) => Some(entries_model(entries@) + rest),
                        },
                    decreases fl@.len() - k, (if badf { 0int } else { 1int }),
                {
                    let ghost s = fl@.skip(k as int);
                    proof {
                        assert(s[0] == fl@[k as int]);
                        assert(s.subrange(1, s.len() as int) =~= fl@.skip(k + 1));
                    }
                    match parse_entry(&fl[k]) {
                        Ok(pe) => {
                            let ghost em = (path_views(pe.0@), pe.1 as int);
                            entries.push(pe);
                            proof {
                                assert(entries_model(entries@)
                                    =~= entries_model(entries@.drop_last()).push(em));
                                assert forall|rest: Seq<(Seq<Seq<u8>>, int)>|
                                    files_of(fl@.skip(k + 1)) == Some(rest)
                                    implies entries_model(entries@) + rest
                                        =~= entries_model(entries@.drop_last())
                                            + (seq![em] + rest) by {}
                            }
                            k += 1;
                        }
                        Err(_) => {
                            badf = true;
                        }
                    }
                }
                if badf {
                    return Err(TorrentError::MetainfoInvalid);
                }
                proof {
                    assert(fl@.skip(fl@.len() as int) =~= Seq::<Item>::empty());
                    assert(entries_model(entries@) + Seq::<(Seq<Seq<u8>>, int)>::empty()
                        =~= entries_model(entries@));
                }
                if entries.len() == 0 {
                    return Err(TorrentError::MetainfoInvalid);
                }
            }
        }
        let ghost fs = entries_model(entries@);
        proof {
            assert forall|i: int| 0 <= i < fs.len() implies (#[trigger] fs[i]).1 >= 0 by {}
        }
        // total length, watching for overflow
        let mut total: u64 = 0;
        let mut k2: usize = 0;
        let mut overflow: bool = false;
        while k2 < entries.len() && !overflow
            invariant
                k2 <= entries@.len(),
                fs == entries_model(entries@),
                forall|i: int| 0 <= i < fs.len() ==> (#[trigger] fs[i]).1 >= 0,
                !overflow ==> total as int == sum_files(fs.take(k2 as int)),
                overflow ==> sum_files(fs) > u64::MAX as int,
            decreases entries@.len() - k2, (if overflow { 0int } else { 1int }),
        {
            proof {
                lemma_sum_take_unfold(fs, k2 as int);
                lemma_sum_split(fs, k2 + 1);
                lemma_sum_nonneg(fs.skip(k2 + 1));
                assert forall|i: int| 0 <= i < fs.skip(k2 + 1).len()
                    implies (#[trigger] fs.skip(k2 + 1)[i]).1 >= 0 by {
                    assert(fs.skip(k2 + 1)[i] == fs[k2 + 1 + i]);
                }
            }
            let l = entries[k2].1;
            if l > u64::MAX - total {
                overflow = true;
            } else {
                total = total + l;
                k2 += 1;
            }
        }
        if overflow {
            return Err(TorrentError::MetainfoInvalid);
        }
        proof {
            assert(fs.take(fs.len() as int) =~= fs);
        }
        if total > usize::MAX as u64 {
            return Err(TorrentError::MetainfoInvalid);
        }
        let file_len = total as usize;
        // the total must fit the piece geometry
        proof {
            assert((num_pieces as int - 1) * (piece_len as int) < 0x1_0000_0000 * 0x1_0000_0000)
                by (nonlinear_arith)
                requires
                    0 <= num_pieces as int - 1,
                    num_pieces as int - 1 < 0x1_0000_0000,
                    0 <= piece_len as int,
                    (piece_len as int) < 0x1_0000_0000,
            ;
            assert((num_pieces as int) * (piece_len as int) < 0x1_0000_0000 * 0x1_0000_0000)
                by (nonlinear_arith)
                requires
                    0 < num_pieces as int,
                    num_pieces as int <= 0x1_0000_0000 - 1,
                    0 <= piece_len as int,
                    (piece_len as int) < 0x1_0000_0000,
            ;
            assert((num_pieces as int - 1) * (piece_len as int) >= 0) by (nonlinear_arith)
                requires num_pieces as int >= 1, piece_len as int >= 0,
            ;
            assert((num_pieces as int) * (piece_len as int) >= 0) by (nonlinear_arith)
                requires num_pieces as int >= 1, piece_len as int >= 0,
            ;
        }
        let lo: u64 = ((num_pieces - 1) as u64) * (piece_len as u64);
        let hi: u64 = (num_pieces as u64) * (piece_len as u64);
        if !(lo < total && total <= hi) {
            return Err(TorrentError::MetainfoInvalid);
        }
        // convert entries, now known to fit usize
        let mut files: Vec<FileEntry> = Vec::new();
        let mut k3: usize = 0;
        while k3 < entries.len()
            invariant
                k3 <= entries@.len(),
                entries@.len() == fs.len(),
                forall|i: int| k3 <= i < fs.len()
                    ==> (path_views((#[trigger] entries@[i]).0@), entries@[i].1 as int)
                        == fs[i],
                forall|i: int| 0 <= i < fs.len() ==> (#[trigger] fs[i]).1 >= 0,
                sum_files(fs) == total as int,
                total <= usize::MAX as u64,
                files@.len() == k3,
                forall|i: int| 0 <= i < k3 ==> (#[trigger] files@[i]).length as int == fs[i].1
                    && path_views(files@[i].path@) == fs[i].0,
            decreases entries@.len() - k3,
        {
            proof {
                lemma_sum_split(fs, k3 as int);
                lemma_sum_take_unfold(fs, k3 as int);
                lemma_sum_split(fs, k3 + 1);
                lemma_sum_nonneg(fs.skip(k3 + 1));
                assert forall|i: int| 0 <= i < fs.skip(k3 + 1).len()
                    implies (#[trigger] fs.skip(k3 + 1)[i]).1 >= 0 by {
                    assert(fs.skip(k3 + 1)[i] == fs[k3 + 1 + i]);
                }
                assert forall|i: int| 0 <= i < fs.take(k3 as int).len()
                    implies (#[trigger] fs.take(k3 as int)[i]).1 >= 0 by {
                    assert(fs.take(k3 as int)[i] == fs[i]);
                }
                lemma_sum_nonneg(fs.take(k3 as int));
                assert(fs[k3 as int].1 <= total as int);
            }
            let mut tmp: (Vec<Vec<u8>>, u64) = (Vec::new(), 0);
            entries.set_and_swap(k3, &mut tmp);
            let (path, l64) = tmp;
            files.push(FileEntry { path, length: l64 as usize });
            k3 += 1;
        }
        let t = Torrent {
            name,
            files,
            piece_len,
            num_pieces,
            hashes,
            file_len,
            info_hash,
        };
        proof {
            assert(t.model().files =~= fs);
            assert(t.model() == meta_of(tree@)->Some_0);
        }
        Ok(t)
    }
}

impl Torrent {
    /// Byte length of piece `i`.
    pub open spec fn rem_of(&self, i: int) -> int {
        piece_rem(self.file_len as int, self.piece_len as int, self.num_pieces as int, i)
    }

    /// Bytes a load may not refuse: they encode a well-formed tree, they
    /// carry the marker of the raw `info` range, and every tree they encode
    /// denotes a metainfo.
    pub open spec fn can_load(bytes: Seq<u8>) -> bool {
        &&& exists|vl: Seq<Bval>| wf_seq(vl) && bytes == #[trigger] enc_seq(vl)
        &&& crate::hash::find_marker(bytes, 0) != -1
        &&& forall|items: Seq<Item>| bytes == #[trigger] enc_seq(views(items))
            ==> meta_of(items) is Some
    }

    /// Loads the metainfo from the raw bytes of a torrent file: parses the
    /// bencode tree, takes the info hash from the on-wire byte range, and
    /// projects the tree through `from_tree`. Refused only when the bytes
    /// are unparseable, the info marker is absent, or the tree denotes no
    /// metainfo.
    pub fn new(bytes: &Vec<u8>) -> (r: Result<Torrent, TorrentError>)
        ensures
            match r {
                Ok(t) => t.wf()
                    && crate::hash::find_marker(bytes@, 0) != -1
                    && t.info_hash@ == crate::hash::sha1_of(bytes@.subrange(
                        crate::hash::find_marker(bytes@, 0) + 6,
                        bytes@.len() - 1,
                    ))
                    && exists|items: Seq<Item>|
                        bytes@ == enc_seq(views(items))
                        && meta_of(items) == Some(t.model()),
                Err(_) => !Torrent::can_load(bytes@),
            },
    {
        let tree = match parse(bytes) {
            Some(t) => t,
            None => {
                proof {
                    if exists|vl: Seq<Bval>| wf_seq(vl) && bytes@ == #[trigger] enc_seq(vl) {
                        let vl = choose|vl: Seq<Bval>| wf_seq(vl)
                            && bytes@ == #[trigger] enc_seq(vl);
                        assert(false);
                    }
                }
                return Err(TorrentError::MetainfoInvalid);
            }
        };
        let ih = match crate::hash::get_info_hash(bytes) {
            Some(h) => h,
            None => {
                return Err(TorrentError::MetainfoInvalid);
            }
        };
        let r = Torrent::from_tree(&tree, ih);
        proof {
            assert(bytes@ == enc_seq(views(tree@)));
            if r is Ok {
                assert(meta_of(tree@) == Some(r->Ok_0.model()));
            } else {
                assert(meta_of(tree@) is None);
            }
        }
        r
    }

    /// Byte length of the final piece: what the total leaves after the
    /// full pieces before it.
    pub fn final_piece_len(&self) -> (r: usize)
        requires
            self.wf(),
        ensures
            r as int == self.file_len - (self.num_pieces - 1) * self.piece_len,
            r as int == self.rem_of(self.num_pieces as int - 1),
            1 <= r <= self.piece_len,
    {
        proof {
            assert((self.num_pieces - 1) * self.piece_len >= 0) by (nonlinear_arith)
                requires self.num_pieces >= 1, self.piece_len >= 0,
            ;
            assert(self.file_len - (self.num_pieces - 1) * self.piece_len
                <= self.piece_len) by (nonlinear_arith)
                requires
                    self.file_len <= self.num_pieces * self.piece_len,
                    self.num_pieces >= 1,
                    self.piece_len >= 0,
            ;
        }
        self.file_len - (self.num_pieces - 1) * self.piece_len
    }

    /// The block requests that fetch piece `index`, in offset order, all
    /// pipelined: one per sub-piece, each a whole block except a shorter
    /// final one when the piece length leaves a tail. Never empty.
    pub fn plan_requests(&self, index: usize) -> (r: Vec<Request>)
        requires
            self.wf(),
            index < self.num_pieces,
        ensures
            r@.len() == nsub_of(self.rem_of(index as int)),
            r@.len() >= 1,
            forall|k: int| 0 <= k < r@.len() ==> {
                let q = #[trigger] r@[k];
                &&& q.head.len == 13
                &&& q.head.byte == REQUEST
                &&& q.index == index as u32
                &&& q.offset as int == k * (SUBPIECE_LEN as int)
                &&& q.plen as int == blen_of(self.rem_of(index as int), k)
            },
    {
        let num = self.num_pieces;
        proof {
            assert((index as int) * self.piece_len <= (num - 1) * self.piece_len)
                by (nonlinear_arith)
                requires index as int <= num - 1, self.piece_len >= 0,
            ;
        }
        let rem: usize = if index == num - 1 {
            self.file_len - (num - 1) * self.piece_len
        } else {
            self.piece_len
        };
        proof {
            assert(rem as int == self.rem_of(index as int));
            assert(1 <= rem as int && rem as int <= self.piece_len) by (nonlinear_arith)
                requires
                    rem as int == piece_rem(self.file_len as int, self.piece_len as int,
                        self.num_pieces as int, index as int),
                    (self.num_pieces - 1) * self.piece_len < self.file_len,
                    self.file_len <= self.num_pieces * self.piece_len,
                    self.piece_len >= 1,
                    0 <= index as int && (index as int) < self.num_pieces,
            ;
        }
        let ghost grem = rem as int;
        let bsz = SUBPIECE_LEN as usize;
        let nsub: usize = rem / bsz + if rem % bsz > 0 { 1 } else { 0 };
        let mut out: Vec<Request> = Vec::new();
        let mut k: usize = 0;
        while k < nsub
            invariant
                k <= nsub,
                nsub as int == nsub_of(grem),
                grem == rem as int,
                bsz == SUBPIECE_LEN as usize,
                1 <= grem <= self.piece_len,
                self.piece_len < 0x1_0000_0000,
                index < self.num_pieces,
                self.num_pieces < 0x1_0000_0000,
                out@.len() == k,
                forall|j: int| 0 <= j < k ==> {
                    let q = #[trigger] out@[j];
                    &&& q.head.len == 13
                    &&& q.head.byte == REQUEST
                    &&& q.index == index as u32
                    &&& q.offset as int == j * (SUBPIECE_LEN as int)
                    &&& q.plen as int == blen_of(grem, j)
                },
            decreases nsub - k,
        {
            proof {
                lemma_subpiece_tiling(grem, k as int);
                assert(k * (bsz as int) <= grem) by (nonlinear_arith)
                    requires
                        (k as int) * (SUBPIECE_LEN as int) + blen_of(grem, k as int) <= grem,
                        blen_of(grem, k as int) >= 1,
                        bsz == SUBPIECE_LEN as usize,
                        k >= 0,
                ;
            }
            let offu: usize = k * bsz;
            let blenk: usize = if rem - offu >= bsz { bsz } else { rem - offu };
            proof {
                assert((k + 1) * (bsz as int) == k * (bsz as int) + bsz) by (nonlinear_arith);
                assert(blenk as int == blen_of(grem, k as int));
            }
            out.push(Request {
                head: Header { len: 13, byte: REQUEST },
                index: index as u32,
                offset: offu as u32,
                plen: blenk as u32,
            });
            k += 1;
        }
        proof {
            vstd::arithmetic::div_mod::lemma_fundamental_div_mod(grem, SUBPIECE_LEN as int);
        }
        out
    }
}

/// A torrent whose total length equals its piece length has exactly one
/// piece.
pub proof fn lemma_single_piece(t: &Torrent)
    requires
        t.wf(),
        t.file_len == t.piece_len,
    ensures
        t.num_pieces == 1,
{
    assert(t.num_pieces == 1) by (nonlinear_arith)
        requires
            (t.num_pieces - 1) * t.piece_len < t.piece_len,
            t.piece_len >= 1,
            t.num_pieces >= 1,
    ;
}

} // verus!
