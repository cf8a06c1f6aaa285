//! Peer-wire codec: the one-off 68-byte handshake and the length-prefixed
//! message frames, with a streaming parser that takes complete messages off
//! the head of a buffer and leaves the rest in place.

use vstd::prelude::*;

verus! {

/// Tag byte of each frame kind.
pub const CHOKE: u8 = 0;
pub const UNCHOKE: u8 = 1;
pub const INTEREST: u8 = 2;
pub const UNINTEREST: u8 = 3;
pub const HAVE: u8 = 4;
pub const BITFIELD: u8 = 5;
pub const REQUEST: u8 = 6;
pub const PIECE: u8 = 7;
pub const CANCEL: u8 = 8;
/// Byte found at offset 4 of a handshake: the `T` of the protocol literal.
pub const HANDSHAKE: u8 = 0x54;

/// Mathematical model of one wire message.
pub enum Msg {
    Handshake { info_hash: Seq<u8>, peer_id: Seq<u8> },
    Choke,
    Unchoke,
    Interest,
    Uninterest,
    Have { index: u32 },
    Bitfield { data: Seq<u8> },
    Request { index: u32, offset: u32, plen: u32 },
    Piece { index: u32, offset: u32, data: Seq<u8> },
    Cancel { index: u32, offset: u32, plen: u32 },
}

/// Number carried by four big-endian bytes.
pub open spec fn u32_of_be(s: Seq<u8>) -> int {
    s[0] * 0x100_0000 + s[1] * 0x1_0000 + s[2] * 0x100 + s[3]
}

/// Four big-endian bytes of a number below two to the thirty-second.
pub open spec fn be32s(n: int) -> Seq<u8> {
    seq![
        (n / 0x100_0000 % 0x100) as u8,
        (n / 0x1_0000 % 0x100) as u8,
        (n / 0x100 % 0x100) as u8,
        (n % 0x100) as u8,
    ]
}

/// The nineteen bytes of the protocol literal.
pub open spec fn protocol_str() -> Seq<u8> {
    seq![
        66u8, 105u8, 116u8, 84u8, 111u8, 114u8, 114u8, 101u8, 110u8, 116u8,
        32u8, 112u8, 114u8, 111u8, 116u8, 111u8, 99u8, 111u8, 108u8,
    ]
}

/// On-wire bytes of one message.
pub open spec fn frame(m: Msg) -> Seq<u8> {
    match m {
        Msg::Handshake { info_hash, peer_id } =>
            seq![19u8] + protocol_str() + seq![0u8; 8] + info_hash + peer_id,
        Msg::Choke => be32s(1) + seq![CHOKE],
        Msg::Unchoke => be32s(1) + seq![UNCHOKE],
        Msg::Interest => be32s(1) + seq![INTEREST],
        Msg::Uninterest => be32s(1) + seq![UNINTEREST],
        Msg::Have { index } => be32s(5) + seq![HAVE] + be32s(index as int),
        Msg::Bitfield { data } => be32s(1 + data.len() as int) + seq![BITFIELD] + data,
        Msg::Request { index, offset, plen } =>
            be32s(13) + seq![REQUEST] + be32s(index as int) + be32s(offset as int)
                + be32s(plen as int),
        Msg::Piece { index, offset, data } =>
            be32s(9 + data.len() as int) + seq![PIECE] + be32s(index as int)
                + be32s(offset as int) + data,
        Msg::Cancel { index, offset, plen } =>
            be32s(13) + seq![CANCEL] + be32s(index as int) + be32s(offset as int)
                + be32s(plen as int),
    }
}

/// Does a length prefix fit the tag's fixed shape?
pub open spec fn tag_len_ok(tag: u8, l: int) -> bool {
    if tag == CHOKE || tag == UNCHOKE || tag == INTEREST || tag == UNINTEREST {
        l == 1
    } else if tag == HAVE {
        l == 5
    } else if tag == BITFIELD {
        l >= 1
    } else if tag == REQUEST || tag == CANCEL {
        l == 13
    } else if tag == PIECE {
        l >= 9
    } else {
        false
    }
}

/// The first sixty-eight bytes carry a valid handshake.
pub open spec fn hs_valid(s: Seq<u8>) -> bool {
    s[0] == 19 && s.subrange(1, 20) == protocol_str()
}

/// Message denoted by a complete frame with tag `tag` and length `l`.
pub open spec fn mk_msg(tag: u8, l: int, s: Seq<u8>) -> Msg {
    if tag == CHOKE {
        Msg::Choke
    } else if tag == UNCHOKE {
        Msg::Unchoke
    } else if tag == INTEREST {
        Msg::Interest
    } else if tag == UNINTEREST {
        Msg::Uninterest
    } else if tag == HAVE {
        Msg::Have { index: u32_of_be(s.subrange(5, 9)) as u32 }
    } else if tag == BITFIELD {
        Msg::Bitfield { data: s.subrange(5, 4 + l) }
    } else if tag == REQUEST {
        Msg::Request {
            index: u32_of_be(s.subrange(5, 9)) as u32,
            offset: u32_of_be(s.subrange(9, 13)) as u32,
            plen: u32_of_be(s.subrange(13, 17)) as u32,
        }
    } else if tag == PIECE {
        Msg::Piece {
            index: u32_of_be(s.subrange(5, 9)) as u32,
            offset: u32_of_be(s.subrange(9, 13)) as u32,
            data: s.subrange(13, 4 + l),
        }
    } else {
        Msg::Cancel {
            index: u32_of_be(s.subrange(5, 9)) as u32,
            offset: u32_of_be(s.subrange(9, 13)) as u32,
            plen: u32_of_be(s.subrange(13, 17)) as u32,
        }
    }
}

/// Streaming parse of a byte buffer: the messages taken off the head, the
/// unparsed tail left in place, and whether the tail is healthy (true) or
/// the head of the tail is malformed (false). Zero-length keep-alive frames
/// are consumed and ignored.
pub open spec fn sp_parse(s: Seq<u8>) -> (Seq<Msg>, Seq<u8>, bool)
    decreases s.len(),
{
    if s.len() < 4 {
        (Seq::empty(), s, true)
    } else {
        let l = u32_of_be(s.subrange(0, 4));
        if l == 0 {
            sp_parse(s.skip(4))
        } else if s.len() < 5 {
            (Seq::empty(), s, true)
        } else if s[4] == HANDSHAKE {
            if s.len() < 68 {
                (Seq::empty(), s, true)
            } else if hs_valid(s) {
                let m = Msg::Handshake {
                    info_hash: s.subrange(28, 48),
                    peer_id: s.subrange(48, 68),
                };
                let rec = sp_parse(s.skip(68));
                (seq![m] + rec.0, rec.1, rec.2)
            } else {
                (Seq::empty(), s, false)
            }
        } else {
            let tag = s[4];
            if !tag_len_ok(tag, l) {
                (Seq::empty(), s, false)
            } else if s.len() < 4 + l {
                (Seq::empty(), s, true)
            } else {
                let m = mk_msg(tag, l, s);
                let rec = sp_parse(s.skip(4 + l));
                (seq![m] + rec.0, rec.1, rec.2)
            }
        }
    }
}

/// A buffer that is exactly a run of complete, valid frames.
pub open spec fn wf_stream(s: Seq<u8>) -> bool {
    sp_parse(s).1.len() == 0 && sp_parse(s).2
}

/// How parsing a buffer relates to parsing it with more bytes appended:
/// while the parse is healthy the two agree message for message, and a
/// malformed head stays malformed.
pub proof fn lemma_sp_split(a: Seq<u8>, b: Seq<u8>)
    ensures
        sp_parse(a).2 ==> sp_parse(a + b) == (
            sp_parse(a).0 + sp_parse(sp_parse(a).1 + b).0,
            sp_parse(sp_parse(a).1 + b).1,
            sp_parse(sp_parse(a).1 + b).2,
        ),
        !sp_parse(a).2 ==> sp_parse(a + b) == (sp_parse(a).0, sp_parse(a).1 + b, false),
    decreases a.len(),
{
    let c = a + b;
    let ra = sp_parse(a);
    if a.len() < 4 {
        assert(ra.0 =~= Seq::<Msg>::empty());
        assert(ra.1 + b =~= c);
        assert(Seq::<Msg>::empty() + sp_parse(ra.1 + b).0 =~= sp_parse(ra.1 + b).0);
        return;
    }
    assert(c.subrange(0, 4) =~= a.subrange(0, 4));
    let l = u32_of_be(a.subrange(0, 4));
    assert(c.len() >= a.len());
    if l == 0 {
        assert(c.skip(4) =~= a.skip(4) + b);
        lemma_sp_split(a.skip(4), b);
        assert(sp_parse(a) == sp_parse(a.skip(4)));
        assert(sp_parse(c) == sp_parse(c.skip(4)));
        return;
    }
    if a.len() < 5 {
        assert(ra.0 =~= Seq::<Msg>::empty());
        assert(ra.1 + b =~= c);
        assert(Seq::<Msg>::empty() + sp_parse(ra.1 + b).0 =~= sp_parse(ra.1 + b).0);
        return;
    }
    assert(c[4] == a[4]);
    if a[4] == HANDSHAKE {
        if a.len() < 68 {
            assert(ra.0 =~= Seq::<Msg>::empty());
            assert(ra.1 + b =~= c);
            assert(Seq::<Msg>::empty() + sp_parse(ra.1 + b).0 =~= sp_parse(ra.1 + b).0);
            return;
        }
        assert(c.subrange(1, 20) =~= a.subrange(1, 20));
        assert(c[0] == a[0]);
        assert(hs_valid(c) == hs_valid(a));
        if hs_valid(a) {
            assert(c.subrange(28, 48) =~= a.subrange(28, 48));
            assert(c.subrange(48, 68) =~= a.subrange(48, 68));
            let m = Msg::Handshake { info_hash: a.subrange(28, 48), peer_id: a.subrange(48, 68) };
            assert(c.skip(68) =~= a.skip(68) + b);
            lemma_sp_split(a.skip(68), b);
            let reca = sp_parse(a.skip(68));
            let recc = sp_parse(c.skip(68));
            assert(ra == (seq![m] + reca.0, reca.1, reca.2));
            assert(sp_parse(c) == (seq![m] + recc.0, recc.1, recc.2));
            if reca.2 {
                let rb = sp_parse(reca.1 + b);
                assert(recc == (reca.0 + rb.0, rb.1, rb.2));
                assert(seq![m] + (reca.0 + rb.0) =~= (seq![m] + reca.0) + rb.0);
            } else {
                assert(recc == (reca.0, reca.1 + b, false));
                assert(seq![m] + reca.0 =~= ra.0);
            }
        } else {
            assert(ra == (Seq::<Msg>::empty(), a, false));
            assert(sp_parse(c) == (Seq::<Msg>::empty(), c, false));
            assert(ra.1 + b =~= c);
        }
        return;
    }
    let tag = a[4];
    if !tag_len_ok(tag, l) {
        assert(ra == (Seq::<Msg>::empty(), a, false));
        assert(sp_parse(c) == (Seq::<Msg>::empty(), c, false));
        assert(ra.1 + b =~= c);
        return;
    }
    if a.len() < 4 + l {
        assert(ra.0 =~= Seq::<Msg>::empty());
        assert(ra.1 + b =~= c);
        assert(Seq::<Msg>::empty() + sp_parse(ra.1 + b).0 =~= sp_parse(ra.1 + b).0);
        return;
    }
    assert(l >= 1 && 4 + l <= a.len());
    if 5 <= 9 <= a.len() && l >= 5 {
        assert(c.subrange(5, 9) =~= a.subrange(5, 9));
    }
    if l >= 9 {
        assert(c.subrange(9, 13) =~= a.subrange(9, 13));
        assert(c.subrange(13, 4 + l) =~= a.subrange(13, 4 + l));
    }
    if l >= 13 {
        assert(c.subrange(13, 17) =~= a.subrange(13, 17));
    }
    assert(c.subrange(5, 4 + l) =~= a.subrange(5, 4 + l));
    assert(mk_msg(tag, l, c) == mk_msg(tag, l, a));
    let m = mk_msg(tag, l, a);
    assert(c.skip(4 + l) =~= a.skip(4 + l) + b);
    lemma_sp_split(a.skip(4 + l), b);
    let reca = sp_parse(a.skip(4 + l));
    let recc = sp_parse(c.skip(4 + l));
    assert(ra == (seq![m] + reca.0, reca.1, reca.2));
    assert(sp_parse(c) == (seq![m] + recc.0, recc.1, recc.2));
    if reca.2 {
        let rb = sp_parse(reca.1 + b);
        assert(recc == (reca.0 + rb.0, rb.1, rb.2));
        assert(seq![m] + (reca.0 + rb.0) =~= (seq![m] + reca.0) + rb.0);
    } else {
        assert(recc == (reca.0, reca.1 + b, false));
    }
}

/// The streaming parse is incremental: splitting a well-formed stream
/// anywhere and feeding the leftover tail together with the second half
/// yields exactly the messages of the whole stream.
pub proof fn lemma_partial_parse_incremental(a: Seq<u8>, b: Seq<u8>)
    requires
        wf_stream(a + b),
    ensures
        sp_parse(a).2,
        sp_parse(sp_parse(a).1 + b).2,
        sp_parse(sp_parse(a).1 + b).1.len() == 0,
        sp_parse(a).0 + sp_parse(sp_parse(a).1 + b).0 == sp_parse(a + b).0,
{
    lemma_sp_split(a, b);
    if !sp_parse(a).2 {
        assert(sp_parse(a + b).2 == false);
    }
}

/// Reads a big-endian 32-bit number at `pos`.
pub fn parse_u32(buf: &Vec<u8>, pos: usize) -> (r: u32)
    requires
        pos + 4 <= buf@.len(),
    ensures
        r as int == u32_of_be(buf@.subrange(pos as int, pos + 4int)),
{
    let n = buf.len();
    proof {
        assert(pos + 4 <= n);
    }
    let r = (buf[pos] as u32) * 0x100_0000 + (buf[pos + 1] as u32) * 0x1_0000
        + (buf[pos + 2] as u32) * 0x100 + (buf[pos + 3] as u32);
    proof {
        let s = buf@.subrange(pos as int, pos + 4int);
        assert(s[0] == buf@[pos as int] && s[1] == buf@[pos + 1int]
            && s[2] == buf@[pos + 2int] && s[3] == buf@[pos + 3int]);
    }
    r
}

/// Appends the four big-endian bytes of `n`.
pub fn push_be32(out: &mut Vec<u8>, n: u32)
    ensures
        final(out)@ == old(out)@ + be32s(n as int),
{
    out.push((n / 0x100_0000 % 0x100) as u8);
    out.push((n / 0x1_0000 % 0x100) as u8);
    out.push((n / 0x100 % 0x100) as u8);
    out.push((n % 0x100) as u8);
    proof {
        assert(out@ =~= old(out)@ + be32s(n as int));
    }
}

/// Copies the bytes of `[a, b)` out of the buffer.
pub fn copy_range(buf: &Vec<u8>, a: usize, b: usize) -> (r: Vec<u8>)
    requires
        a <= b <= buf@.len(),
    ensures
        r@ == buf@.subrange(a as int, b as int),
{
    let mut out: Vec<u8> = Vec::new();
    let mut k: usize = a;
    while k < b
        invariant
            a <= k <= b <= buf@.len(),
            out@ == buf@.subrange(a as int, k as int),
        decreases b - k,
    {
        out.push(buf[k]);
        proof {
            assert(out@ =~= buf@.subrange(a as int, k + 1int));
        }
        k += 1;
    }
    out
}

/// Removes the first `n` bytes of the buffer.
pub fn drop_prefix(buf: &mut Vec<u8>, n: usize)
    requires
        n <= old(buf)@.len(),
    ensures
        final(buf)@ == old(buf)@.skip(n as int),
{
    let tail = copy_range(buf, n, buf.len());
    *buf = tail;
    proof {
        assert(buf@ =~= old(buf)@.skip(n as int));
    }
}

/// The protocol literal as bytes.
pub fn protocol_bytes() -> (r: Vec<u8>)
    ensures
        r@ == protocol_str(),
{
    let mut p: Vec<u8> = Vec::new();
    p.push(66); p.push(105); p.push(116); p.push(84); p.push(111);
    p.push(114); p.push(114); p.push(101); p.push(110); p.push(116);
    p.push(32); p.push(112); p.push(114); p.push(111); p.push(116);
    p.push(111); p.push(99); p.push(111); p.push(108);
    proof {
        assert(p@ =~= protocol_str());
    }
    p
}

/// The 68-byte opening of a connection.
pub struct Handshake {
    pub len: u8,
    pub protocol: Vec<u8>,
    pub reserved: Vec<u8>,
    pub info_hash: Vec<u8>,
    pub peer_id: Vec<u8>,
}

/// Length prefix and tag of a framed message.
#[derive(Clone, Debug)]
pub struct Header {
    pub len: u32,
    pub byte: u8,
}

/// Frame announcing a held piece.
pub struct Have {
    pub head: Header,
    pub index: u32,
}

/// Frame carrying a bitmap of held pieces.
pub struct Bitfield {
    pub head: Header,
    pub data: Vec<u8>,
}

/// Frame asking for a block.
pub struct Request {
    pub head: Header,
    pub index: u32,
    pub offset: u32,
    pub plen: u32,
}

/// Frame carrying a block.
pub struct Piece {
    pub head: Header,
    pub index: u32,
    pub offset: u32,
    pub data: Vec<u8>,
}

/// Frame withdrawing a request.
pub struct Cancel {
    pub head: Header,
    pub index: u32,
    pub offset: u32,
    pub plen: u32,
}

/// One parsed wire message.
pub enum Message {
    Handshake(Handshake),
    Choke(Header),
    Unchoke(Header),
    Interest(Header),
    Uninterest(Header),
    Have(Have),
    Bitfield(Bitfield),
    Request(Request),
    Piece(Piece),
    Cancel(Cancel),
}

/// The model a parsed message stands for.
pub open spec fn mview(m: Message) -> Msg {
    match m {
        Message::Handshake(h) => Msg::Handshake { info_hash: h.info_hash@, peer_id: h.peer_id@ },
        Message::Choke(_) => Msg::Choke,
        Message::Unchoke(_) => Msg::Unchoke,
        Message::Interest(_) => Msg::Interest,
        Message::Uninterest(_) => Msg::Uninterest,
        Message::Have(h) => Msg::Have { index: h.index },
        Message::Bitfield(b) => Msg::Bitfield { data: b.data@ },
        Message::Request(r) => Msg::Request { index: r.index, offset: r.offset, plen: r.plen },
        Message::Piece(p) => Msg::Piece { index: p.index, offset: p.offset, data: p.data@ },
        Message::Cancel(c) => Msg::Cancel { index: c.index, offset: c.offset, plen: c.plen },
    }
}

/// Models of a sequence of parsed messages.
pub open spec fn msgs_of(s: Seq<Message>) -> Seq<Msg> {
    Seq::new(s.len(), |i: int| mview(s[i]))
}

/// Extracts every complete message at the head of the buffer and leaves the
/// rest in place. The flag is false exactly when the head of what remains
/// is malformed; keep-alive frames are consumed silently.
#[verifier::rlimit(100)]
pub fn partial_parse(msg: &mut Vec<u8>) -> (r: (bool, Vec<Message>))
    ensures
        msgs_of(r.1@) == sp_parse(old(msg)@).0,
        final(msg)@ == sp_parse(old(msg)@).1,
        r.0 == sp_parse(old(msg)@).2,
{
    let ghost orig = msg@;
    let len = msg.len();
    let mut p: usize = 0;
    let mut list: Vec<Message> = Vec::new();
    let mut ok: bool = true;
    let mut cont: bool = true;
    proof {
        assert(orig.skip(0) =~= orig);
        assert(msgs_of(list@) =~= Seq::<Msg>::empty());
        assert(Seq::<Msg>::empty() + sp_parse(orig).0 =~= sp_parse(orig).0);
    }
    while cont
        invariant
            p <= len,
            len == orig.len(),
            msg@ == orig,
            cont ==> ok,
            cont ==> sp_parse(orig) == (
                msgs_of(list@) + sp_parse(orig.skip(p as int)).0,
                sp_parse(orig.skip(p as int)).1,
                sp_parse(orig.skip(p as int)).2,
            ),
            !cont ==> sp_parse(orig) == (msgs_of(list@), orig.skip(p as int), ok),
        decreases len - p + 1, (if cont { 1int } else { 0int }),
    {
        let ghost s = orig.skip(p as int);
        if len - p < 4 {
            proof {
                assert(s.len() < 4);
                assert(sp_parse(s) == (Seq::<Msg>::empty(), s, true));
                assert(msgs_of(list@) + Seq::<Msg>::empty() =~= msgs_of(list@));
            }
            cont = false;
            continue;
        }
        let l = parse_u32(msg, p);
        proof {
            assert(s.subrange(0, 4) =~= orig.subrange(p as int, p + 4int));
        }
        if l == 0 {
            proof {
                assert(sp_parse(s) == sp_parse(s.skip(4)));
                assert(s.skip(4) =~= orig.skip(p + 4int));
            }
            p += 4;
            continue;
        }
        if len - p < 5 {
            proof {
                assert(sp_parse(s) == (Seq::<Msg>::empty(), s, true));
                assert(msgs_of(list@) + Seq::<Msg>::empty() =~= msgs_of(list@));
            }
            cont = false;
            continue;
        }
        let tag = msg[p + 4];
        proof {
            assert(s[4] == orig[p + 4int]);
        }
        if tag == HANDSHAKE {
            if len - p < 68 {
                proof {
                    assert(sp_parse(s) == (Seq::<Msg>::empty(), s, true));
                    assert(msgs_of(list@) + Seq::<Msg>::empty() =~= msgs_of(list@));
                }
                cont = false;
                continue;
            }
            let proto = protocol_bytes();
            let mut good = msg[p] == 19;
            let mut k: usize = 0;
            while k < 19
                invariant
                    k <= 19,
                    p + 68 <= len,
                    len == orig.len(),
                    msg@ == orig,
                    proto@ == protocol_str(),
                    good == (orig[p as int] == 19
                        && forall|j: int| 0 <= j < k
                            ==> orig[p + 1 + j] == #[trigger] protocol_str()[j]),
                decreases 19 - k,
            {
                if msg[p + 1 + k] != proto[k] {
                    good = false;
                }
                k += 1;
            }
            proof {
                assert(s.subrange(1, 20) =~= orig.subrange(p + 1int, p + 20int));
                if good {
                    assert(s.subrange(1, 20) =~= protocol_str());
                }
                if !good && s[0] == 19 && s.subrange(1, 20) == protocol_str() {
                    assert(forall|j: int| 0 <= j < 19
                        ==> orig[p + 1 + j] == #[trigger] protocol_str()[j]);
                    assert(false);
                }
                assert(good == hs_valid(s));
            }
            if !good {
                ok = false;
                proof {
                    assert(sp_parse(s) == (Seq::<Msg>::empty(), s, false));
                    assert(msgs_of(list@) + Seq::<Msg>::empty() =~= msgs_of(list@));
                }
                cont = false;
                continue;
            }
            let hs = Handshake {
                len: 19,
                protocol: proto,
                reserved: copy_range(msg, p + 20, p + 28),
                info_hash: copy_range(msg, p + 28, p + 48),
                peer_id: copy_range(msg, p + 48, p + 68),
            };
            proof {
                assert(hs.info_hash@ =~= s.subrange(28, 48));
                assert(hs.peer_id@ =~= s.subrange(48, 68));
                assert(s.skip(68) =~= orig.skip(p + 68int));
                let m = mview(Message::Handshake(hs));
                assert(sp_parse(s) == (
                    seq![m] + sp_parse(s.skip(68)).0,
                    sp_parse(s.skip(68)).1,
                    sp_parse(s.skip(68)).2,
                ));
                assert(msgs_of(list@.push(Message::Handshake(hs)))
                    =~= msgs_of(list@).push(m));
                assert(msgs_of(list@).push(m) + sp_parse(s.skip(68)).0
                    =~= msgs_of(list@) + (seq![m] + sp_parse(s.skip(68)).0));
            }
            list.push(Message::Handshake(hs));
            p += 68;
            continue;
        }
        // framed message with a known tag
        let shape_ok = if tag == CHOKE || tag == UNCHOKE || tag == INTEREST || tag == UNINTEREST {
            l == 1
        } else if tag == HAVE {
            l == 5
        } else if tag == BITFIELD {
            l >= 1
        } else if tag == REQUEST || tag == CANCEL {
            l == 13
        } else if tag == PIECE {
            l >= 9
        } else {
            false
        };
        proof {
            assert(shape_ok == tag_len_ok(tag, l as int));
        }
        if !shape_ok {
            ok = false;
            proof {
                assert(sp_parse(s) == (Seq::<Msg>::empty(), s, false));
                assert(msgs_of(list@) + Seq::<Msg>::empty() =~= msgs_of(list@));
            }
            cont = false;
            continue;
        }
        if ((len - p) as u64) < 4u64 + (l as u64) {
            proof {
                assert(s.len() < 4 + l);
                assert(sp_parse(s) == (Seq::<Msg>::empty(), s, true));
                assert(msgs_of(list@) + Seq::<Msg>::empty() =~= msgs_of(list@));
            }
            cont = false;
            continue;
        }
        let flen: usize = 4 + (l as usize);
        let head = Header { len: l, byte: tag };
        let m: Message = if tag == CHOKE {
            Message::Choke(head)
        } else if tag == UNCHOKE {
            Message::Unchoke(head)
        } else if tag == INTEREST {
            Message::Interest(head)
        } else if tag == UNINTEREST {
            Message::Uninterest(head)
        } else if tag == HAVE {
            Message::Have(Have { head, index: parse_u32(msg, p + 5) })
        } else if tag == BITFIELD {
            Message::Bitfield(Bitfield { head, data: copy_range(msg, p + 5, p + flen) })
        } else if tag == REQUEST {
            Message::Request(Request {
                head,
                index: parse_u32(msg, p + 5),
                offset: parse_u32(msg, p + 9),
                plen: parse_u32(msg, p + 13),
            })
        } else if tag == PIECE {
            Message::Piece(Piece {
                head,
                index: parse_u32(msg, p + 5),
                offset: parse_u32(msg, p + 9),
                data: copy_range(msg, p + 13, p + flen),
            })
        } else {
            Message::Cancel(Cancel {
                head,
                index: parse_u32(msg, p + 5),
                offset: parse_u32(msg, p + 9),
                plen: parse_u32(msg, p + 13),
            })
        };
        proof {
            if l >= 5 {
                assert(s.subrange(5, 9) =~= orig.subrange(p + 5int, p + 9int));
            }
            if l >= 9 {
                assert(s.subrange(9, 13) =~= orig.subrange(p + 9int, p + 13int));
                assert(s.subrange(13, 4 + l as int)
                    =~= orig.subrange(p + 13int, p + flen as int));
            }
            if l >= 13 {
                assert(s.subrange(13, 17) =~= orig.subrange(p + 13int, p + 17int));
            }
            assert(s.subrange(5, 4 + l as int) =~= orig.subrange(p + 5int, p + flen as int));
            assert(mview(m) == mk_msg(tag, l as int, s));
            assert(s.skip(4 + l as int) =~= orig.skip(p + flen as int));
            assert(sp_parse(s) == (
                seq![mview(m)] + sp_parse(s.skip(4 + l as int)).0,
                sp_parse(s.skip(4 + l as int)).1,
                sp_parse(s.skip(4 + l as int)).2,
            ));
            assert(msgs_of(list@.push(m)) =~= msgs_of(list@).push(mview(m)));
            assert(msgs_of(list@).push(mview(m)) + sp_parse(s.skip(4 + l as int)).0
                =~= msgs_of(list@) + (seq![mview(m)] + sp_parse(s.skip(4 + l as int)).0));
        }
        list.push(m);
        p += flen;
    }
    drop_prefix(msg, p);
    (ok, list)
}

/// Is the whole buffer one run of complete, valid frames?
pub fn try_parse(original: &Vec<u8>) -> (r: bool)
    ensures
        r == (original@.len() > 0 && wf_stream(original@)),
{
    if original.len() == 0 {
        return false;
    }
    let mut copy = copy_range(original, 0, original.len());
    proof {
        assert(copy@ =~= original@);
    }
    let (ok, _list) = partial_parse(&mut copy);
    ok && copy.len() == 0
}

/// Parses a buffer known to be a whole run of complete, valid frames.
pub fn parse_msg(msg: &mut Vec<u8>) -> (r: Vec<Message>)
    requires
        wf_stream(old(msg)@),
    ensures
        msgs_of(r@) == sp_parse(old(msg)@).0,
        final(msg)@.len() == 0,
{
    let (_ok, list) = partial_parse(msg);
    list
}

impl Handshake {
    /// The fixed fields carry the protocol literal.
    pub fn test(&self) -> (r: bool)
        ensures
            r == (self.len == 19 && self.protocol@ == protocol_str()),
    {
        if self.len != 19 {
            return false;
        }
        let proto = protocol_bytes();
        crate::bencode::bytes_eq(&self.protocol, &proto)
    }

}

impl Default for Handshake {
    /// A handshake with the protocol literal and all-zero hashes.
    fn default() -> (r: Handshake)
        ensures
            r.len == 19,
            r.protocol@ == protocol_str(),
            r.reserved@ == seq![0u8; 8],
            r.info_hash@ == seq![0u8; 20],
            r.peer_id@ == seq![0u8; 20],
    {
        let mut reserved: Vec<u8> = Vec::new();
        let mut k: usize = 0;
        while k < 8
            invariant
                k <= 8,
                reserved@ =~= Seq::new(k as nat, |i: int| 0u8),
            decreases 8 - k,
        {
            reserved.push(0);
            proof {
                assert(reserved@ =~= Seq::new((k + 1) as nat, |i: int| 0u8));
            }
            k += 1;
        }
        let mut info_hash: Vec<u8> = Vec::new();
        let mut peer_id: Vec<u8> = Vec::new();
        let mut j: usize = 0;
        while j < 20
            invariant
                j <= 20,
                info_hash@ =~= Seq::new(j as nat, |i: int| 0u8),
                peer_id@ =~= Seq::new(j as nat, |i: int| 0u8),
            decreases 20 - j,
        {
            info_hash.push(0);
            peer_id.push(0);
            proof {
                assert(info_hash@ =~= Seq::new((j + 1) as nat, |i: int| 0u8));
                assert(peer_id@ =~= Seq::new((j + 1) as nat, |i: int| 0u8));
            }
            j += 1;
        }
        Handshake { len: 19, protocol: protocol_bytes(), reserved, info_hash, peer_id }
    }
}

impl Handshake {
    /// Takes a handshake off the head of the buffer.
    pub fn parse(msg: &mut Vec<u8>) -> (r: Option<Handshake>)
        ensures
            match r {
                Some(h) => old(msg)@.len() >= 68 && hs_valid(old(msg)@)
                    && h.len == 19
                    && h.protocol@ == protocol_str()
                    && h.reserved@ == old(msg)@.subrange(20, 28)
                    && h.info_hash@ == old(msg)@.subrange(28, 48)
                    && h.peer_id@ == old(msg)@.subrange(48, 68)
                    && final(msg)@ == old(msg)@.skip(68),
                None => final(msg)@ == old(msg)@
                    && !(old(msg)@.len() >= 68 && hs_valid(old(msg)@)),
            },
    {
        if msg.len() < 68 {
            return None;
        }
        if msg[0] != 19 {
            return None;
        }
        let proto = protocol_bytes();
        let mut k: usize = 0;
        while k < 19
            invariant
                k <= 19,
                msg@.len() >= 68,
                proto@ == protocol_str(),
                forall|j: int| 0 <= j < k ==> msg@[1 + j] == #[trigger] protocol_str()[j],
            decreases 19 - k,
        {
            if msg[1 + k] != proto[k] {
                proof {
                    assert(msg@.subrange(1, 20)[k as int] == msg@[1 + k as int]);
                }
                return None;
            }
            k += 1;
        }
        proof {
            assert(msg@.subrange(1, 20) =~= protocol_str());
        }
        let h = Handshake {
            len: msg[0],
            protocol: proto,
            reserved: copy_range(msg, 20, 28),
            info_hash: copy_range(msg, 28, 48),
            peer_id: copy_range(msg, 48, 68),
        };
        drop_prefix(msg, 68);
        Some(h)
    }

    /// The sixty-eight on-wire bytes of this handshake.
    pub fn as_bytes(&self) -> (r: Vec<u8>)
        ensures
            r@ == seq![self.len] + self.protocol@ + self.reserved@ + self.info_hash@
                + self.peer_id@,
            self.len == 19 && self.protocol@ == protocol_str()
                && self.reserved@ == seq![0u8; 8]
                ==> r@ == frame(Msg::Handshake {
                    info_hash: self.info_hash@,
                    peer_id: self.peer_id@,
                }),
    {
        let mut out: Vec<u8> = Vec::new();
        out.push(self.len);
        let mut k: usize = 0;
        while k < self.protocol.len()
            invariant
                k <= self.protocol@.len(),
                out@ == seq![self.len] + self.protocol@.take(k as int),
            decreases self.protocol@.len() - k,
        {
            out.push(self.protocol[k]);
            proof {
                assert(out@ =~= seq![self.len] + self.protocol@.take(k + 1int));
            }
            k += 1;
        }
        proof {
            assert(self.protocol@.take(self.protocol@.len() as int) =~= self.protocol@);
        }
        let ghost base1 = out@;
        let mut k2: usize = 0;
        while k2 < self.reserved.len()
            invariant
                k2 <= self.reserved@.len(),
                out@ == base1 + self.reserved@.take(k2 as int),
            decreases self.reserved@.len() - k2,
        {
            out.push(self.reserved[k2]);
            proof {
                assert(out@ =~= base1 + self.reserved@.take(k2 + 1int));
            }
            k2 += 1;
        }
        proof {
            assert(self.reserved@.take(self.reserved@.len() as int) =~= self.reserved@);
        }
        let ghost base2 = out@;
        let mut k3: usize = 0;
        while k3 < self.info_hash.len()
            invariant
                k3 <= self.info_hash@.len(),
                out@ == base2 + self.info_hash@.take(k3 as int),
            decreases self.info_hash@.len() - k3,
        {
            out.push(self.info_hash[k3]);
            proof {
                assert(out@ =~= base2 + self.info_hash@.take(k3 + 1int));
            }
            k3 += 1;
        }
        proof {
            assert(self.info_hash@.take(self.info_hash@.len() as int) =~= self.info_hash@);
        }
        let ghost base3 = out@;
        let mut k4: usize = 0;
        while k4 < self.peer_id.len()
            invariant
                k4 <= self.peer_id@.len(),
                out@ == base3 + self.peer_id@.take(k4 as int),
            decreases self.peer_id@.len() - k4,
        {
            out.push(self.peer_id[k4]);
            proof {
                assert(out@ =~= base3 + self.peer_id@.take(k4 + 1int));
            }
            k4 += 1;
        }
        proof {
            assert(self.peer_id@.take(self.peer_id@.len() as int) =~= self.peer_id@);
            assert(out@ =~= seq![self.len] + self.protocol@ + self.reserved@ + self.info_hash@
                + self.peer_id@);
        }
        out
    }
}

impl Header {
    /// The tag is one this codec knows.
    pub fn test(&self) -> (r: bool)
        ensures
            r == (self.byte <= CANCEL || self.byte == HANDSHAKE),
    {
        self.byte <= CANCEL || self.byte == HANDSHAKE
    }

    /// Reads a frame header without consuming it.
    pub fn parse(msg: &Vec<u8>) -> (r: Option<Header>)
        ensures
            match r {
                Some(h) => msg@.len() >= 5
                    && h.len as int == u32_of_be(msg@.subrange(0, 4))
                    && h.byte == msg@[4]
                    && (h.byte <= CANCEL || h.byte == HANDSHAKE),
                None => !(msg@.len() >= 5
                    && (msg@[4] <= CANCEL || msg@[4] == HANDSHAKE)),
            },
    {
        if msg.len() < 5 {
            return None;
        }
        let head = Header { len: parse_u32(msg, 0), byte: msg[4] };
        if head.test() {
            Some(head)
        } else {
            None
        }
    }

    /// The five on-wire bytes: length big-endian, then the tag.
    pub fn as_bytes(&self) -> (r: Vec<u8>)
        ensures
            r@ == be32s(self.len as int) + seq![self.byte],
    {
        let mut out: Vec<u8> = Vec::new();
        push_be32(&mut out, self.len);
        out.push(self.byte);
        proof {
            assert(out@ =~= be32s(self.len as int) + seq![self.byte]);
        }
        out
    }
}

impl Have {
    /// The header announces a HAVE frame.
    pub fn test(&self) -> (r: bool)
        ensures
            r == (self.head.len == 5 && self.head.byte == HAVE),
    {
        self.head.len == 5 && self.head.byte == HAVE
    }

    /// Takes a HAVE frame off the head of the buffer.
    pub fn parse(msg: &mut Vec<u8>) -> (r: Option<Have>)
        ensures
            match r {
                Some(h) => old(msg)@.len() >= 9
                    && u32_of_be(old(msg)@.subrange(0, 4)) == 5
                    && old(msg)@[4] == HAVE
                    && h.index as int == u32_of_be(old(msg)@.subrange(5, 9))
                    && final(msg)@ == old(msg)@.skip(9),
                None => final(msg)@ == old(msg)@
                    && !(old(msg)@.len() >= 9
                        && u32_of_be(old(msg)@.subrange(0, 4)) == 5
                        && old(msg)@[4] == HAVE),
            },
    {
        if msg.len() < 9 {
            return None;
        }
        let l = parse_u32(msg, 0);
        if l != 5 || msg[4] != HAVE {
            return None;
        }
        let have = Have { head: Header { len: l, byte: HAVE }, index: parse_u32(msg, 5) };
        drop_prefix(msg, 9);
        Some(have)
    }
}

impl Bitfield {
    /// The header and payload agree on the BITFIELD shape.
    pub fn test(&self) -> (r: bool)
        ensures
            r == (self.head.byte == BITFIELD && self.head.len as int == self.data@.len() + 1),
    {
        self.head.byte == BITFIELD && self.head.len >= 1 && (self.head.len - 1) as usize == self.data.len()
    }

    /// Takes a BITFIELD frame off the head of the buffer.
    pub fn parse(msg: &mut Vec<u8>) -> (r: Option<Bitfield>)
        ensures
            match r {
                Some(b) => ({
                    let l = u32_of_be(old(msg)@.subrange(0, 4));
                    &&& old(msg)@.len() >= 5
                    &&& old(msg)@[4] == BITFIELD
                    &&& l >= 1
                    &&& old(msg)@.len() >= 4 + l
                    &&& b.data@ == old(msg)@.subrange(5, 4 + l)
                    &&& final(msg)@ == old(msg)@.skip(4 + l)
                }),
                None => final(msg)@ == old(msg)@
                    && !({
                        let l = u32_of_be(old(msg)@.subrange(0, 4));
                        old(msg)@.len() >= 5 && old(msg)@[4] == BITFIELD && l >= 1
                            && old(msg)@.len() >= 4 + l
                    }),
            },
    {
        if msg.len() < 5 {
            return None;
        }
        let l = parse_u32(msg, 0);
        if msg[4] != BITFIELD || l == 0 {
            return None;
        }
        if ((msg.len() - 4) as u64) < l as u64 {
            return None;
        }
        let flen: usize = 4 + l as usize;
        let bf = Bitfield {
            head: Header { len: l, byte: BITFIELD },
            data: copy_range(msg, 5, flen),
        };
        drop_prefix(msg, flen);
        Some(bf)
    }
}

impl Request {
    /// The header announces a REQUEST frame.
    pub fn test(&self) -> (r: bool)
        ensures
            r == (self.head.len == 13 && self.head.byte == REQUEST),
    {
        self.head.len == 13 && self.head.byte == REQUEST
    }

    /// Takes a REQUEST frame off the head of the buffer.
    pub fn parse(msg: &mut Vec<u8>) -> (r: Option<Request>)
        ensures
            match r {
                Some(q) => old(msg)@.len() >= 17
                    && u32_of_be(old(msg)@.subrange(0, 4)) == 13
                    && old(msg)@[4] == REQUEST
                    && q.index as int == u32_of_be(old(msg)@.subrange(5, 9))
                    && q.offset as int == u32_of_be(old(msg)@.subrange(9, 13))
                    && q.plen as int == u32_of_be(old(msg)@.subrange(13, 17))
                    && final(msg)@ == old(msg)@.skip(17),
                None => final(msg)@ == old(msg)@
                    && !(old(msg)@.len() >= 17
                        && u32_of_be(old(msg)@.subrange(0, 4)) == 13
                        && old(msg)@[4] == REQUEST),
            },
    {
        if msg.len() < 17 {
            return None;
        }
        let l = parse_u32(msg, 0);
        if l != 13 || msg[4] != REQUEST {
            return None;
        }
        let q = Request {
            head: Header { len: l, byte: REQUEST },
            index: parse_u32(msg, 5),
            offset: parse_u32(msg, 9),
            plen: parse_u32(msg, 13),
        };
        drop_prefix(msg, 17);
        Some(q)
    }

    /// The seventeen on-wire bytes of this request.
    pub fn as_bytes(&self) -> (r: Vec<u8>)
        ensures
            r@ == be32s(self.head.len as int) + seq![self.head.byte]
                + be32s(self.index as int) + be32s(self.offset as int)
                + be32s(self.plen as int),
            self.head.len == 13 && self.head.byte == REQUEST
                ==> r@ == frame(Msg::Request {
                    index: self.index,
                    offset: self.offset,
                    plen: self.plen,
                }),
    {
        let mut out = self.head.as_bytes();
        push_be32(&mut out, self.index);
        push_be32(&mut out, self.offset);
        push_be32(&mut out, self.plen);
        proof {
            assert(out@ =~= be32s(self.head.len as int) + seq![self.head.byte]
                + be32s(self.index as int) + be32s(self.offset as int)
                + be32s(self.plen as int));
        }
        out
    }
}

impl Piece {
    /// The header and payload agree on the PIECE shape.
    pub fn test(&self) -> (r: bool)
        ensures
            r == (self.head.byte == PIECE && self.head.len as int == self.data@.len() + 9),
    {
        self.head.byte == PIECE && self.head.len >= 9 && (self.head.len - 9) as usize == self.data.len()
    }

    /// Takes a PIECE frame off the head of the buffer.
    pub fn parse(msg: &mut Vec<u8>) -> (r: Option<Piece>)
        ensures
            match r {
                Some(pc) => ({
                    let l = u32_of_be(old(msg)@.subrange(0, 4));
                    &&& old(msg)@.len() >= 5
                    &&& old(msg)@[4] == PIECE
                    &&& l >= 9
                    &&& old(msg)@.len() >= 4 + l
                    &&& pc.index as int == u32_of_be(old(msg)@.subrange(5, 9))
                    &&& pc.offset as int == u32_of_be(old(msg)@.subrange(9, 13))
                    &&& pc.data@ == old(msg)@.subrange(13, 4 + l)
                    &&& final(msg)@ == old(msg)@.skip(4 + l)
                }),
                None => final(msg)@ == old(msg)@
                    && !({
                        let l = u32_of_be(old(msg)@.subrange(0, 4));
                        old(msg)@.len() >= 5 && old(msg)@[4] == PIECE && l >= 9
                            && old(msg)@.len() >= 4 + l
                    }),
            },
    {
        if msg.len() < 5 {
            return None;
        }
        let l = parse_u32(msg, 0);
        if msg[4] != PIECE || l < 9 {
            return None;
        }
        if ((msg.len() - 4) as u64) < l as u64 {
            return None;
        }
        let flen: usize = 4 + l as usize;
        let pc = Piece {
            head: Header { len: l, byte: PIECE },
            index: parse_u32(msg, 5),
            offset: parse_u32(msg, 9),
            data: copy_range(msg, 13, flen),
        };
        drop_prefix(msg, flen);
        Some(pc)
    }

    /// The on-wire bytes of this piece frame.
    pub fn as_bytes(&self) -> (r: Vec<u8>)
        ensures
            r@ == be32s(self.head.len as int) + seq![self.head.byte]
                + be32s(self.index as int) + be32s(self.offset as int) + self.data@,
            self.head.byte == PIECE && self.head.len as int == self.data@.len() + 9
                ==> r@ == frame(Msg::Piece {
                    index: self.index,
                    offset: self.offset,
                    data: self.data@,
                }),
    {
        let mut out = self.head.as_bytes();
        push_be32(&mut out, self.index);
        push_be32(&mut out, self.offset);
        let ghost base = out@;
        let mut k: usize = 0;
        while k < self.data.len()
            invariant
                k <= self.data@.len(),
                out@ == base + self.data@.take(k as int),
            decreases self.data@.len() - k,
        {
            out.push(self.data[k]);
            proof {
                assert(out@ =~= base + self.data@.take(k + 1int));
            }
            k += 1;
        }
        proof {
            assert(self.data@.take(self.data@.len() as int) =~= self.data@);
            assert(out@ =~= be32s(self.head.len as int) + seq![self.head.byte]
                + be32s(self.index as int) + be32s(self.offset as int) + self.data@);
        }
        out
    }
}

impl Cancel {
    /// The header announces a CANCEL frame.
    pub fn test(&self) -> (r: bool)
        ensures
            r == (self.head.len == 13 && self.head.byte == CANCEL),
    {
        self.head.len == 13 && self.head.byte == CANCEL
    }

    /// Takes a CANCEL frame off the head of the buffer.
    pub fn parse(msg: &mut Vec<u8>) -> (r: Option<Cancel>)
        ensures
            match r {
                Some(c) => old(msg)@.len() >= 17
                    && u32_of_be(old(msg)@.subrange(0, 4)) == 13
                    && old(msg)@[4] == CANCEL
                    && c.index as int == u32_of_be(old(msg)@.subrange(5, 9))
                    && c.offset as int == u32_of_be(old(msg)@.subrange(9, 13))
                    && c.plen as int == u32_of_be(old(msg)@.subrange(13, 17))
                    && final(msg)@ == old(msg)@.skip(17),
                None => final(msg)@ == old(msg)@
                    && !(old(msg)@.len() >= 17
                        && u32_of_be(old(msg)@.subrange(0, 4)) == 13
                        && old(msg)@[4] == CANCEL),
            },
    {
        if msg.len() < 17 {
            return None;
        }
        let l = parse_u32(msg, 0);
        if l != 13 || msg[4] != CANCEL {
            return None;
        }
        let c = Cancel {
            head: Header { len: l, byte: CANCEL },
            index: parse_u32(msg, 5),
            offset: parse_u32(msg, 9),
            plen: parse_u32(msg, 13),
        };
        drop_prefix(msg, 17);
        Some(c)
    }
}

} // verus!
