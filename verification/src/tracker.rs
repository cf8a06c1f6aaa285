//! Tracker exchanges: the exact bytes of the UDP connect and announce
//! messages, the HTTP announce request, the compact peer list, and the
//! choice of tracker endpoint from the metainfo.

use vstd::prelude::*;
use rand::distributions::{Distribution, Standard};
use crate::bencode::{Item, push_decimal, dec_digits, spec_dict_get};
use crate::msg::{be32s, u32_of_be, push_be32, parse_u32, copy_range};
use crate::torrent::{key_announce, key_announce_vec, key_announce_list,
    key_announce_list_vec, key_peers, key_peers_vec, key_failure_reason,
    key_failure_reason_vec};

verus! {

/// Why a tracker exchange yielded no peers.
#[derive(Debug)]
pub enum TrackerError {
    /// The reply did not have the promised shape.
    Malformed,
    /// The tracker answered with a failure reason, carried here.
    Failure(Vec<u8>),
    /// No usable announce endpoint was named in the metainfo.
    NoTracker,
}

/// One peer endpoint from a tracker reply.
#[derive(Clone, Copy, Debug)]
pub struct IpPort {
    pub ip: u32,
    pub port: u16,
}

/// Number carried by two big-endian bytes.
pub open spec fn u16_of_be(s: Seq<u8>) -> int {
    s[0] * 0x100 + s[1]
}

impl IpPort {
    /// Parses a compact peer list: six bytes per peer, address then port,
    /// both big-endian. A list whose length is no multiple of six counts
    /// as empty.
    pub fn from_bytes(bytes: &Vec<u8>) -> (r: Vec<IpPort>)
        ensures
            bytes@.len() % 6 != 0 ==> r@.len() == 0,
            bytes@.len() % 6 == 0 ==> {
                &&& r@.len() == bytes@.len() as int / 6
                &&& forall|k: int| 0 <= k < r@.len() ==> {
                    let p = #[trigger] r@[k];
                    &&& p.ip as int == u32_of_be(bytes@.subrange(6 * k, 6 * k + 4))
                    &&& p.port as int == u16_of_be(bytes@.subrange(6 * k + 4, 6 * k + 6))
                }
            },
    {
        let mut peers: Vec<IpPort> = Vec::new();
        if bytes.len() % 6 != 0 {
            return peers;
        }
        let n = bytes.len() / 6;
        proof {
            vstd::arithmetic::div_mod::lemma_fundamental_div_mod(bytes@.len() as int, 6);
        }
        let mut k: usize = 0;
        while k < n
            invariant
                k <= n,
                n == bytes@.len() as int / 6,
                bytes@.len() <= usize::MAX,
                6 * n == bytes@.len(),
                peers@.len() == k,
                forall|j: int| 0 <= j < k ==> {
                    let p = #[trigger] peers@[j];
                    &&& p.ip as int == u32_of_be(bytes@.subrange(6 * j, 6 * j + 4))
                    &&& p.port as int == u16_of_be(bytes@.subrange(6 * j + 4, 6 * j + 6))
                },
            decreases n - k,
        {
            let ip = parse_u32(bytes, 6 * k);
            let port: u16 = (bytes[6 * k + 4] as u16) * 0x100 + (bytes[6 * k + 5] as u16);
            proof {
                let s4 = bytes@.subrange(6 * k as int, 6 * k + 4int);
                let s2 = bytes@.subrange(6 * k + 4int, 6 * k + 6int);
                assert(s2[0] == bytes@[6 * k + 4int] && s2[1] == bytes@[6 * k + 5int]);
            }
            peers.push(IpPort { ip, port });
            k += 1;
        }
        peers
    }
}

/// Eight big-endian bytes of a number below two to the sixty-fourth.
pub open spec fn be64s(n: int) -> Seq<u8> {
    seq![
        (n / 0x100_0000_0000_0000 % 0x100) as u8,
        (n / 0x1_0000_0000_0000 % 0x100) as u8,
        (n / 0x100_0000_0000 % 0x100) as u8,
        (n / 0x1_0000_0000 % 0x100) as u8,
        (n / 0x100_0000 % 0x100) as u8,
        (n / 0x1_0000 % 0x100) as u8,
        (n / 0x100 % 0x100) as u8,
        (n % 0x100) as u8,
    ]
}

/// Number carried by eight big-endian bytes.
pub open spec fn u64_of_be(s: Seq<u8>) -> int {
    s[0] * 0x100_0000_0000_0000 + s[1] * 0x1_0000_0000_0000 + s[2] * 0x100_0000_0000
        + s[3] * 0x1_0000_0000 + s[4] * 0x100_0000 + s[5] * 0x1_0000 + s[6] * 0x100 + s[7]
}

/// Appends the eight big-endian bytes of `n`.
pub fn push_be64(out: &mut Vec<u8>, n: u64)
    ensures
        final(out)@ == old(out)@ + be64s(n as int),
{
    out.push((n / 0x100_0000_0000_0000 % 0x100) as u8);
    out.push((n / 0x1_0000_0000_0000 % 0x100) as u8);
    out.push((n / 0x100_0000_0000 % 0x100) as u8);
    out.push((n / 0x1_0000_0000 % 0x100) as u8);
    out.push((n / 0x100_0000 % 0x100) as u8);
    out.push((n / 0x1_0000 % 0x100) as u8);
    out.push((n / 0x100 % 0x100) as u8);
    out.push((n % 0x100) as u8);
    proof {
        assert(out@ =~= old(out)@ + be64s(n as int));
    }
}

/// Reads a big-endian 64-bit number at `pos`.
pub fn parse_u64(buf: &Vec<u8>, pos: usize) -> (r: u64)
    requires
        pos + 8 <= buf@.len(),
    ensures
        r as int == u64_of_be(buf@.subrange(pos as int, pos + 8int)),
{
    let n = buf.len();
    proof {
        assert(pos + 8 <= n);
    }
    let r = (buf[pos] as u64) * 0x100_0000_0000_0000
        + (buf[pos + 1] as u64) * 0x1_0000_0000_0000
        + (buf[pos + 2] as u64) * 0x100_0000_0000
        + (buf[pos + 3] as u64) * 0x1_0000_0000
        + (buf[pos + 4] as u64) * 0x100_0000
        + (buf[pos + 5] as u64) * 0x1_0000
        + (buf[pos + 6] as u64) * 0x100
        + (buf[pos + 7] as u64);
    proof {
        let s = buf@.subrange(pos as int, pos + 8int);
        assert(forall|j: int| 0 <= j < 8 ==> s[j] == buf@[pos + j]);
    }
    r
}

/// The protocol magic that opens a UDP tracker connect request.
pub open spec fn udp_magic() -> int {
    0x41727101980
}

/// The sixteen bytes of a connect request with the given transaction id.
pub open spec fn connect_req_bytes(tid: int) -> Seq<u8> {
    be64s(udp_magic()) + be32s(0) + be32s(tid)
}

/// Relies on rand::random: a value drawn from the thread-local generator;
/// nothing is promised of it. The generator's first use on a thread can
/// abort when the system's entropy source is unavailable — an
/// environmental condition no precondition can exclude.
pub assume_specification<T>[ rand::random::<T> ]() -> (r: T)
    where Standard: Distribution<T>,
;

/// A fresh transaction id for one tracker exchange.
pub fn fresh_transaction_id() -> u32 {
    rand::random::<u32>()
}

/// Builds a connect request around a fresh transaction id and returns
/// both.
pub fn connect_request() -> (r: (Vec<u8>, u32))
    ensures
        r.0@ == connect_req_bytes(r.1 as int),
{
    let tid = fresh_transaction_id();
    let mut out: Vec<u8> = Vec::new();
    push_be64(&mut out, 0x41727101980u64);
    push_be32(&mut out, 0);
    push_be32(&mut out, tid);
    proof {
        assert(out@ =~= connect_req_bytes(tid as int));
    }
    (out, tid)
}

/// Reads a connect response: accepted exactly when it has sixteen bytes,
/// the connect action, and the transaction id of the request; the
/// connection id is returned.
pub fn parse_connect_resp(buf: &Vec<u8>, tid: u32) -> (r: Option<u64>)
    ensures
        (r is Some) == (buf@.len() >= 16
            && u32_of_be(buf@.subrange(0, 4)) == 0
            && u32_of_be(buf@.subrange(4, 8)) == tid as int),
        r is Some ==> r->Some_0 as int == u64_of_be(buf@.subrange(8, 16)),
{
    if buf.len() < 16 {
        return None;
    }
    let action = parse_u32(buf, 0);
    let rtid = parse_u32(buf, 4);
    if action != 0 || rtid != tid {
        return None;
    }
    Some(parse_u64(buf, 8))
}

/// The ninety-eight bytes of an announce request: connection id, the
/// announce action, the transaction id, both hashes, the counters, the
/// key, how many peers are wanted, and the listening port.
pub open spec fn announce_req_bytes(
    conn_id: int,
    tid: int,
    info_hash: Seq<u8>,
    peer_id: Seq<u8>,
    left: int,
    key: int,
    num_want: int,
    port: int,
) -> Seq<u8> {
    be64s(conn_id) + be32s(1) + be32s(tid) + info_hash + peer_id + be64s(0) + be64s(left)
        + be64s(0) + be32s(0) + be32s(0) + be32s(key) + be32s(num_want)
        + seq![(port / 0x100 % 0x100) as u8, (port % 0x100) as u8]
}

/// Builds an announce request.
pub fn announce_request(
    conn_id: u64,
    tid: u32,
    info_hash: &Vec<u8>,
    peer_id: &Vec<u8>,
    left: u64,
    key: u32,
    num_want: u32,
    port: u16,
) -> (r: Vec<u8>)
    requires
        info_hash@.len() == 20,
        peer_id@.len() == 20,
    ensures
        r@ == announce_req_bytes(conn_id as int, tid as int, info_hash@, peer_id@,
            left as int, key as int, num_want as int, port as int),
        r@.len() == 98,
{
    let mut out: Vec<u8> = Vec::new();
    push_be64(&mut out, conn_id);
    push_be32(&mut out, 1);
    push_be32(&mut out, tid);
    let mut k: usize = 0;
    let ghost base0 = out@;
    while k < 20
        invariant
            k <= 20,
            info_hash@.len() == 20,
            out@ == base0 + info_hash@.take(k as int),
        decreases 20 - k,
    {
        out.push(info_hash[k]);
        proof {
            assert(out@ =~= base0 + info_hash@.take(k + 1int));
        }
        k += 1;
    }
    proof {
        assert(info_hash@.take(20) =~= info_hash@);
    }
    let ghost base1 = out@;
    let mut k2: usize = 0;
    while k2 < 20
        invariant
            k2 <= 20,
            peer_id@.len() == 20,
            out@ == base1 + peer_id@.take(k2 as int),
        decreases 20 - k2,
    {
        out.push(peer_id[k2]);
        proof {
            assert(out@ =~= base1 + peer_id@.take(k2 + 1int));
        }
        k2 += 1;
    }
    proof {
        assert(peer_id@.take(20) =~= peer_id@);
    }
    push_be64(&mut out, 0);
    push_be64(&mut out, left);
    push_be64(&mut out, 0);
    push_be32(&mut out, 0);
    push_be32(&mut out, 0);
    push_be32(&mut out, key);
    push_be32(&mut out, num_want);
    out.push((port / 0x100) as u8);
    out.push((port % 0x100) as u8);
    proof {
        assert(out@ =~= announce_req_bytes(conn_id as int, tid as int, info_hash@, peer_id@,
            left as int, key as int, num_want as int, port as int));
    }
    out
}

/// Reads an announce response: accepted exactly when it has the announce
/// action and the right transaction id in a twenty-byte header; the peers
/// are as many whole six-byte pairs as the datagram affords.
pub fn parse_announce_resp(buf: &Vec<u8>, tid: u32) -> (r: Option<(u32, u32, u32, Vec<IpPort>)>)
    ensures
        (r is Some) == (buf@.len() >= 20
            && u32_of_be(buf@.subrange(0, 4)) == 1
            && u32_of_be(buf@.subrange(4, 8)) == tid as int),
        r is Some ==> {
            &&& r->Some_0.0 as int == u32_of_be(buf@.subrange(8, 12))
            &&& r->Some_0.1 as int == u32_of_be(buf@.subrange(12, 16))
            &&& r->Some_0.2 as int == u32_of_be(buf@.subrange(16, 20))
            &&& r->Some_0.3@.len() == ((buf@.len() - 20) as int) / 6
            &&& forall|k: int| 0 <= k < r->Some_0.3@.len() ==> {
                let p = #[trigger] r->Some_0.3@[k];
                &&& p.ip as int == u32_of_be(buf@.subrange(20 + 6 * k, 20 + 6 * k + 4))
                &&& p.port as int == u16_of_be(buf@.subrange(20 + 6 * k + 4, 20 + 6 * k + 6))
            }
        },
{
    if buf.len() < 20 {
        return None;
    }
    let action = parse_u32(buf, 0);
    let rtid = parse_u32(buf, 4);
    if action != 1 || rtid != tid {
        return None;
    }
    let interval = parse_u32(buf, 8);
    let leechers = parse_u32(buf, 12);
    let seeders = parse_u32(buf, 16);
    let navail = (buf.len() - 20) / 6;
    proof {
        vstd::arithmetic::div_mod::lemma_fundamental_div_mod(buf@.len() - 20, 6);
    }
    let mut peers: Vec<IpPort> = Vec::new();
    let mut k: usize = 0;
    while k < navail
        invariant
            k <= navail,
            buf@.len() >= 20,
            buf@.len() <= usize::MAX,
            navail == ((buf@.len() - 20) as int) / 6,
            20 + 6 * navail <= buf@.len(),
            peers@.len() == k,
            forall|j: int| 0 <= j < k ==> {
                let p = #[trigger] peers@[j];
                &&& p.ip as int == u32_of_be(buf@.subrange(20 + 6 * j, 20 + 6 * j + 4))
                &&& p.port as int == u16_of_be(buf@.subrange(20 + 6 * j + 4, 20 + 6 * j + 6))
            },
        decreases navail - k,
    {
        let off = 20 + 6 * k;
        let ip = parse_u32(buf, off);
        let port: u16 = (buf[off + 4] as u16) * 0x100 + (buf[off + 5] as u16);
        proof {
            let s2 = buf@.subrange(off + 4int, off + 6int);
            assert(s2[0] == buf@[off + 4int] && s2[1] == buf@[off + 5int]);
        }
        peers.push(IpPort { ip, port });
        k += 1;
    }
    Some((interval, leechers, seeders, peers))
}

/// The literal request piece `get_prefix`.
pub open spec fn lit_get_prefix() -> Seq<u8> {
    seq![71u8, 69u8, 84u8, 32u8, 47u8, 97u8, 110u8, 110u8, 111u8, 117u8, 110u8, 99u8, 101u8, 63u8, 105u8, 110u8, 102u8, 111u8, 95u8, 104u8, 97u8, 115u8, 104u8, 61u8]
}

/// Appends that literal piece.
fn push_get_prefix(out: &mut Vec<u8>)
    ensures
        final(out)@ == old(out)@ + lit_get_prefix(),
{
    out.push(71);
    out.push(69);
    out.push(84);
    out.push(32);
    out.push(47);
    out.push(97);
    out.push(110);
    out.push(110);
    out.push(111);
    out.push(117);
    out.push(110);
    out.push(99);
    out.push(101);
    out.push(63);
    out.push(105);
    out.push(110);
    out.push(102);
    out.push(111);
    out.push(95);
    out.push(104);
    out.push(97);
    out.push(115);
    out.push(104);
    out.push(61);
    proof {
        assert(out@ =~= old(out)@ + lit_get_prefix());
    }
}

/// The literal request piece `amp_peer_id`.
pub open spec fn lit_amp_peer_id() -> Seq<u8> {
    seq![38u8, 112u8, 101u8, 101u8, 114u8, 95u8, 105u8, 100u8, 61u8]
}

/// Appends that literal piece.
fn push_amp_peer_id(out: &mut Vec<u8>)
    ensures
        final(out)@ == old(out)@ + lit_amp_peer_id(),
{
    out.push(38);
    out.push(112);
    out.push(101);
    out.push(101);
    out.push(114);
    out.push(95);
    out.push(105);
    out.push(100);
    out.push(61);
    proof {
        assert(out@ =~= old(out)@ + lit_amp_peer_id());
    }
}

/// The literal request piece `amp_port`.
pub open spec fn lit_amp_port() -> Seq<u8> {
    seq![38u8, 112u8, 111u8, 114u8, 116u8, 61u8]
}

/// Appends that literal piece.
fn push_amp_port(out: &mut Vec<u8>)
    ensures
        final(out)@ == old(out)@ + lit_amp_port(),
{
    out.push(38);
    out.push(112);
    out.push(111);
    out.push(114);
    out.push(116);
    out.push(61);
    proof {
        assert(out@ =~= old(out)@ + lit_amp_port());
    }
}

/// The literal request piece `amp_fixed`.
pub open spec fn lit_amp_fixed() -> Seq<u8> {
    seq![38u8, 117u8, 112u8, 108u8, 111u8, 97u8, 100u8, 101u8, 100u8, 61u8, 48u8, 38u8, 100u8, 111u8, 119u8, 110u8, 108u8, 111u8, 97u8, 100u8, 101u8, 100u8, 61u8, 48u8, 38u8, 108u8, 101u8, 102u8, 116u8, 61u8]
}

/// Appends that literal piece.
fn push_amp_fixed(out: &mut Vec<u8>)
    ensures
        final(out)@ == old(out)@ + lit_amp_fixed(),
{
    out.push(38);
    out.push(117);
    out.push(112);
    out.push(108);
    out.push(111);
    out.push(97);
    out.push(100);
    out.push(101);
    out.push(100);
    out.push(61);
    out.push(48);
    out.push(38);
    out.push(100);
    out.push(111);
    out.push(119);
    out.push(110);
    out.push(108);
    out.push(111);
    out.push(97);
    out.push(100);
    out.push(101);
    out.push(100);
    out.push(61);
    out.push(48);
    out.push(38);
    out.push(108);
    out.push(101);
    out.push(102);
    out.push(116);
    out.push(61);
    proof {
        assert(out@ =~= old(out)@ + lit_amp_fixed());
    }
}

/// The literal request piece `amp_compact`.
pub open spec fn lit_amp_compact() -> Seq<u8> {
    seq![38u8, 99u8, 111u8, 109u8, 112u8, 97u8, 99u8, 116u8, 61u8, 49u8, 38u8, 110u8, 117u8, 109u8, 119u8, 97u8, 110u8, 116u8, 61u8]
}

/// Appends that literal piece.
fn push_amp_compact(out: &mut Vec<u8>)
    ensures
        final(out)@ == old(out)@ + lit_amp_compact(),
{
    out.push(38);
    out.push(99);
    out.push(111);
    out.push(109);
    out.push(112);
    out.push(97);
    out.push(99);
    out.push(116);
    out.push(61);
    out.push(49);
    out.push(38);
    out.push(110);
    out.push(117);
    out.push(109);
    out.push(119);
    out.push(97);
    out.push(110);
    out.push(116);
    out.push(61);
    proof {
        assert(out@ =~= old(out)@ + lit_amp_compact());
    }
}

/// The literal request piece `amp_event`.
pub open spec fn lit_amp_event() -> Seq<u8> {
    seq![38u8, 101u8, 118u8, 101u8, 110u8, 116u8, 61u8, 115u8, 116u8, 97u8, 114u8, 116u8, 101u8, 100u8, 32u8, 72u8, 84u8, 84u8, 80u8, 47u8, 49u8, 46u8, 49u8, 13u8, 10u8, 13u8, 10u8]
}

/// Appends that literal piece.
fn push_amp_event(out: &mut Vec<u8>)
    ensures
        final(out)@ == old(out)@ + lit_amp_event(),
{
    out.push(38);
    out.push(101);
    out.push(118);
    out.push(101);
    out.push(110);
    out.push(116);
    out.push(61);
    out.push(115);
    out.push(116);
    out.push(97);
    out.push(114);
    out.push(116);
    out.push(101);
    out.push(100);
    out.push(32);
    out.push(72);
    out.push(84);
    out.push(84);
    out.push(80);
    out.push(47);
    out.push(49);
    out.push(46);
    out.push(49);
    out.push(13);
    out.push(10);
    out.push(13);
    out.push(10);
    proof {
        assert(out@ =~= old(out)@ + lit_amp_event());
    }
}

/// Lower-case hexadecimal digit of a value below sixteen.
pub open spec fn hexd(n: int) -> u8 {
    if n < 10 {
        (48 + n) as u8
    } else {
        (87 + n) as u8
    }
}

/// Percent-encoding of raw bytes: `%` and two hex digits for each byte.
pub open spec fn pct_enc(s: Seq<u8>) -> Seq<u8>
    decreases s,
{
    if s.len() == 0 {
        Seq::empty()
    } else {
        pct_enc(s.drop_last()) + seq![37u8, hexd(s.last() as int / 16), hexd(s.last() as int % 16)]
    }
}

/// The whole announce GET request.
pub open spec fn http_get_of(
    info_hash: Seq<u8>,
    peer_id: Seq<u8>,
    port: int,
    left: int,
    numwant: int,
) -> Seq<u8> {
    lit_get_prefix() + pct_enc(info_hash) + lit_amp_peer_id() + peer_id + lit_amp_port()
        + dec_digits(port as nat) + lit_amp_fixed() + dec_digits(left as nat)
        + lit_amp_compact() + dec_digits(numwant as nat) + lit_amp_event()
}

/// Builds the announce GET request: the info hash percent-encoded raw,
/// then peer id, port, the zero counters and what is left, compact form,
/// how many peers are wanted, and the started event.
pub fn http_get_bytes(
    info_hash: &Vec<u8>,
    peer_id: &Vec<u8>,
    port: u16,
    left: u64,
    numwant: u32,
) -> (r: Vec<u8>)
    ensures
        r@ == http_get_of(info_hash@, peer_id@, port as int, left as int, numwant as int),
{
    let mut out: Vec<u8> = Vec::new();
    push_get_prefix(&mut out);
    let ghost base0 = out@;
    let mut k: usize = 0;
    while k < info_hash.len()
        invariant
            k <= info_hash@.len(),
            out@ == base0 + pct_enc(info_hash@.take(k as int)),
        decreases info_hash@.len() - k,
    {
        let b = info_hash[k];
        out.push(37);
        let hi = b / 16;
        let lo = b % 16;
        out.push(if hi < 10 { 48 + hi } else { 87 + hi });
        out.push(if lo < 10 { 48 + lo } else { 87 + lo });
        proof {
            let t = info_hash@.take(k + 1);
            assert(t.drop_last() =~= info_hash@.take(k as int));
            assert(t.last() == info_hash@[k as int]);
            assert(out@ =~= base0 + pct_enc(t));
        }
        k += 1;
    }
    proof {
        assert(info_hash@.take(info_hash@.len() as int) =~= info_hash@);
    }
    push_amp_peer_id(&mut out);
    let ghost base1 = out@;
    let mut k2: usize = 0;
    while k2 < peer_id.len()
        invariant
            k2 <= peer_id@.len(),
            out@ == base1 + peer_id@.take(k2 as int),
        decreases peer_id@.len() - k2,
    {
        out.push(peer_id[k2]);
        proof {
            assert(out@ =~= base1 + peer_id@.take(k2 + 1int));
        }
        k2 += 1;
    }
    proof {
        assert(peer_id@.take(peer_id@.len() as int) =~= peer_id@);
    }
    push_amp_port(&mut out);
    push_decimal(&mut out, port as u64);
    push_amp_fixed(&mut out);
    push_decimal(&mut out, left);
    push_amp_compact(&mut out);
    push_decimal(&mut out, numwant as u64);
    push_amp_event(&mut out);
    proof {
        assert(out@ =~= http_get_of(info_hash@, peer_id@, port as int, left as int,
            numwant as int));
    }
    out
}

/// The blank line that ends an HTTP header.
pub open spec fn crlf2() -> Seq<u8> {
    seq![13u8, 10u8, 13u8, 10u8]
}

/// Position of the first header end at or after `w`, or -1.
pub open spec fn find_hdr_end(s: Seq<u8>, w: int) -> int
    decreases s.len() - w when 0 <= w <= s.len()
{
    if w + 4 > s.len() {
        -1
    } else if s.subrange(w, w + 4) == crlf2() {
        w
    } else {
        find_hdr_end(s, w + 1)
    }
}

/// Cuts the HTTP header off a tracker reply, returning the body after the
/// first blank line; nothing when no blank line is there.
pub fn strip_http_header(buf: &Vec<u8>) -> (r: Option<Vec<u8>>)
    ensures
        (r is Some) == (find_hdr_end(buf@, 0) != -1),
        r is Some ==> r->Some_0@ == buf@.skip(find_hdr_end(buf@, 0) + 4),
{
    let len = buf.len();
    if len < 4 {
        return None;
    }
    let mut w: usize = 0;
    while w <= len - 4
        invariant
            w <= len - 3,
            4 <= len == buf@.len(),
            find_hdr_end(buf@, 0) == find_hdr_end(buf@, w as int),
        decreases len - w,
    {
        if buf[w] == 13 && buf[w + 1] == 10 && buf[w + 2] == 13 && buf[w + 3] == 10 {
            proof {
                assert(buf@.subrange(w as int, w + 4int) =~= crlf2());
                assert(find_hdr_end(buf@, w as int) == w as int);
            }
            return Some(copy_range(buf, w + 4, len));
        }
        proof {
            let sub = buf@.subrange(w as int, w + 4int);
            if sub == crlf2() {
                assert(sub[0] == buf@[w as int]);
                assert(sub[1] == buf@[w + 1int]);
                assert(sub[2] == buf@[w + 2int]);
                assert(sub[3] == buf@[w + 3int]);
                assert(false);
            }
            assert(find_hdr_end(buf@, w as int) == find_hdr_end(buf@, w + 1int));
        }
        w += 1;
    }
    proof {
        assert(find_hdr_end(buf@, w as int) == -1);
    }
    None
}

/// The reply is a dictionary without a failure reason whose `peers` value
/// is a byte string of whole six-byte pairs.
pub open spec fn reply_has_peers(tree: Seq<Item>) -> bool {
    &&& tree.len() > 0
    &&& tree[0] is Dict
    &&& spec_dict_get(tree[0]->Dict_0@, key_failure_reason()) is None
    &&& spec_dict_get(tree[0]->Dict_0@, key_peers()) is Some
    &&& spec_dict_get(tree[0]->Dict_0@, key_peers())->Some_0 is String
    &&& spec_dict_get(tree[0]->Dict_0@, key_peers())->Some_0->String_0@.len() % 6 == 0
}

/// The reply is a dictionary that states a failure reason as a byte string.
pub open spec fn reply_has_failure(tree: Seq<Item>) -> bool {
    &&& tree.len() > 0
    &&& tree[0] is Dict
    &&& spec_dict_get(tree[0]->Dict_0@, key_failure_reason()) is Some
    &&& spec_dict_get(tree[0]->Dict_0@, key_failure_reason())->Some_0 is String
}

/// Pulls the compact peer list out of a parsed tracker reply: a stated
/// failure reason becomes an error carrying it; otherwise the `peers`
/// byte string is read as six-byte pairs; anything else is malformed,
/// and only then.
pub fn peers_from_tree(tree: &Vec<Item>) -> (r: Result<Vec<IpPort>, TrackerError>)
    ensures
        match r {
            Ok(ps) => reply_has_peers(tree@) && ({
                let pv = spec_dict_get(tree@[0]->Dict_0@, key_peers())->Some_0->String_0@;
                ps@.len() == pv.len() as int / 6
                    && forall|k: int| 0 <= k < ps@.len() ==> {
                        let p = #[trigger] ps@[k];
                        &&& p.ip as int == u32_of_be(pv.subrange(6 * k, 6 * k + 4))
                        &&& p.port as int == u16_of_be(pv.subrange(6 * k + 4, 6 * k + 6))
                    }
            }),
            Err(TrackerError::Failure(fr)) => reply_has_failure(tree@)
                && fr@ == spec_dict_get(tree@[0]->Dict_0@, key_failure_reason())
                    ->Some_0->String_0@,
            Err(TrackerError::Malformed) => !reply_has_peers(tree@)
                && !reply_has_failure(tree@),
            Err(TrackerError::NoTracker) => false,
        },
{
    if tree.len() == 0 {
        return Err(TrackerError::Malformed);
    }
    let root = &tree[0];
    match root {
        Item::Dict(_) => {}
        _ => {
            return Err(TrackerError::Malformed);
        }
    }
    let kfail = key_failure_reason_vec();
    match root.dict_get(&kfail) {
        Some(it) => {
            return match it {
                Item::String(s) => Err(TrackerError::Failure(copy_range(s, 0, s.len()))),
                _ => Err(TrackerError::Malformed),
            };
        }
        None => {}
    }
    let kpeers = key_peers_vec();
    match root.dict_get(&kpeers) {
        Some(it) => match it {
            Item::String(pv) => {
                if pv.len() % 6 != 0 {
                    return Err(TrackerError::Malformed);
                }
                Ok(IpPort::from_bytes(pv))
            }
            _ => Err(TrackerError::Malformed),
        },
        None => Err(TrackerError::Malformed),
    }
}

/// Which carrier a tracker endpoint speaks.
pub enum TrackerProto {
    Udp,
    Http,
}

/// A tracker endpoint before resolution: carrier and `host:port` bytes.
pub struct TrackerAddr {
    pub proto: TrackerProto,
    pub hostport: Vec<u8>,
}

/// The scheme prefix `udp://`.
pub open spec fn lit_udp_scheme() -> Seq<u8> {
    seq![117u8, 100u8, 112u8, 58u8, 47u8, 47u8]
}

/// The scheme prefix `http://`.
pub open spec fn lit_http_scheme() -> Seq<u8> {
    seq![104u8, 116u8, 116u8, 112u8, 58u8, 47u8, 47u8]
}

/// `p` opens `s`.
pub open spec fn starts_with(s: Seq<u8>, p: Seq<u8>) -> bool {
    p.len() <= s.len() && s.subrange(0, p.len() as int) == p
}

/// Position of the first `b` at or after `w`, or -1.
pub open spec fn find_byte(s: Seq<u8>, w: int, b: u8) -> int
    decreases s.len() - w when 0 <= w <= s.len()
{
    if w >= s.len() {
        -1
    } else if s[w] == b {
        w
    } else {
        find_byte(s, w + 1, b)
    }
}

/// The `host:port` part of a URL whose scheme takes `sl` bytes: up to the
/// first slash after the scheme, with `:80` appended when no digit ends it.
pub open spec fn hostport_of(url: Seq<u8>, sl: int) -> Seq<u8> {
    let rest = url.skip(sl);
    let cut = find_byte(rest, 0, 47);
    let host = if cut == -1 { rest } else { rest.take(cut) };
    if host.len() > 0 && 48 <= host.last() <= 57 {
        host
    } else {
        host + seq![58u8, 56u8, 48u8]
    }
}

/// Reads a tracker endpoint out of an announce URL: `udp://` or `http://`,
/// the host up to any path, a default port of 80 when none is given. Any
/// other scheme is refused.
pub fn make_addr(url: &Vec<u8>) -> (r: Result<TrackerAddr, TrackerError>)
    ensures
        match r {
            Ok(a) => (starts_with(url@, lit_udp_scheme()) && a.proto is Udp
                    && a.hostport@ == hostport_of(url@, 6))
                || (starts_with(url@, lit_http_scheme()) && a.proto is Http
                    && a.hostport@ == hostport_of(url@, 7)),
            Err(_) => !starts_with(url@, lit_udp_scheme())
                && !starts_with(url@, lit_http_scheme()),
        },
{
    let len = url.len();
    let udp = len >= 6 && url[0] == 117 && url[1] == 100 && url[2] == 112 && url[3] == 58
        && url[4] == 47 && url[5] == 47;
    let http = len >= 7 && url[0] == 104 && url[1] == 116 && url[2] == 116 && url[3] == 112
        && url[4] == 58 && url[5] == 47 && url[6] == 47;
    proof {
        if udp {
            assert(url@.subrange(0, 6) =~= lit_udp_scheme());
        } else if starts_with(url@, lit_udp_scheme()) {
            let p = url@.subrange(0, 6);
            assert(p[0] == url@[0] && p[1] == url@[1] && p[2] == url@[2]
                && p[3] == url@[3] && p[4] == url@[4] && p[5] == url@[5]);
            assert(false);
        }
        if http {
            assert(url@.subrange(0, 7) =~= lit_http_scheme());
        } else if starts_with(url@, lit_http_scheme()) {
            let p = url@.subrange(0, 7);
            assert(p[0] == url@[0] && p[1] == url@[1] && p[2] == url@[2]
                && p[3] == url@[3] && p[4] == url@[4] && p[5] == url@[5] && p[6] == url@[6]);
            assert(false);
        }
    }
    if !udp && !http {
        return Err(TrackerError::NoTracker);
    }
    let sl: usize = if udp { 6 } else { 7 };
    let ghost rest = url@.skip(sl as int);
    // find the first slash after the scheme
    let mut w: usize = sl;
    while w < len && url[w] != 47
        invariant
            sl <= w <= len,
            len == url@.len(),
            rest == url@.skip(sl as int),
            find_byte(rest, 0, 47) == if w == len { find_byte(rest, w - sl, 47) } else {
                find_byte(rest, w - sl, 47)
            },
            forall|j: int| 0 <= j < w - sl ==> rest[j] != 47,
        decreases len - w,
    {
        proof {
            assert(rest[w - sl] == url@[w as int]);
        }
        w += 1;
    }
    let ghost cut = find_byte(rest, 0, 47);
    proof {
        lemma_find_byte_from(rest, w - sl);
        if w < len {
            assert(rest[w - sl] == url@[w as int]);
            assert(cut == w - sl);
        } else {
            assert(cut == -1);
        }
    }
    let mut host = copy_range(url, sl, w);
    proof {
        if w < len {
            assert(host@ =~= rest.take(cut));
        } else {
            assert(host@ =~= rest);
        }
    }
    let hl = host.len();
    if hl > 0 && 48 <= host[hl - 1] && host[hl - 1] <= 57 {
        proof {
            assert(host@.last() == host@[hl - 1]);
        }
    } else {
        host.push(58);
        host.push(56);
        host.push(48);
        proof {
            assert(host@ =~= hostport_of(url@, sl as int));
        }
    }
    Ok(TrackerAddr { proto: if udp { TrackerProto::Udp } else { TrackerProto::Http }, hostport: host })
}

/// A scan that passed position `from` without a hit continues there.
proof fn lemma_find_byte_from(s: Seq<u8>, from: int)
    requires
        0 <= from <= s.len(),
        forall|j: int| 0 <= j < from ==> s[j] != 47,
    ensures
        find_byte(s, 0, 47) == find_byte(s, from, 47),
    decreases from,
{
    if from > 0 {
        lemma_find_byte_from(s, from - 1);
        assert(s[from - 1] != 47);
    }
}

/// The endpoint an announce URL names, when its scheme is usable.
pub open spec fn addr_of_url(u: Seq<u8>) -> Option<(TrackerProto, Seq<u8>)> {
    if starts_with(u, lit_udp_scheme()) {
        Some((TrackerProto::Udp, hostport_of(u, 6)))
    } else if starts_with(u, lit_http_scheme()) {
        Some((TrackerProto::Http, hostport_of(u, 7)))
    } else {
        None
    }
}

/// No URL opens with both schemes.
proof fn lemma_scheme_exclusive(u: Seq<u8>)
    ensures
        !(starts_with(u, lit_udp_scheme()) && starts_with(u, lit_http_scheme())),
{
    if starts_with(u, lit_udp_scheme()) && starts_with(u, lit_http_scheme()) {
        assert(u.subrange(0, 6)[0] == u[0]);
        assert(u.subrange(0, 7)[0] == u[0]);
        assert(false);
    }
}

/// The endpoint one tier of the announce-list offers: its first entry,
/// when that is a URL with a usable scheme.
pub open spec fn tier_addr(it: Item) -> Option<(TrackerProto, Seq<u8>)> {
    if it is List && it->List_0@.len() >= 1 && it->List_0@[0] is String {
        addr_of_url(it->List_0@[0]->String_0@)
    } else {
        None
    }
}

/// The first endpoint any tier offers.
pub open spec fn first_tier_addr(ts: Seq<Item>) -> Option<(TrackerProto, Seq<u8>)>
    decreases ts,
{
    if ts.len() == 0 {
        None
    } else if tier_addr(ts[0]) is Some {
        tier_addr(ts[0])
    } else {
        first_tier_addr(ts.subrange(1, ts.len() as int))
    }
}

/// The endpoint the metainfo names: the `announce` URL when it is a byte
/// string with a usable scheme, else the first usable first entry of an
/// `announce-list` tier.
pub open spec fn chosen_addr(tree: Seq<Item>) -> Option<(TrackerProto, Seq<u8>)> {
    if tree.len() == 0 || !(tree[0] is Dict) {
        None
    } else {
        let d = tree[0]->Dict_0@;
        let direct = match spec_dict_get(d, key_announce()) {
            Some(Item::String(u)) => addr_of_url(u@),
            _ => None,
        };
        if direct is Some {
            direct
        } else {
            match spec_dict_get(d, key_announce_list()) {
                Some(Item::List(ts)) => first_tier_addr(ts@),
                _ => None,
            }
        }
    }
}

/// Picks the tracker endpoint from the metainfo: the `announce` URL when
/// it names a usable scheme, else the first usable first entry of an
/// `announce-list` tier; an error exactly when the tree names none.
pub fn get_addr(tree: &Vec<Item>) -> (r: Result<TrackerAddr, TrackerError>)
    ensures
        match r {
            Ok(a) => chosen_addr(tree@) == Some((a.proto, a.hostport@)),
            Err(_) => chosen_addr(tree@) is None,
        },
{
    if tree.len() == 0 {
        return Err(TrackerError::NoTracker);
    }
    let root = &tree[0];
    match root {
        Item::Dict(_) => {}
        _ => {
            return Err(TrackerError::NoTracker);
        }
    }
    let kann = key_announce_vec();
    match root.dict_get(&kann) {
        Some(it) => {
            match it {
                Item::String(url) => {
                    let made = make_addr(url);
                    proof {
                        lemma_scheme_exclusive(url@);
                    }
                    match made {
                        Ok(a) => {
                            proof {
                                assert(addr_of_url(url@) == Some((a.proto, a.hostport@)));
                            }
                            return Ok(a);
                        }
                        Err(_) => {
                            proof {
                                assert(addr_of_url(url@) is None);
                            }
                        }
                    }
                }
                _ => {}
            }
        }
        None => {}
    }
    let klist = key_announce_list_vec();
    let ghost d = tree@[0]->Dict_0@;
    proof {
        assert((match spec_dict_get(d, key_announce()) {
            Some(Item::String(u)) => addr_of_url(u@),
            _ => None,
        }) is None);
    }
    match root.dict_get(&klist) {
        Some(it) => {
            match it {
                Item::List(tiers) => {
                    proof {
                        assert(chosen_addr(tree@) == first_tier_addr(tiers@));
                        assert(tiers@.skip(0) =~= tiers@);
                    }
                    let mut k: usize = 0;
                    while k < tiers.len()
                        invariant
                            k <= tiers@.len(),
                            chosen_addr(tree@) == first_tier_addr(tiers@.skip(k as int)),
                        decreases tiers@.len() - k,
                    {
                        let ghost ts = tiers@.skip(k as int);
                        proof {
                            assert(ts[0] == tiers@[k as int]);
                            assert(ts.subrange(1, ts.len() as int) =~= tiers@.skip(k + 1));
                        }
                        match &tiers[k] {
                            Item::List(tier) => {
                                if tier.len() > 0 {
                                    match &tier[0] {
                                        Item::String(url) => {
                                            let made = make_addr(url);
                                            proof {
                                                lemma_scheme_exclusive(url@);
                                                assert(tier_addr(tiers@[k as int])
                                                    == addr_of_url(url@));
                                            }
                                            match made {
                                                Ok(a) => {
                                                    proof {
                                                        assert(addr_of_url(url@)
                                                            == Some((a.proto, a.hostport@)));
                                                    }
                                                    return Ok(a);
                                                }
                                                Err(_) => {
                                                    proof {
                                                        assert(addr_of_url(url@) is None);
                                                    }
                                                }
                                            }
                                        }
                                        _ => {}
                                    }
                                }
                            }
                            _ => {}
                        }
                        proof {
                            assert(tier_addr(tiers@[k as int]) is None);
                        }
                        k += 1;
                    }
                    proof {
                        assert(tiers@.skip(tiers@.len() as int) =~= Seq::<Item>::empty());
                    }
                    Err(TrackerError::NoTracker)
                }
                _ => Err(TrackerError::NoTracker),
            }
        }
        None => Err(TrackerError::NoTracker),
    }
}

} // verus!
