//! Raw IP packet inspection and rewriting.
//!
//! Packets are held as exact-length byte vectors.  An IPv4 header keeps
//! its version and header length in byte 0, its total length at 2..4, its
//! checksum at 10..12 and its addresses at 12..20; the L4 ports sit in the
//! four bytes right after the header.  Every field rewrite here restores
//! the header checksum; the L4 checksum is deliberately left alone, as the
//! UDP checksum is optional over IPv4.

use crate::checksum::{
    checksum_accepts, checksum_of, compute_checksum, fold_carries, lemma_checksum_accepts,
    lemma_sum_skip_ignores_checksum_field, oc_fold,
};
use vstd::prelude::*;

verus! {

/// The IP version nibble of a packet: the high half of its first byte.
pub open spec fn ip_version(b: Seq<u8>) -> u8 {
    b[0] >> 4
}

/// The IPv4 header length in bytes: the IHL nibble times four.
pub open spec fn ipv4_hlen(b: Seq<u8>) -> int {
    (b[0] & 0x0f) * 4
}

/// A buffer holds a well-formed IPv4 header: at least 20 bytes, version
/// nibble 4, a header length of at least 20 bytes that the buffer covers.
pub open spec fn ipv4_parseable(b: Seq<u8>) -> bool {
    &&& b.len() >= 20
    &&& b[0] >> 4 == 4
    &&& b[0] & 0x0f >= 5
    &&& b.len() >= ipv4_hlen(b)
}

/// A buffer holds a well-formed IPv6 fixed header: at least 40 bytes and
/// version nibble 6.
pub open spec fn ipv6_parseable(b: Seq<u8>) -> bool {
    b.len() >= 40 && b[0] >> 4 == 6
}

/// The big-endian 16-bit value at byte offset `i`.
pub open spec fn be16(b: Seq<u8>, i: int) -> int {
    b[i] * 0x100 + b[i + 1]
}

/// `b` with the big-endian 16-bit value `v` stored at byte offset `i`.
pub open spec fn upd_be16(b: Seq<u8>, i: int, v: int) -> Seq<u8> {
    b.update(i, (v / 0x100) as u8).update(i + 1, (v % 0x100) as u8)
}

/// `b` with the four bytes of `a` stored at byte offset `off`.
pub open spec fn write4(b: Seq<u8>, off: int, a: Seq<u8>) -> Seq<u8> {
    b.update(off, a[0]).update(off + 1, a[1]).update(off + 2, a[2]).update(off + 3, a[3])
}

/// `b` with the checksum of its first `hlen` bytes stored at 10..12.
pub open spec fn stored_checksum(b: Seq<u8>, hlen: int) -> Seq<u8> {
    upd_be16(b, 10, checksum_of(b.subrange(0, hlen)))
}

/// The effect of `change_address`: the source (or destination) address
/// field overwritten and the header checksum restored.
pub open spec fn change_address_spec(b: Seq<u8>, a: Seq<u8>, is_source: bool) -> Seq<u8> {
    let off: int = if is_source {
        12
    } else {
        16
    };
    stored_checksum(write4(b, off, a), ipv4_hlen(b))
}

/// Byte offset of the L4 source (or destination) port: the first (or
/// second) pair of bytes after the IPv4 header.
pub open spec fn l4_port_off(b: Seq<u8>, is_source: bool) -> int {
    ipv4_hlen(b) + if is_source {
        0int
    } else {
        2int
    }
}

/// The effect of `change_address_and_port`: address field and L4 port
/// overwritten, header checksum restored, L4 checksum untouched.
pub open spec fn change_address_and_port_spec(
    b: Seq<u8>,
    a: Seq<u8>,
    port: u16,
    is_source: bool,
) -> Seq<u8> {
    let aoff: int = if is_source {
        12
    } else {
        16
    };
    stored_checksum(upd_be16(write4(b, aoff, a), l4_port_off(b, is_source), port as int), ipv4_hlen(b))
}

/// A handshake packet: a well-formed IPv4 header whose destination
/// address is the unspecified 0.0.0.0.
pub open spec fn is_handshake(b: Seq<u8>) -> bool {
    ipv4_parseable(b) && b[16] == 0 && b[17] == 0 && b[18] == 0 && b[19] == 0
}

/// The value of `n` powers of 256, for bounding big-endian reads.
pub open spec fn pow256(n: nat) -> int
    decreases n,
{
    if n == 0 {
        1
    } else {
        0x100 * pow256((n - 1) as nat)
    }
}

/// The big-endian value of the `n` bytes at offset `i`.
pub open spec fn be_val(b: Seq<u8>, i: int, n: nat) -> int
    decreases n,
{
    if n == 0 {
        0
    } else {
        be_val(b, i, (n - 1) as nat) * 0x100 + b[i + n - 1]
    }
}

/// A big-endian value fits in as many bytes as were read.
pub proof fn lemma_be_val_bound(b: Seq<u8>, i: int, n: nat)
    ensures
        0 <= be_val(b, i, n) < pow256(n),
    decreases n,
{
    if n > 0 {
        lemma_be_val_bound(b, i, (n - 1) as nat);
        let v: int = be_val(b, i, (n - 1) as nat);
        let c: int = b[i + n - 1] as int;
        let p: int = pow256((n - 1) as nat);
        assert(0 <= v * 0x100 + c < 0x100 * p) by (nonlinear_arith)
            requires
                0 <= v < p,
                0 <= c < 0x100,
        ;
    }
}

/// Two buffers that agree on a byte range carry the same big-endian
/// value there.
pub proof fn lemma_be_val_congruence(b1: Seq<u8>, b2: Seq<u8>, i: int, n: nat)
    requires
        forall|j: int| i <= j < i + n ==> b1[j] == b2[j],
    ensures
        be_val(b1, i, n) == be_val(b2, i, n),
    decreases n,
{
    if n > 0 {
        lemma_be_val_congruence(b1, b2, i, (n - 1) as nat);
    }
}

/// Reads the big-endian 32-bit value at byte offset `off`.
pub fn read_be_u32(buf: &Vec<u8>, off: usize) -> (r: u32)
    requires
        off + 4 <= buf@.len(),
    ensures
        r == be_val(buf@, off as int, 4),
{
    proof {
        lemma_be_val_bound(buf@, off as int, 4);
    }
    let n: usize = buf.len();
    let mut v: u32 = 0;
    let mut j: usize = 0;
    while j < 4
        invariant
            off + 4 <= n == buf@.len(),
            0 <= j <= 4,
            v == be_val(buf@, off as int, j as nat),
        decreases 4 - j,
    {
        proof {
            lemma_be_val_bound(buf@, off as int, (j + 1) as nat);
            assert(pow256(4) == 0x1_0000_0000) by {
                assert(pow256(0) == 1);
                assert(pow256(1) == 0x100);
                assert(pow256(2) == 0x1_0000);
                assert(pow256(3) == 0x100_0000);
            }
            assert(pow256(j as nat + 1) <= pow256(4)) by {
                lemma_pow256_increases(j as nat + 1, 4);
            }
        }
        v = v * 0x100 + (buf[off + j] as u32);
        j = j + 1;
    }
    v
}

/// Reads the big-endian 128-bit value at byte offset `off`.
pub fn read_be_u128(buf: &Vec<u8>, off: usize) -> (r: u128)
    requires
        off + 16 <= buf@.len(),
    ensures
        r == be_val(buf@, off as int, 16),
{
    proof {
        lemma_be_val_bound(buf@, off as int, 16);
    }
    let n: usize = buf.len();
    let mut v: u128 = 0;
    let mut j: usize = 0;
    while j < 16
        invariant
            off + 16 <= n == buf@.len(),
            0 <= j <= 16,
            v == be_val(buf@, off as int, j as nat),
        decreases 16 - j,
    {
        proof {
            lemma_be_val_bound(buf@, off as int, (j + 1) as nat);
            assert(pow256(16) == 0x1_0000_0000_0000_0000_0000_0000_0000_0000) by {
                lemma_pow256_sixteen();
            }
            assert(pow256(j as nat + 1) <= pow256(16)) by {
                lemma_pow256_increases(j as nat + 1, 16);
            }
        }
        v = v * 0x100 + (buf[off + j] as u128);
        j = j + 1;
    }
    v
}

proof fn lemma_pow256_increases(m: nat, n: nat)
    requires
        m <= n,
    ensures
        pow256(m) <= pow256(n),
    decreases n,
{
    if m < n {
        lemma_pow256_increases(m, (n - 1) as nat);
        let p: int = pow256((n - 1) as nat);
        assert(pow256(m) >= 1) by {
            lemma_pow256_pos(m);
        }
        assert(p <= 0x100 * p) by (nonlinear_arith)
            requires
                p >= 1,
        ;
    }
}

proof fn lemma_pow256_pos(n: nat)
    ensures
        pow256(n) >= 1,
    decreases n,
{
    if n > 0 {
        lemma_pow256_pos((n - 1) as nat);
        let p: int = pow256((n - 1) as nat);
        assert(0x100 * p >= 1) by (nonlinear_arith)
            requires
                p >= 1,
        ;
    }
}

proof fn lemma_pow256_sixteen()
    ensures
        pow256(16) == 0x1_0000_0000_0000_0000_0000_0000_0000_0000,
{
    assert(pow256(0) == 1);
    assert(pow256(1) == 0x100);
    assert(pow256(2) == 0x1_0000);
    assert(pow256(3) == 0x100_0000);
    assert(pow256(4) == 0x1_0000_0000);
    assert(pow256(5) == 0x100_0000_0000);
    assert(pow256(6) == 0x1_0000_0000_0000);
    assert(pow256(7) == 0x100_0000_0000_0000);
    assert(pow256(8) == 0x1_0000_0000_0000_0000);
    assert(pow256(9) == 0x100_0000_0000_0000_0000);
    assert(pow256(10) == 0x1_0000_0000_0000_0000_0000);
    assert(pow256(11) == 0x100_0000_0000_0000_0000_0000);
    assert(pow256(12) == 0x1_0000_0000_0000_0000_0000_0000);
    assert(pow256(13) == 0x100_0000_0000_0000_0000_0000_0000);
    assert(pow256(14) == 0x1_0000_0000_0000_0000_0000_0000_0000);
    assert(pow256(15) == 0x100_0000_0000_0000_0000_0000_0000_0000);
}

/// Reads the IP version nibble.
pub fn get_version(buf: &Vec<u8>) -> (v: u8)
    requires
        buf@.len() >= 1,
    ensures
        v == ip_version(buf@),
{
    buf[0] >> 4
}

/// Reads the IPv4 header length in bytes.
pub fn ipv4_header_len(buf: &Vec<u8>) -> (h: usize)
    requires
        buf@.len() >= 1,
    ensures
        h == ipv4_hlen(buf@),
{
    ((buf[0] & 0x0f) as usize) * 4
}

/// Checks that the buffer holds a well-formed IPv4 header, exactly the
/// checks a header parser makes: length, version nibble, header length.
pub fn ipv4_check(buf: &Vec<u8>) -> (r: bool)
    ensures
        r == ipv4_parseable(buf@),
{
    if buf.len() < 20 {
        return false;
    }
    if buf[0] >> 4 != 4 {
        return false;
    }
    if buf[0] & 0x0f < 5 {
        return false;
    }
    let hlen: usize = ipv4_header_len(buf);
    buf.len() >= hlen
}

/// Checks that the buffer holds a well-formed IPv6 fixed header.
pub fn ipv6_check(buf: &Vec<u8>) -> (r: bool)
    ensures
        r == ipv6_parseable(buf@),
{
    buf.len() >= 40 && buf[0] >> 4 == 6
}

/// Writes `len` big-endian into the IPv4 total-length field at bytes
/// 2..4.  The header checksum is not touched here; callers restore it.
pub fn set_ipv4_total_length(buf: &mut Vec<u8>, len: u16)
    requires
        old(buf)@.len() >= 4,
    ensures
        final(buf)@ == upd_be16(old(buf)@, 2, len as int),
        final(buf)@.len() == old(buf)@.len(),
{
    let hi8: u8 = (len >> 8) as u8;
    let lo8: u8 = (len & 0xff) as u8;
    proof {
        assert(hi8 == len as int / 0x100 && lo8 == len as int % 0x100) by (bit_vector)
            requires
                hi8 == (len >> 8) as u8,
                lo8 == (len & 0xff) as u8,
        ;
    }
    buf[2] = hi8;
    buf[3] = lo8;
}

/// Recomputes the IPv4 header checksum over `buf[0..hlen]` and stores it
/// big-endian at bytes 10..12, making the header one the kernel accepts.
pub fn set_header_checksum(buf: &mut Vec<u8>, hlen: usize)
    requires
        20 <= hlen <= old(buf)@.len(),
        hlen <= 0x10000,
    ensures
        final(buf)@ == stored_checksum(old(buf)@, hlen as int),
        final(buf)@.len() == old(buf)@.len(),
        checksum_accepts(final(buf)@.subrange(0, hlen as int)),
{
    let c: u16 = compute_checksum(buf, 0, hlen);
    let hi8: u8 = (c >> 8) as u8;
    let lo8: u8 = (c & 0xff) as u8;
    proof {
        assert(hi8 == c as int / 0x100 && lo8 == c as int % 0x100) by (bit_vector)
            requires
                hi8 == (c >> 8) as u8,
                lo8 == (c & 0xff) as u8,
        ;
    }
    buf[10] = hi8;
    buf[11] = lo8;
    proof {
        let b0 = old(buf)@;
        let h = b0.subrange(0, hlen as int);
        let b1 = buf@;
        let h1 = b1.subrange(0, hlen as int);
        assert(h1 =~= h.update(10, hi8).update(11, lo8));
        lemma_sum_skip_ignores_checksum_field(h, hi8, lo8, 0);
        assert(checksum_of(h1) == checksum_of(h));
        assert(h1[10] == checksum_of(h1) / 0x100);
        assert(h1[11] == checksum_of(h1) % 0x100);
        lemma_checksum_accepts(h1);
    }
}

/// Overwrites the 4-byte IPv4 source (`is_source`) or destination address
/// and recomputes the header checksum.
pub fn change_address(buf: &mut Vec<u8>, addr: &Vec<u8>, is_source: bool)
    requires
        ipv4_parseable(old(buf)@),
        addr@.len() >= 4,
    ensures
        final(buf)@ == change_address_spec(old(buf)@, addr@, is_source),
        final(buf)@.len() == old(buf)@.len(),
{
    let off: usize = if is_source {
        12
    } else {
        16
    };
    let hlen: usize = ipv4_header_len(buf);
    buf[off] = addr[0];
    buf[off + 1] = addr[1];
    buf[off + 2] = addr[2];
    buf[off + 3] = addr[3];
    assert(buf@ == write4(old(buf)@, off as int, addr@));
    assert(ipv4_hlen(buf@) == ipv4_hlen(old(buf)@));
    set_header_checksum(buf, hlen);
}

/// Overwrites the IPv4 source (`is_source`) or destination address and
/// the matching L4 port, recomputes the header checksum, and returns the
/// port value that was overwritten so the rewrite can later be undone.
pub fn change_address_and_port(buf: &mut Vec<u8>, addr: &Vec<u8>, port: u16, is_source: bool) -> (old_port: u16)
    requires
        ipv4_parseable(old(buf)@),
        old(buf)@.len() >= ipv4_hlen(old(buf)@) + 4,
        addr@.len() >= 4,
    ensures
        final(buf)@ == change_address_and_port_spec(old(buf)@, addr@, port, is_source),
        final(buf)@.len() == old(buf)@.len(),
        old_port == be16(old(buf)@, l4_port_off(old(buf)@, is_source)),
{
    let aoff: usize = if is_source {
        12
    } else {
        16
    };
    let hlen: usize = ipv4_header_len(buf);
    let poff: usize = if is_source {
        hlen
    } else {
        hlen + 2
    };
    let old_port: u16 = (buf[poff] as u16) * 0x100 + (buf[poff + 1] as u16);
    buf[aoff] = addr[0];
    buf[aoff + 1] = addr[1];
    buf[aoff + 2] = addr[2];
    buf[aoff + 3] = addr[3];
    let phi: u8 = (port >> 8) as u8;
    let plo: u8 = (port & 0xff) as u8;
    proof {
        assert(phi == port as int / 0x100 && plo == port as int % 0x100) by (bit_vector)
            requires
                phi == (port >> 8) as u8,
                plo == (port & 0xff) as u8,
        ;
    }
    buf[poff] = phi;
    buf[poff + 1] = plo;
    assert(buf@ == upd_be16(
        write4(old(buf)@, aoff as int, addr@),
        l4_port_off(old(buf)@, is_source),
        port as int,
    ));
    assert(ipv4_hlen(buf@) == ipv4_hlen(old(buf)@));
    set_header_checksum(buf, hlen);
    old_port
}

/// The 20-byte IPv4 header of a handshake packet before its checksum is
/// stored: version 4, header length 20, total length 29, don't-fragment,
/// TTL 10, protocol UDP, source `src`, destination 0.0.0.0.
pub open spec fn handshake_header_zero(src: Seq<u8>) -> Seq<u8> {
    seq![
        0x45u8,
        0,
        0,
        0x1d,
        0,
        0,
        0x40,
        0,
        0x0a,
        0x11,
        0,
        0,
        src[0],
        src[1],
        src[2],
        src[3],
        0,
        0,
        0,
        0,
    ]
}

/// The UDP checksum of the handshake datagram: ports 1 and 1, length 9,
/// payload 0x01, pseudo-header over `src` and 0.0.0.0; a zero result is
/// sent as 0xffff, as the UDP rules reserve zero.
pub open spec fn handshake_udp_csum(src: Seq<u8>) -> int {
    let s = src[0] * 0x100 + src[1] + src[2] * 0x100 + src[3] + 0x125;
    let c = 0xffff - oc_fold(s as nat);
    if c == 0 {
        0xffff
    } else {
        c
    }
}

/// The full 29-byte handshake packet for source address `src`.
pub open spec fn handshake_packet(src: Seq<u8>) -> Seq<u8> {
    stored_checksum(handshake_header_zero(src), 20) + seq![0u8, 1, 0, 1, 0, 9] + seq![
        (handshake_udp_csum(src) / 0x100) as u8,
        (handshake_udp_csum(src) % 0x100) as u8,
        1u8,
    ]
}

/// Builds the one-round handshake packet: an IPv4/UDP datagram from
/// `ip` to 0.0.0.0, ports 1 to 1, TTL 10, payload 0x01, both checksums
/// stored.  The server recognises the unspecified destination and uses
/// the packet only to learn the sender's return path.
pub fn create_handshake_packet(ip: &Vec<u8>) -> (r: Vec<u8>)
    requires
        ip@.len() >= 4,
    ensures
        r@ == handshake_packet(ip@),
        r@.len() == 29,
        is_handshake(r@),
        checksum_accepts(r@.subrange(0, 20)),
{
    let mut v: Vec<u8> = Vec::new();
    v.push(0x45);
    v.push(0);
    v.push(0);
    v.push(0x1d);
    v.push(0);
    v.push(0);
    v.push(0x40);
    v.push(0);
    v.push(0x0a);
    v.push(0x11);
    v.push(0);
    v.push(0);
    v.push(ip[0]);
    v.push(ip[1]);
    v.push(ip[2]);
    v.push(ip[3]);
    v.push(0);
    v.push(0);
    v.push(0);
    v.push(0);
    assert(v@ =~= handshake_header_zero(ip@));
    set_header_checksum(&mut v, 20);
    proof {
        assert(v@ =~= stored_checksum(handshake_header_zero(ip@), 20));
    }
    let s: u32 = (ip[0] as u32) * 0x100 + (ip[1] as u32) + (ip[2] as u32) * 0x100 + (
    ip[3] as u32) + 0x125;
    let f: u16 = fold_carries(s);
    let c16: u16 = 0xffffu16 - f;
    let uc: u16 = if c16 == 0 {
        0xffff
    } else {
        c16
    };
    assert(uc == handshake_udp_csum(ip@));
    let uhi: u8 = (uc >> 8) as u8;
    let ulo: u8 = (uc & 0xff) as u8;
    proof {
        assert(uhi == uc as int / 0x100 && ulo == uc as int % 0x100) by (bit_vector)
            requires
                uhi == (uc >> 8) as u8,
                ulo == (uc & 0xff) as u8,
        ;
    }
    v.push(0);
    v.push(1);
    v.push(0);
    v.push(1);
    v.push(0);
    v.push(9);
    v.push(uhi);
    v.push(ulo);
    v.push(1);
    proof {
        assert(v@ =~= handshake_packet(ip@));
        assert(v@.subrange(0, 20) =~= stored_checksum(handshake_header_zero(ip@), 20).subrange(
            0,
            20,
        ));
        assert(v@[0] == 0x45 && v@[16] == 0 && v@[17] == 0 && v@[18] == 0 && v@[19] == 0);
        assert(0x45u8 >> 4 == 4) by (bit_vector);
        assert(0x45u8 & 0x0f == 5) by (bit_vector);
    }
    v
}

/// Rewriting an address is idempotent: applying `change_address` a second
/// time with the same address leaves the buffer exactly as the first
/// application did, stored checksum included.
pub proof fn lemma_change_address_idempotent(b: Seq<u8>, a: Seq<u8>, is_source: bool)
    requires
        ipv4_parseable(b),
        a.len() >= 4,
    ensures
        change_address_spec(change_address_spec(b, a, is_source), a, is_source)
            == change_address_spec(b, a, is_source),
{
    let off: int = if is_source {
        12int
    } else {
        16int
    };
    let h: int = ipv4_hlen(b);
    let w1 = write4(b, off, a);
    let x: u8 = (checksum_of(w1.subrange(0, h)) / 0x100) as u8;
    let y: u8 = (checksum_of(w1.subrange(0, h)) % 0x100) as u8;
    let c1 = stored_checksum(w1, h);
    assert(c1 == w1.update(10, x).update(11, y));
    assert(c1[0] == b[0]);
    assert(ipv4_hlen(c1) == h);
    let w2 = write4(c1, off, a);
    assert(w2 =~= c1);
    assert(w2.subrange(0, h) =~= w1.subrange(0, h).update(10, x).update(11, y));
    lemma_sum_skip_ignores_checksum_field(w1.subrange(0, h), x, y, 0);
    assert(checksum_of(w2.subrange(0, h)) == checksum_of(w1.subrange(0, h)));
    let c2 = stored_checksum(w2, h);
    assert(c2 =~= c1);
    assert(change_address_spec(c1, a, is_source) == c2);
}

/// Checks whether the buffer is a handshake packet: a parseable IPv4
/// header destined for the unspecified address 0.0.0.0.
pub fn is_handshake_packet(buf: &Vec<u8>) -> (r: bool)
    ensures
        r == is_handshake(buf@),
{
    if !ipv4_check(buf) {
        return false;
    }
    buf[16] == 0 && buf[17] == 0 && buf[18] == 0 && buf[19] == 0
}

} // verus!
