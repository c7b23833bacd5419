//! AES-256-GCM framing of IP packets.
//!
//! A sealed packet keeps its IP header in clear, with the header-stated
//! length grown by the 16-byte tag (and, for IPv4, the checksum redone);
//! the payload is encrypted in place and the tag sits at the very end.
//! The key is the pre-shared secret zero-padded to 32 bytes.  The nonce
//! is the engine's fixed counter nonce — eleven zero bytes then 1 — so
//! sealing is a function of key and plaintext alone.

use crate::packet::{
    be16, ipv4_hlen, ipv4_parseable, ipv6_parseable, set_header_checksum, stored_checksum,
    upd_be16,
};
use crate::tunerror::Error;
use vstd::prelude::*;

verus! {

/// The length of an AES-256-GCM authentication tag.
pub const TAG_LEN: usize = 16;

/// What AES-256-GCM sealing returns for a 32-byte key and a plaintext,
/// under the engine's fixed nonce and empty associated data: the
/// ciphertext followed by the 16-byte tag.
pub uninterp spec fn gcm_seal(key: Seq<u8>, pt: Seq<u8>) -> Seq<u8>;

/// What AES-256-GCM opening returns for a 32-byte key and a buffer of
/// ciphertext-plus-tag, under the same fixed nonce and empty associated
/// data: the plaintext when the tag verifies, nothing otherwise.
pub uninterp spec fn gcm_open(key: Seq<u8>, data: Seq<u8>) -> Option<Seq<u8>>;

/// The cipher round-trips on this key and plaintext: opening what sealing
/// produced yields the plaintext back, and the sealed form is exactly
/// 16 bytes longer.  Every call of the sealing wrapper establishes this
/// of its own key and plaintext.
pub open spec fn cipher_roundtrip(key: Seq<u8>, pt: Seq<u8>) -> bool {
    gcm_seal(key, pt).len() == pt.len() + 16 && gcm_open(key, gcm_seal(key, pt)) == Some(pt)
}

/// Relies on ring's AES-256-GCM — `UnboundKey::new`, `LessSafeKey::new`
/// and `LessSafeKey::seal_in_place_separate_tag` — with the fixed counter
/// nonce 1 and empty associated data.  Encryption is then a function of
/// key and plaintext alone; `gcm_seal` names its output, ciphertext and
/// tag together, and opening that output returns the plaintext.  ring
/// refuses only inputs beyond its gigabyte-scale limit, so a region of at
/// most 65536 bytes always seals.
#[verifier::external_body]
fn aead_seal_range(key: &Vec<u8>, buf: &mut Vec<u8>, start: usize, end: usize) -> (r: Result<
    Vec<u8>,
    Error,
>)
    requires
        key@.len() == 32,
        start <= end <= old(buf)@.len(),
    ensures
        final(buf)@.len() == old(buf)@.len(),
        forall|i: int|
            0 <= i < old(buf)@.len() && !(start <= i < end) ==> final(buf)@[i] == old(buf)@[i],
        r matches Ok(tag) ==> {
            let pt = old(buf)@.subrange(start as int, end as int);
            let sealed = gcm_seal(key@, pt);
            &&& sealed.len() == end - start + 16
            &&& final(buf)@.subrange(start as int, end as int) == sealed.subrange(
                0,
                end - start,
            )
            &&& tag@ == sealed.subrange(end - start, end - start + 16)
            &&& gcm_open(key@, sealed) == Some(pt)
        },
        end - start <= 0x10000 ==> r is Ok,
{
    let unbound = match ring::aead::UnboundKey::new(&ring::aead::AES_256_GCM, key.as_slice()) {
        Ok(k) => k,
        Err(_) => return Err(Error::InvalidPacket),
    };
    let sealing_key = ring::aead::LessSafeKey::new(unbound);
    let nonce = ring::aead::Nonce::assume_unique_for_key([0, 0, 0, 0, 0, 0, 0, 0, 0, 0, 0, 1]);
    match sealing_key.seal_in_place_separate_tag(
        nonce,
        ring::aead::Aad::empty(),
        &mut buf[start..end],
    ) {
        Ok(tag) => Ok(tag.as_ref().to_vec()),
        Err(_) => Err(Error::InvalidPacket),
    }
}

/// Relies on ring's AES-256-GCM — `UnboundKey::new`, `LessSafeKey::new`
/// and `LessSafeKey::open_in_place` — with the fixed counter nonce 1 and
/// empty associated data.  The region's last 16 bytes are the tag.
/// Opening is deterministic in key and input, and it succeeds exactly on
/// the outputs of sealing: with a fixed nonce the ciphertext determines
/// the plaintext and the tag is a function of key and ciphertext, so a
/// verified input is byte-for-byte what sealing its plaintext produces.
/// On failure the region's contents are unspecified and the packet is
/// dropped by the caller.
#[verifier::external_body]
fn aead_open_range(key: &Vec<u8>, buf: &mut Vec<u8>, start: usize, end: usize) -> (r: Result<
    (),
    Error,
>)
    requires
        key@.len() == 32,
        start <= end <= old(buf)@.len(),
    ensures
        final(buf)@.len() == old(buf)@.len(),
        forall|i: int|
            0 <= i < old(buf)@.len() && !(start <= i < end) ==> final(buf)@[i] == old(buf)@[i],
        r is Ok <==> gcm_open(key@, old(buf)@.subrange(start as int, end as int)) is Some,
        r is Ok ==> {
            let data = old(buf)@.subrange(start as int, end as int);
            let pt = final(buf)@.subrange(start as int, end as int - 16);
            &&& end - start >= 16
            &&& gcm_open(key@, data) == Some(pt)
            &&& data == gcm_seal(key@, pt)
            &&& cipher_roundtrip(key@, pt)
        },
{
    let unbound = match ring::aead::UnboundKey::new(&ring::aead::AES_256_GCM, key.as_slice()) {
        Ok(k) => k,
        Err(_) => return Err(Error::InvalidPacket),
    };
    let opening_key = ring::aead::LessSafeKey::new(unbound);
    let nonce = ring::aead::Nonce::assume_unique_for_key([0, 0, 0, 0, 0, 0, 0, 0, 0, 0, 0, 1]);
    match opening_key.open_in_place(nonce, ring::aead::Aad::empty(), &mut buf[start..end]) {
        Ok(_) => Ok(()),
        Err(_) => Err(Error::InvalidPacket),
    }
}

/// Derives the 32-byte AEAD key from the pre-shared secret: its bytes
/// copied into a zero-filled 32-byte buffer.
pub fn derive_key(psk: &Vec<u8>) -> (r: Vec<u8>)
    requires
        psk@.len() <= 32,
    ensures
        r@.len() == 32,
        forall|i: int| 0 <= i < psk@.len() ==> r@[i] == psk@[i],
        forall|i: int| psk@.len() <= i < 32 ==> r@[i] == 0,
{
    let mut key: Vec<u8> = Vec::new();
    let mut i: usize = 0;
    while i < psk.len()
        invariant
            psk@.len() <= 32,
            0 <= i <= psk@.len(),
            key@.len() == i,
            forall|j: int| 0 <= j < i ==> key@[j] == psk@[j],
        decreases psk@.len() - i,
    {
        key.push(psk[i]);
        i = i + 1;
    }
    while i < 32
        invariant
            psk@.len() <= 32,
            psk@.len() <= i <= 32,
            key@.len() == i,
            forall|j: int| 0 <= j < psk@.len() ==> key@[j] == psk@[j],
            forall|j: int| psk@.len() <= j < i ==> key@[j] == 0,
        decreases 32 - i,
    {
        key.push(0);
        i = i + 1;
    }
    key
}

/// The header length of a packet of the given version: the IPv4 IHL in
/// bytes, or the fixed 40-byte IPv6 header.
pub open spec fn header_len_of(b: Seq<u8>, version: u8) -> int {
    if version == 4 {
        ipv4_hlen(b)
    } else {
        40
    }
}

/// The effect of `configure_header`: the header-stated length field grown
/// (sealing) or shrunk (opening) by the tag length, and, for IPv4, the
/// header checksum redone.
pub open spec fn configure_header_spec(b: Seq<u8>, version: u8, is_encrypt: bool) -> Seq<u8> {
    let delta: int = if is_encrypt {
        16
    } else {
        -16
    };
    if version == 4 {
        stored_checksum(upd_be16(b, 2, be16(b, 2) + delta), ipv4_hlen(b))
    } else {
        upd_be16(b, 4, be16(b, 4) + delta)
    }
}

/// Adjusts the header-stated length field for sealing or opening and, for
/// IPv4, recomputes the header checksum.  Returns the header length.
pub fn configure_header(buf: &mut Vec<u8>, version: u8, is_encrypt: bool) -> (h: usize)
    requires
        version == 4 || version == 6,
        version == 4 ==> ipv4_parseable(old(buf)@),
        version == 6 ==> ipv6_parseable(old(buf)@),
        is_encrypt ==> be16(old(buf)@, if version == 4 { 2int } else { 4int }) + 16 <= 0xffff,
        !is_encrypt ==> be16(old(buf)@, if version == 4 { 2int } else { 4int }) >= 16,
    ensures
        final(buf)@ == configure_header_spec(old(buf)@, version, is_encrypt),
        final(buf)@.len() == old(buf)@.len(),
        h == header_len_of(old(buf)@, version),
        version == 4 ==> h >= 20,
{
    let off: usize = if version == 4 {
        2
    } else {
        4
    };
    let length: u16 = (buf[off] as u16) * 0x100 + (buf[off + 1] as u16);
    let new_length: u16 = if is_encrypt {
        length + 16
    } else {
        length - 16
    };
    if version == 4 {
        crate::packet::set_ipv4_total_length(buf, new_length);
        let hlen: usize = crate::packet::ipv4_header_len(buf);
        assert(ipv4_hlen(buf@) == ipv4_hlen(old(buf)@));
        set_header_checksum(buf, hlen);
        hlen
    } else {
        let hi8: u8 = (new_length >> 8) as u8;
        let lo8: u8 = (new_length & 0xff) as u8;
        proof {
            assert(hi8 == new_length as int / 0x100 && lo8 == new_length as int % 0x100)
                by (bit_vector)
                requires
                    hi8 == (new_length >> 8) as u8,
                    lo8 == (new_length & 0xff) as u8,
            ;
        }
        buf[off] = hi8;
        buf[off + 1] = lo8;
        assert(buf@ == upd_be16(old(buf)@, off as int, new_length as int));
        40
    }
}

/// The sealed form of a whole packet: its header with the length field
/// grown by the tag (checksum redone for IPv4), then the sealed payload —
/// ciphertext and tag.
pub open spec fn seal_transform(key: Seq<u8>, b: Seq<u8>, version: u8) -> Seq<u8> {
    let h = header_len_of(b, version);
    let adj = configure_header_spec(b, version, true);
    adj.subrange(0, h) + gcm_seal(key, adj.subrange(h, b.len() as int))
}

/// The opened form of a whole sealed packet, when the tag verifies: the
/// header with the length field shrunk back (checksum redone for IPv4),
/// then the decrypted payload.
pub open spec fn open_transform(key: Seq<u8>, d: Seq<u8>, version: u8) -> Option<Seq<u8>> {
    let h = header_len_of(d, version);
    let adj = configure_header_spec(d, version, false);
    match gcm_open(key, adj.subrange(h, d.len() as int)) {
        Some(pt) => Some(adj.subrange(0, h) + pt),
        None => None,
    }
}

/// Seals a packet in place: adjusts the header length field, encrypts the
/// payload after the header, and appends the 16-byte tag.  The stated
/// length field grows by exactly the tag length.
pub fn encrypt(key: &Vec<u8>, buf: &mut Vec<u8>, version: u8)
    requires
        key@.len() == 32,
        old(buf)@.len() <= 4096,
        version == 4 || version == 6,
        version == 4 ==> ipv4_parseable(old(buf)@) && be16(old(buf)@, 2) + 16 <= 0xffff,
        version == 6 ==> ipv6_parseable(old(buf)@) && be16(old(buf)@, 4) + 16 <= 0xffff,
    ensures
        final(buf)@ == seal_transform(key@, old(buf)@, version),
        final(buf)@.len() == old(buf)@.len() + 16,
        cipher_roundtrip(
            key@,
            configure_header_spec(old(buf)@, version, true).subrange(
                header_len_of(old(buf)@, version),
                old(buf)@.len() as int,
            ),
        ),
        version == 4 ==> be16(final(buf)@, 2) == be16(old(buf)@, 2) + 16,
        version == 6 ==> be16(final(buf)@, 4) == be16(old(buf)@, 4) + 16,
{
    let n: usize = buf.len();
    let h: usize = configure_header(buf, version, true);
    let ghost adj = buf@;
    let tag_res = aead_seal_range(key, buf, h, n);
    let tag: Vec<u8> = match tag_res {
        Ok(t) => t,
        Err(_) => {
            proof {
                assert(false);
            }
            Vec::new()
        },
    };
    let ghost sealed = gcm_seal(key@, adj.subrange(h as int, n as int));
    proof {
        assert(buf@ =~= adj.subrange(0, h as int) + sealed.subrange(0, n - h));
    }
    let ghost base = buf@;
    let mut k: usize = 0;
    while k < TAG_LEN
        invariant
            0 <= k <= 16,
            tag@.len() == 16,
            buf@ == base + tag@.subrange(0, k as int),
        decreases 16 - k,
    {
        buf.push(tag[k]);
        proof {
            assert(buf@ =~= base + tag@.subrange(0, k + 1));
        }
        k = k + 1;
    }
    proof {
        assert(buf@ =~= base + tag@);
        assert(buf@ =~= adj.subrange(0, h as int) + sealed);
        assert(buf@ == seal_transform(key@, old(buf)@, version));
        if version == 4 {
            assert(be16(buf@, 2) == be16(adj, 2));
            lemma_upd_be16_read(old(buf)@, version);
        } else {
            assert(be16(buf@, 4) == be16(adj, 4));
            lemma_upd_be16_read(old(buf)@, version);
        }
    }
}

/// Opens a sealed packet in place: adjusts the header length field back,
/// decrypts and verifies the payload, and cuts the tag off the end.  On
/// an authentication failure the packet must be dropped: the error is
/// returned and nothing of the payload can be relied on.
pub fn decrypt(key: &Vec<u8>, buf: &mut Vec<u8>, version: u8) -> (r: Result<(), Error>)
    requires
        key@.len() == 32,
        version == 4 || version == 6,
        version == 4 ==> ipv4_parseable(old(buf)@) && be16(old(buf)@, 2) >= 16,
        version == 6 ==> ipv6_parseable(old(buf)@) && be16(old(buf)@, 4) >= 16,
        old(buf)@.len() >= header_len_of(old(buf)@, version) + 16,
    ensures
        r is Ok <==> open_transform(key@, old(buf)@, version) is Some,
        r is Ok ==> Some(final(buf)@) == open_transform(key@, old(buf)@, version),
        r is Ok ==> final(buf)@.len() == old(buf)@.len() - 16,
        r is Ok ==> {
            let h = header_len_of(old(buf)@, version);
            configure_header_spec(old(buf)@, version, false).subrange(
                h,
                old(buf)@.len() as int,
            ) == gcm_seal(key@, final(buf)@.subrange(h, old(buf)@.len() - 16))
        },
        r is Err ==> final(buf)@.len() == old(buf)@.len(),
{
    let n: usize = buf.len();
    let h: usize = configure_header(buf, version, false);
    let ghost adj = buf@;
    let res = aead_open_range(key, buf, h, n);
    match res {
        Ok(_) => {
            let ghost pt = buf@.subrange(h as int, n - 16);
            buf.truncate(n - TAG_LEN);
            proof {
                assert(buf@ =~= adj.subrange(0, h as int) + pt);
                assert(buf@.subrange(h as int, n - 16) =~= pt);
            }
            Ok(())
        },
        Err(e) => Err(e),
    }
}

/// Sealing grows the header-stated length field by exactly the tag
/// length: the IPv4 total length, or the IPv6 payload length, reads back
/// as its old value plus 16.  So a packet whose field held its own byte
/// count `n` states `n + 16` once sealed, and `n - 40 + 16` for the IPv6
/// payload form.  Opening restores the original field exactly:
/// `lemma_open_of_seal`.
pub proof fn lemma_seal_length_field(key: Seq<u8>, b: Seq<u8>, version: u8)
    requires
        version == 4 || version == 6,
        version == 4 ==> ipv4_parseable(b) && be16(b, 2) + 16 <= 0xffff,
        version == 6 ==> ipv6_parseable(b) && be16(b, 4) + 16 <= 0xffff,
    ensures
        version == 4 ==> be16(seal_transform(key, b, version), 2) == be16(b, 2) + 16,
        version == 6 ==> be16(seal_transform(key, b, version), 4) == be16(b, 4) + 16,
{
    let h = header_len_of(b, version);
    let adj = configure_header_spec(b, version, true);
    let d = seal_transform(key, b, version);
    lemma_upd_be16_read(b, version);
    let off: int = if version == 4 {
        2int
    } else {
        4int
    };
    assert(d[off] == adj[off] && d[off + 1] == adj[off + 1]);
}

/// Opening undoes sealing byte for byte.  For any packet whose stored
/// IPv4 checksum is the one `set_header_checksum` writes — as every
/// header that passed through the engine has — and whose length field has
/// room for the tag, the opened form of the sealed form is the packet
/// itself, header included.  The cipher's own round trip is what every
/// call of the sealing wrapper establishes.
pub proof fn lemma_open_of_seal(key: Seq<u8>, b: Seq<u8>, version: u8)
    requires
        version == 4 || version == 6,
        version == 4 ==> ipv4_parseable(b) && be16(b, 2) + 16 <= 0xffff
            && ipv4_checksum_canonical(b),
        version == 6 ==> ipv6_parseable(b) && be16(b, 4) + 16 <= 0xffff,
        b.len() >= header_len_of(b, version),
        cipher_roundtrip(
            key,
            configure_header_spec(b, version, true).subrange(
                header_len_of(b, version),
                b.len() as int,
            ),
        ),
    ensures
        open_transform(key, seal_transform(key, b, version), version) == Some(b),
{
    let h = header_len_of(b, version);
    let adj_e = configure_header_spec(b, version, true);
    let pt_e = adj_e.subrange(h, b.len() as int);
    let d = seal_transform(key, b, version);
    let sealed = gcm_seal(key, pt_e);
    assert(d.len() == b.len() + 16);
    assert(d[0] == adj_e[0]);
    assert(adj_e[0] == b[0]);
    assert(header_len_of(d, version) == h);
    lemma_upd_be16_read(b, version);
    let off: int = if version == 4 {
        2int
    } else {
        4int
    };
    assert(be16(d, off) == be16(adj_e, off)) by {
        assert(d[off] == adj_e[off] && d[off + 1] == adj_e[off + 1]);
    }
    assert(be16(d, off) == be16(b, off) + 16);
    let vo: int = b[off] as int;
    let vo1: int = b[off + 1] as int;
    assert((vo * 0x100 + vo1) / 0x100 == vo && (vo * 0x100 + vo1) % 0x100 == vo1)
        by (nonlinear_arith)
        requires
            0 <= vo < 0x100,
            0 <= vo1 < 0x100,
    ;
    assert(be16(b, off) == vo * 0x100 + vo1);
    let adj_d = configure_header_spec(d, version, false);
    assert(adj_d.subrange(h, d.len() as int) =~= sealed) by {
        assert(forall|i: int| h <= i < d.len() ==> adj_d[i] == d[i]);
        assert(forall|i: int| h <= i < d.len() ==> d[i] == sealed[i - h]);
    }
    assert(gcm_open(key, sealed) == Some(pt_e));
    let opened = adj_d.subrange(0, h) + pt_e;
    assert(open_transform(key, d, version) == Some(opened));
    assert(pt_e =~= b.subrange(h, b.len() as int));
    if version == 4 {
        let hdr_b = b.subrange(0, h);
        let restored = upd_be16(d, 2, be16(b, 2));
        assert(adj_d == stored_checksum(restored, h));
        assert(restored.subrange(0, h) =~= hdr_b.update(10, adj_e[10]).update(11, adj_e[11]));
        crate::checksum::lemma_sum_skip_ignores_checksum_field(hdr_b, adj_e[10], adj_e[11], 0);
        assert(crate::checksum::checksum_of(restored.subrange(0, h))
            == crate::checksum::checksum_of(hdr_b));
        assert(adj_d.subrange(0, h) =~= hdr_b);
        assert(opened =~= b);
    } else {
        assert(adj_d.subrange(0, h) =~= b.subrange(0, h));
        assert(opened =~= b);
    }
}

/// The stored IPv4 checksum is the canonical one: exactly the value
/// `set_header_checksum` writes for this header.
pub open spec fn ipv4_checksum_canonical(b: Seq<u8>) -> bool {
    let c = crate::checksum::checksum_of(b.subrange(0, ipv4_hlen(b)));
    b[10] == (c / 0x100) as u8 && b[11] == (c % 0x100) as u8
}

/// Reading back the length field that `configure_header_spec` stored for
/// sealing yields the grown value.
proof fn lemma_upd_be16_read(b: Seq<u8>, version: u8)
    requires
        version == 4 || version == 6,
        version == 4 ==> ipv4_parseable(b) && be16(b, 2) + 16 <= 0xffff,
        version == 6 ==> ipv6_parseable(b) && be16(b, 4) + 16 <= 0xffff,
    ensures
        version == 4 ==> be16(configure_header_spec(b, version, true), 2) == be16(b, 2) + 16,
        version == 6 ==> be16(configure_header_spec(b, version, true), 4) == be16(b, 4) + 16,
{
    let off: int = if version == 4 {
        2
    } else {
        4
    };
    let v: int = be16(b, off) + 16;
    let u = upd_be16(b, off, v);
    assert(0 <= v <= 0xffff);
    assert(u[off] == (v / 0x100) as u8 && u[off + 1] == (v % 0x100) as u8);
    assert(v / 0x100 * 0x100 + v % 0x100 == v) by {
        vstd::arithmetic::div_mod::lemma_fundamental_div_mod(v, 0x100);
    }
    assert(0 <= v / 0x100 < 0x100);
    assert(be16(u, off) == v);
}

} // verus!
