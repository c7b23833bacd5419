//! The network endpoint's packet logic: what is sealed, where it goes,
//! what is accepted and what is learned.
//!
//! The socket itself lives outside the crate.  A client endpoint talks on
//! a connected socket and keeps no map; a server endpoint answers many
//! clients, learns each one's outer return path from the packets it
//! receives, and routes outbound packets by their inner destination.

use crate::codec::{
    cipher_roundtrip, configure_header_spec, decrypt, derive_key, encrypt, gcm_seal,
    header_len_of, open_transform, seal_transform,
};
use crate::packet::{
    be16, be_val, get_version, ip_version, ipv4_check, ipv4_parseable, ipv6_check,
    ipv6_parseable, read_be_u128, read_be_u32,
};
use crate::peers::{IpKey, OuterAddr, PeerMap};
use crate::tunerror::Error;
use vstd::prelude::*;

verus! {

/// Where one outbound packet goes: nowhere, out the client's connected
/// socket, or to one learned peer address.
#[derive(Clone, Copy, PartialEq, Eq, Structural, Debug)]
pub enum SendRoute {
    Drop,
    Connected,
    Peer(OuterAddr),
}

/// The inner source address of a packet, as a peer-map key.
pub open spec fn src_key(b: Seq<u8>) -> IpKey {
    if ip_version(b) == 4 {
        IpKey::V4(be_val(b, 12, 4) as u32)
    } else {
        IpKey::V6(be_val(b, 8, 16) as u128)
    }
}

/// The inner destination address of a packet, as a peer-map key.
pub open spec fn dest_key(b: Seq<u8>) -> IpKey {
    if ip_version(b) == 4 {
        IpKey::V4(be_val(b, 16, 4) as u32)
    } else {
        IpKey::V6(be_val(b, 24, 16) as u128)
    }
}

/// The packet parses for its own version: the demands a header parser
/// makes before the engine reads addresses out of it.
pub open spec fn wire_parseable(b: Seq<u8>) -> bool {
    if ip_version(b) == 4 {
        ipv4_parseable(b)
    } else {
        ipv6_parseable(b)
    }
}

/// The conditions under which a packet of version `v` can be sealed: it
/// fits the datagram ceiling, parses, and its stated length has room for
/// the tag.
pub open spec fn seal_pre(b: Seq<u8>, v: u8) -> bool {
    &&& b.len() <= 4096
    &&& (v == 4 ==> ipv4_parseable(b) && be16(b, 2) + 16 <= 0xffff)
    &&& (v == 6 ==> ipv6_parseable(b) && be16(b, 4) + 16 <= 0xffff)
}

/// The conditions under which a sealed packet of version `v` can be
/// opened: it parses, its stated length covers the tag, and the buffer
/// holds header plus at least a tag.
pub open spec fn open_pre(b: Seq<u8>, v: u8) -> bool {
    &&& (v == 4 ==> ipv4_parseable(b) && be16(b, 2) >= 16)
    &&& (v == 6 ==> ipv6_parseable(b) && be16(b, 4) >= 16)
    &&& b.len() >= header_len_of(b, v) + 16
}

/// One endpoint of the tunnel: the AEAD key (empty when the tunnel runs
/// in clear) and, on the server, the peer map.
pub struct Net {
    pub key: Vec<u8>,
    pub ip_map: Option<PeerMap>,
}

impl Net {
    /// The key is either absent or a full 32 bytes.
    pub open spec fn wf(self) -> bool {
        self.key@.len() == 0 || self.key@.len() == 32
    }

    /// A key is configured: packets are sealed and opened.
    pub open spec fn keyed(self) -> bool {
        self.key@.len() == 32
    }

    /// A client endpoint keeps no peer map.
    pub open spec fn is_client(self) -> bool {
        self.ip_map is None
    }

    /// The server's learned map.
    pub open spec fn peers(self) -> Map<IpKey, OuterAddr>
        recommends
            !self.is_client(),
    {
        self.ip_map->Some_0@
    }

    /// Builds an endpoint: the pre-shared secret, when one is given, is
    /// zero-padded into the 32-byte key; a server starts with an empty
    /// peer map.
    pub fn new(is_client: bool, psk: &Vec<u8>) -> (r: Net)
        requires
            psk@.len() <= 32,
        ensures
            r.wf(),
            r.is_client() == is_client,
            r.keyed() <==> psk@.len() > 0,
            !is_client ==> r.peers() == Map::<IpKey, OuterAddr>::empty(),
            r.keyed() ==> forall|i: int| 0 <= i < psk@.len() ==> r.key@[i] == psk@[i],
            r.keyed() ==> forall|i: int| psk@.len() <= i < 32 ==> r.key@[i] == 0,
    {
        let key: Vec<u8> = if psk.len() > 0 {
            derive_key(psk)
        } else {
            Vec::new()
        };
        let ip_map: Option<PeerMap> = if is_client {
            None
        } else {
            Some(PeerMap::new())
        };
        Net { key, ip_map }
    }

    /// Transforms one outbound packet and decides where it goes.  A
    /// non-IP or malformed packet is dropped untouched.  With a key the
    /// packet is sealed in place.  A client sends on its connected
    /// socket; the server looks the inner destination up in the peer map
    /// and drops packets for destinations it never learned.
    pub fn send(&self, buf: &mut Vec<u8>) -> (r: SendRoute)
        requires
            self.wf(),
        ensures
            ({
                let b = old(buf)@;
                let v = ip_version(b);
                let proceeds = b.len() >= 1 && (v == 4 || v == 6) && (self.keyed() ==> seal_pre(
                    b,
                    v,
                ));
                &&& final(buf)@ == if proceeds && self.keyed() {
                    seal_transform(self.key@, b, v)
                } else {
                    b
                }
                &&& !proceeds ==> r == SendRoute::Drop
                &&& proceeds && self.is_client() ==> r == SendRoute::Connected
                &&& proceeds && !self.is_client() ==> r == route_for(
                    self.peers(),
                    final(buf)@,
                ) && r == route_for(self.peers(), b)
                &&& proceeds && self.keyed() ==> cipher_roundtrip(
                    self.key@,
                    configure_header_spec(b, v, true).subrange(
                        header_len_of(b, v),
                        b.len() as int,
                    ),
                )
            }),
    {
        if buf.len() == 0 {
            return SendRoute::Drop;
        }
        let version: u8 = get_version(buf);
        if version != 4 && version != 6 {
            return SendRoute::Drop;
        }
        if self.key.len() > 0 {
            let ok: bool = if version == 4 {
                ipv4_check(buf) && buf.len() <= 4096 && read_be16_at(buf, 2) <= 0xffff - 16
            } else {
                ipv6_check(buf) && buf.len() <= 4096 && read_be16_at(buf, 4) <= 0xffff - 16
            };
            if !ok {
                return SendRoute::Drop;
            }
            proof {
                lemma_seal_preserves_addresses(self.key@, old(buf)@, version);
            }
            encrypt(&self.key, buf, version);
        }
        match &self.ip_map {
            None => SendRoute::Connected,
            Some(map) => {
                let routable: bool = if version == 4 {
                    ipv4_check(buf)
                } else {
                    ipv6_check(buf)
                };
                if !routable {
                    return SendRoute::Drop;
                }
                let dest: IpKey = if version == 4 {
                    IpKey::V4(read_be_u32(buf, 16))
                } else {
                    IpKey::V6(read_be_u128(buf, 24))
                };
                assert(dest == dest_key(buf@));
                match map.get(dest) {
                    Some(addr) => SendRoute::Peer(addr),
                    None => SendRoute::Drop,
                }
            },
        }
    }

    /// Accepts one inbound datagram from outer address `remote`.  A
    /// non-IP datagram, a malformed header, or a payload whose tag does
    /// not verify is refused — the caller drops it.  On the server, the
    /// inner source address of every accepted packet is recorded as
    /// living behind `remote`, overwriting what was there.
    pub fn recv(&mut self, buf: &mut Vec<u8>, remote: OuterAddr) -> (r: Result<(), Error>)
        requires
            old(self).wf(),
        ensures
            final(self).wf(),
            final(self).key@ == old(self).key@,
            final(self).is_client() == old(self).is_client(),
            ({
                let b = old(buf)@;
                let v = ip_version(b);
                let keyed = old(self).keyed();
                let key = old(self).key@;
                let opened = if keyed {
                    open_transform(key, b, v)->Some_0
                } else {
                    b
                };
                &&& (r is Ok <==> b.len() >= 1 && (v == 4 || v == 6) && (keyed ==> open_pre(b, v)
                    && open_transform(key, b, v) is Some) && (!old(self).is_client()
                    ==> wire_parseable(opened)))
                &&& r is Ok ==> final(buf)@ == opened
                &&& r is Ok && !old(self).is_client() ==> final(self).peers() == old(
                    self,
                ).peers().insert(src_key(opened), remote)
                &&& r is Ok && old(self).is_client() ==> final(self).peers() == old(self).peers()
                &&& r is Ok && keyed ==> configure_header_spec(b, v, false).subrange(
                    header_len_of(b, v),
                    b.len() as int,
                ) == gcm_seal(key, final(buf)@.subrange(header_len_of(b, v), b.len() - 16))
                &&& r is Err ==> final(self).ip_map == old(self).ip_map && final(buf)@.len()
                    == b.len()
                &&& r is Err ==> r == Err::<(), Error>(Error::InvalidPacket)
            }),
    {
        if buf.len() == 0 {
            return Err(Error::InvalidPacket);
        }
        let version: u8 = get_version(buf);
        if version != 4 && version != 6 {
            return Err(Error::InvalidPacket);
        }
        if self.key.len() > 0 {
            let pre_ok: bool = if version == 4 {
                ipv4_check(buf) && read_be16_at(buf, 2) >= 16
            } else {
                ipv6_check(buf) && read_be16_at(buf, 4) >= 16
            };
            let hlen: usize = if version == 4 {
                crate::packet::ipv4_header_len(buf)
            } else {
                40
            };
            if !pre_ok || buf.len() < hlen || buf.len() - hlen < 16 {
                return Err(Error::InvalidPacket);
            }
            match decrypt(&self.key, buf, version) {
                Ok(_) => {},
                Err(_) => {
                    return Err(Error::InvalidPacket);
                },
            }
        }
        match &mut self.ip_map {
            None => Ok(()),
            Some(map) => {
                let parse_ok: bool = if version == 4 {
                    ipv4_check(buf)
                } else {
                    ipv6_check(buf)
                };
                if !parse_ok {
                    return Err(Error::InvalidPacket);
                }
                let src: IpKey = if version == 4 {
                    IpKey::V4(read_be_u32(buf, 12))
                } else {
                    IpKey::V6(read_be_u128(buf, 8))
                };
                assert(src == src_key(buf@));
                map.insert(src, remote);
                Ok(())
            },
        }
    }
}

/// The route the server picks for a sealed outbound packet: to the peer
/// its inner destination was learned from, or nowhere.
pub open spec fn route_for(m: Map<IpKey, OuterAddr>, w: Seq<u8>) -> SendRoute {
    if wire_parseable(w) {
        if m.dom().contains(dest_key(w)) {
            SendRoute::Peer(m[dest_key(w)])
        } else {
            SendRoute::Drop
        }
    } else {
        SendRoute::Drop
    }
}

/// Sealing leaves the routing fields alone: the sealed form of a packet
/// still parses, has the same version, and carries the same inner source
/// and destination addresses, so the server demultiplexes sealed traffic
/// by the inner packet's own addresses.
pub proof fn lemma_seal_preserves_addresses(key: Seq<u8>, b: Seq<u8>, v: u8)
    requires
        v == 4 || v == 6,
        ip_version(b) == v,
        v == 4 ==> ipv4_parseable(b) && be16(b, 2) + 16 <= 0xffff,
        v == 6 ==> ipv6_parseable(b) && be16(b, 4) + 16 <= 0xffff,
    ensures
        ({
            let d = seal_transform(key, b, v);
            &&& ip_version(d) == v
            &&& wire_parseable(d)
            &&& src_key(d) == src_key(b)
            &&& dest_key(d) == dest_key(b)
        }),
{
    let h = header_len_of(b, v);
    let adj = configure_header_spec(b, v, true);
    let d = seal_transform(key, b, v);
    assert(d[0] == adj[0] && adj[0] == b[0]);
    assert(forall|j: int| 0 <= j < h ==> d[j] == adj[j]);
    if v == 4 {
        assert(forall|j: int| 12 <= j < 20 ==> adj[j] == b[j]);
        crate::packet::lemma_be_val_congruence(d, b, 12, 4);
        crate::packet::lemma_be_val_congruence(d, b, 16, 4);
    } else {
        assert(forall|j: int| 8 <= j < 40 ==> adj[j] == b[j]);
        crate::packet::lemma_be_val_congruence(d, b, 8, 16);
        crate::packet::lemma_be_val_congruence(d, b, 24, 16);
    }
}

/// Peer-map learning steers routing.  Once the server has accepted a
/// packet whose inner source is `x` from outer address `a`, an outbound
/// packet destined to inner address `x` is routed to `a`; and a
/// destination that was never learned is dropped.
pub proof fn lemma_peer_learning_route(m: Map<IpKey, OuterAddr>, w: Seq<u8>, x: IpKey, a: OuterAddr)
    requires
        wire_parseable(w),
        dest_key(w) == x,
    ensures
        route_for(m.insert(x, a), w) == SendRoute::Peer(a),
        !m.dom().contains(x) ==> route_for(m, w) == SendRoute::Drop,
{
}

/// Reads the big-endian 16-bit value at byte offset `off`.
fn read_be16_at(buf: &Vec<u8>, off: usize) -> (r: u16)
    requires
        off + 2 <= buf@.len(),
    ensures
        r == be16(buf@, off as int),
{
    let n: usize = buf.len();
    assert(off + 2 <= n);
    (buf[off] as u16) * 0x100 + (buf[off + 1] as u16)
}

} // verus!
