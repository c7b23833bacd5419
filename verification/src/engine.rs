//! The engine: what happens on each wake-up of the event loop.
//!
//! The loop itself — TUN reads and writes, UDP sends and receives, the
//! readiness wait — lives outside the crate and hands exact packet bytes
//! in.  The engine decides: inbound, open the datagram, learn the peer,
//! rewrite the client's NAT port, and say whether the packet may reach
//! the TUN; outbound, undo the NAT rewrite, seal, and say where to send.
//!
//! The client's single `port` slot remembers, from the last inbound IPv4
//! packet, the destination port that was rewritten to the site port, and
//! restores it on the next outbound packet.

use crate::codec::{configure_header_spec, header_len_of, open_transform, seal_transform};
use crate::net::{open_pre, route_for, seal_pre, src_key, Net, SendRoute};
use crate::packet::{
    be16, change_address_and_port, change_address_and_port_spec, create_handshake_packet,
    get_version, handshake_packet, ip_version, ipv4_check, ipv4_header_len, ipv4_hlen,
    ipv4_parseable, is_handshake, is_handshake_packet, l4_port_off,
};
use crate::peers::{IpKey, OuterAddr};
use crate::tunerror::Error;
use vstd::prelude::*;

verus! {

/// What the engine asks the loop to do with an accepted inbound packet.
#[derive(Clone, Copy, PartialEq, Eq, Structural, Debug)]
pub enum TunVerdict {
    /// Write the packet to the TUN device.
    Write,
    /// Keep it off the TUN: it was a handshake, already absorbed into
    /// the peer map.
    Silent,
}

/// What an inbound datagram opens to: its plaintext under the endpoint's
/// key, or the datagram itself when the tunnel runs in clear.
pub open spec fn opened_form(net: Net, b: Seq<u8>) -> Seq<u8> {
    if net.keyed() {
        open_transform(net.key@, b, ip_version(b))->Some_0
    } else {
        b
    }
}

/// The client-side NAT rewrite is possible: the packet parses as IPv4
/// and has room for the L4 ports after its header.
pub open spec fn rewrite_ok(b: Seq<u8>) -> bool {
    ipv4_parseable(b) && b.len() >= ipv4_hlen(b) + 4
}

/// One tunnel endpoint's engine state.
pub struct Engine {
    pub net: Net,
    pub is_client: bool,
    pub local_ip: Vec<u8>,
    pub host_port: u16,
    pub port: u16,
}

impl Engine {
    /// The engine is consistently put together: the endpoint matches the
    /// role and the inner address is four bytes.
    pub open spec fn wf(self) -> bool {
        &&& self.net.wf()
        &&& self.net.is_client() == self.is_client
        &&& self.local_ip@.len() == 4
    }

    /// Builds an engine.  `local_ip` is the TUN-side IPv4 address;
    /// `host_port` is the client's site port, the local service that
    /// tunnelled traffic is steered to; the NAT port slot starts at zero.
    pub fn new(is_client: bool, psk: &Vec<u8>, local_ip: Vec<u8>, host_port: u16) -> (r: Engine)
        requires
            psk@.len() <= 32,
            local_ip@.len() == 4,
        ensures
            r.wf(),
            r.is_client == is_client,
            r.net.keyed() <==> psk@.len() > 0,
            !is_client ==> r.net.peers() == Map::<IpKey, OuterAddr>::empty(),
            r.local_ip@ == local_ip@,
            r.host_port == host_port,
            r.port == 0,
    {
        let net = Net::new(is_client, psk);
        Engine { net, is_client, local_ip, host_port, port: 0 }
    }

    /// Builds and seals the client's handshake: the crafted packet from
    /// the TUN-side address to 0.0.0.0 that the loop sends first, so the
    /// server learns this client's return path.
    pub fn client_handshake(&self) -> (r: Vec<u8>)
        requires
            self.wf(),
            self.is_client,
        ensures
            r@ == if self.net.keyed() {
                seal_transform(self.net.key@, handshake_packet(self.local_ip@), 4)
            } else {
                handshake_packet(self.local_ip@)
            },
    {
        let mut pkt: Vec<u8> = create_handshake_packet(&self.local_ip);
        proof {
            let p = handshake_packet(self.local_ip@);
            assert(p[0] == 0x45 && p[2] == 0 && p[3] == 0x1d);
            assert(0x45u8 >> 4 == 4) by (bit_vector);
            assert(be16(p, 2) == 0x1d);
        }
        let route = self.net.send(&mut pkt);
        proof {
            assert(route == SendRoute::Connected);
        }
        pkt
    }

    /// Handles one inbound datagram from outer address `remote`: opens
    /// it, learns the peer (server), rewrites the destination to the
    /// loopback site port and remembers the old port (client), and says
    /// whether the result may be written to the TUN.  A handshake is
    /// never written to the server's TUN.  Refused packets are dropped
    /// by the caller.
    pub fn handle_net(&mut self, buf: &mut Vec<u8>, remote: OuterAddr) -> (r: Result<
        TunVerdict,
        Error,
    >)
        requires
            old(self).wf(),
        ensures
            final(self).wf(),
            final(self).net.key@ == old(self).net.key@,
            final(self).is_client == old(self).is_client,
            final(self).local_ip@ == old(self).local_ip@,
            final(self).host_port == old(self).host_port,
            ({
                let b = old(buf)@;
                let v = ip_version(b);
                let keyed = old(self).net.keyed();
                let key = old(self).net.key@;
                let opened = opened_form(old(self).net, b);
                let needs_rw = old(self).is_client && ip_version(opened) == 4;
                &&& (r is Ok <==> b.len() >= 1 && (v == 4 || v == 6) && (keyed ==> open_pre(b, v)
                    && open_transform(key, b, v) is Some) && (!old(self).is_client
                    ==> crate::net::wire_parseable(opened)) && (needs_rw ==> rewrite_ok(opened)))
                &&& r is Ok ==> final(buf)@ == if needs_rw {
                    change_address_and_port_spec(
                        opened,
                        seq![127u8, 0u8, 0u8, 1u8],
                        old(self).host_port,
                        false,
                    )
                } else {
                    opened
                }
                &&& r is Ok && needs_rw ==> final(self).port == be16(
                    opened,
                    l4_port_off(opened, false),
                )
                &&& r is Ok && !needs_rw ==> final(self).port == old(self).port
                &&& r is Ok && !old(self).is_client ==> final(self).net.peers()
                    == old(self).net.peers().insert(src_key(opened), remote)
                &&& r == Ok::<TunVerdict, Error>(TunVerdict::Write) ==> (old(self).is_client
                    || !is_handshake(final(buf)@))
                &&& r is Ok && !old(self).is_client ==> (r == Ok::<TunVerdict, Error>(
                    TunVerdict::Silent,
                ) <==> is_handshake(final(buf)@))
                &&& r is Ok && keyed ==> configure_header_spec(b, v, false).subrange(
                    header_len_of(b, v),
                    b.len() as int,
                ) == crate::codec::gcm_seal(key, opened.subrange(header_len_of(b, v), b.len() - 16))
                &&& r is Err ==> final(self).net.ip_map == old(self).net.ip_map
                    && final(self).port == old(self).port
            }),
    {
        let is_client: bool = self.is_client;
        let host_port: u16 = self.host_port;
        match self.net.recv(buf, remote) {
            Ok(_) => {},
            Err(e) => {
                return Err(e);
            },
        }
        if is_client && buf.len() >= 1 && get_version(buf) == 4 {
            let can_rewrite: bool = if ipv4_check(buf) {
                let hlen: usize = ipv4_header_len(buf);
                buf.len() >= hlen && buf.len() - hlen >= 4
            } else {
                false
            };
            if !can_rewrite {
                return Err(Error::InvalidPacket);
            }
            let loopback: Vec<u8> = loopback_addr();
            self.port = change_address_and_port(buf, &loopback, host_port, false);
        }
        if is_client {
            Ok(TunVerdict::Write)
        } else if is_handshake_packet(buf) {
            Ok(TunVerdict::Silent)
        } else {
            Ok(TunVerdict::Write)
        }
    }

    /// Handles one packet read from the TUN: on the client, restores the
    /// remembered port and the TUN-side source address that the inbound
    /// rewrite displaced; then seals the packet and decides where it
    /// goes, as `Net::send` does.
    pub fn handle_tun(&self, buf: &mut Vec<u8>) -> (r: SendRoute)
        requires
            self.wf(),
        ensures
            ({
                let b = old(buf)@;
                let needs_rw = self.is_client && b.len() >= 1 && ip_version(b) == 4;
                let rw_ok = !needs_rw || rewrite_ok(b);
                let m = if needs_rw && rw_ok {
                    change_address_and_port_spec(b, self.local_ip@, self.port, true)
                } else {
                    b
                };
                let v = ip_version(m);
                let proceeds = rw_ok && m.len() >= 1 && (v == 4 || v == 6) && (self.net.keyed()
                    ==> seal_pre(m, v));
                &&& final(buf)@ == if proceeds && self.net.keyed() {
                    seal_transform(self.net.key@, m, v)
                } else {
                    m
                }
                &&& needs_rw && rw_ok ==> be16(m, l4_port_off(m, true)) == self.port
                &&& !proceeds ==> r == SendRoute::Drop
                &&& proceeds && self.is_client ==> r == SendRoute::Connected
                &&& proceeds && !self.is_client ==> r == route_for(self.net.peers(), final(buf)@)
                    && r == route_for(self.net.peers(), m)
            }),
    {
        if self.is_client && buf.len() >= 1 && get_version(buf) == 4 {
            let can_rewrite: bool = if ipv4_check(buf) {
                let hlen: usize = ipv4_header_len(buf);
                buf.len() >= hlen && buf.len() - hlen >= 4
            } else {
                false
            };
            if !can_rewrite {
                return SendRoute::Drop;
            }
            let _old_port = change_address_and_port(buf, &self.local_ip, self.port, true);
            proof {
                lemma_rewrite_port_readback(old(buf)@, self.local_ip@, self.port, true);
            }
        }
        let ghost m = buf@;
        let route = self.net.send(buf);
        proof {
            let v = ip_version(m);
            if m.len() >= 1 && (v == 4 || v == 6) && self.net.keyed() && seal_pre(m, v)
                && !self.is_client {
                crate::net::lemma_seal_preserves_addresses(self.net.key@, m, v);
            }
        }
        route
    }
}

/// The loopback address 127.0.0.1 that the client steers tunnelled
/// traffic to.
fn loopback_addr() -> (r: Vec<u8>)
    ensures
        r@ =~= seq![127u8, 0u8, 0u8, 1u8],
{
    let mut v: Vec<u8> = Vec::new();
    v.push(127);
    v.push(0);
    v.push(0);
    v.push(1);
    v
}

/// The client's NAT rewrite is reversible.  Inbound, the destination
/// port `p` of a packet is displaced by the site port and `p` is what
/// `change_address_and_port` hands back — the value the engine stores in
/// its port slot.  Outbound, rewriting with that slot puts `p` back into
/// the source port field.  So for every inbound packet whose destination
/// port was rewritten from `p` to the site port, the next outbound
/// rewrite restores the source port from the site port to `p`.
pub proof fn lemma_nat_rewrite_reversible(
    b_in: Seq<u8>,
    site_port: u16,
    b_out: Seq<u8>,
    local: Seq<u8>,
)
    requires
        rewrite_ok(b_in),
        rewrite_ok(b_out),
        local.len() >= 4,
    ensures
        ({
            let p = be16(b_in, l4_port_off(b_in, false));
            let inb = change_address_and_port_spec(
                b_in,
                seq![127u8, 0u8, 0u8, 1u8],
                site_port,
                false,
            );
            let outb = change_address_and_port_spec(b_out, local, p as u16, true);
            &&& be16(inb, l4_port_off(inb, false)) == site_port
            &&& be16(outb, l4_port_off(outb, true)) == p
        }),
{
    let p = be16(b_in, l4_port_off(b_in, false));
    assert(0 <= p <= 0xffff);
    lemma_rewrite_port_readback(b_in, seq![127u8, 0u8, 0u8, 1u8], site_port, false);
    lemma_rewrite_port_readback(b_out, local, p as u16, true);
}

/// Reading the port field back from a rewritten packet yields the port
/// that was written: the address write, the port write and the checksum
/// store land on disjoint bytes, and the header length is unchanged.
pub proof fn lemma_rewrite_port_readback(b: Seq<u8>, a: Seq<u8>, port: u16, is_source: bool)
    requires
        rewrite_ok(b),
        a.len() >= 4,
    ensures
        ({
            let m = change_address_and_port_spec(b, a, port, is_source);
            &&& m.len() == b.len()
            &&& m[0] == b[0]
            &&& ipv4_hlen(m) == ipv4_hlen(b)
            &&& be16(m, l4_port_off(m, is_source)) == port
        }),
{
    let aoff: int = if is_source {
        12int
    } else {
        16int
    };
    let h: int = ipv4_hlen(b);
    let poff: int = l4_port_off(b, is_source);
    let m = change_address_and_port_spec(b, a, port, is_source);
    assert(m[0] == b[0]);
    assert(poff >= 20);
    let v: int = port as int;
    assert(m[poff] == (v / 0x100) as u8 && m[poff + 1] == (v % 0x100) as u8);
    assert(v / 0x100 * 0x100 + v % 0x100 == v) by {
        vstd::arithmetic::div_mod::lemma_fundamental_div_mod(v, 0x100);
    }
    assert(0 <= v / 0x100 < 0x100);
    assert(be16(m, poff) == v);
}

} // verus!
