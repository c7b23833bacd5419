use tunnel::engine::{Engine, TunVerdict};
use tunnel::net::SendRoute;
use tunnel::peers::{IpKey, OuterAddr};
use tunnel::tunerror::Error;

fn sample_udp_packet(
    src: [u8; 4],
    dst: [u8; 4],
    sport: u16,
    dport: u16,
    payload: &[u8],
) -> Vec<u8> {
    let builder = etherparse::PacketBuilder::ipv4(src, dst, 64).udp(sport, dport);
    let mut out = Vec::<u8>::with_capacity(builder.size(payload.len()));
    builder.write(&mut out, payload).unwrap();
    out
}

fn client(psk: &str, local: [u8; 4], site_port: u16) -> Engine {
    Engine::new(true, &psk.as_bytes().to_vec(), local.to_vec(), site_port)
}

fn server(psk: &str) -> Engine {
    Engine::new(false, &psk.as_bytes().to_vec(), vec![10, 0, 0, 1], 0)
}

fn v4key(a: [u8; 4]) -> IpKey {
    IpKey::V4(u32::from_be_bytes(a))
}

#[test]
fn s1_handshake_registers_client() {
    // Client 10.0.0.2 sends its handshake; the server learns the
    // mapping and keeps the packet off its TUN.
    let cl = client("", [10, 0, 0, 2], 8080);
    let hs = cl.client_handshake();
    assert_eq!(&hs[12..16], &[10, 0, 0, 2]);
    assert_eq!(&hs[16..20], &[0, 0, 0, 0]);
    assert_eq!(&hs[20..24], &[0, 1, 0, 1]);
    assert_eq!(hs[28], 1);

    let mut sv = server("");
    let from = OuterAddr { ip: u32::from_be_bytes([203, 0, 113, 9]), port: 41000 };
    let mut buf = hs.clone();
    let verdict = sv.handle_net(&mut buf, from).unwrap();
    assert_eq!(verdict, TunVerdict::Silent);
    let learned = sv.net.ip_map.as_ref().unwrap().get(v4key([10, 0, 0, 2]));
    assert_eq!(learned, Some(from));
}

#[test]
fn s2_echo_with_psk_and_tamper() {
    // Sealed traffic from a keyed client opens on the keyed server and
    // reaches its TUN; one flipped byte and the server drops it.
    let cl = client("secret", [10, 0, 0, 2], 8080);
    let pkt = sample_udp_packet([10, 0, 0, 2], [10, 0, 0, 1], 3000, 4000, b"ping");
    let mut wire = pkt.clone();
    // The client rewrites its source before sealing; traffic genuinely
    // from the TUN address is left as it is apart from the port slot.
    let route = cl.handle_tun(&mut wire);
    assert_eq!(route, SendRoute::Connected);
    assert_eq!(wire.len(), pkt.len() + 16);

    let mut sv = server("secret");
    let from = OuterAddr { ip: u32::from_be_bytes([198, 51, 100, 4]), port: 50000 };
    let mut buf = wire.clone();
    let verdict = sv.handle_net(&mut buf, from).unwrap();
    assert_eq!(verdict, TunVerdict::Write);
    assert_eq!(&buf[buf.len() - 4..], b"ping");

    for i in 20..wire.len() {
        let mut tampered = wire.clone();
        tampered[i] ^= 0x01;
        let mut sv2 = server("secret");
        let r = sv2.handle_net(&mut tampered, from);
        assert!(matches!(r, Err(Error::InvalidPacket)), "tampered byte {} accepted", i);
    }
}

#[test]
fn s3_server_demux_by_inner_destination() {
    // Two clients handshake; a TUN packet for 10.0.0.3 goes to the
    // second client's outer address only.
    let mut sv = server("");
    let a = OuterAddr { ip: u32::from_be_bytes([203, 0, 113, 9]), port: 41000 };
    let b = OuterAddr { ip: u32::from_be_bytes([203, 0, 113, 77]), port: 42000 };
    let mut hs1 = client("", [10, 0, 0, 2], 0).client_handshake();
    let mut hs2 = client("", [10, 0, 0, 3], 0).client_handshake();
    assert_eq!(sv.handle_net(&mut hs1, a).unwrap(), TunVerdict::Silent);
    assert_eq!(sv.handle_net(&mut hs2, b).unwrap(), TunVerdict::Silent);

    let mut out = sample_udp_packet([10, 0, 0, 1], [10, 0, 0, 3], 80, 3000, b"reply");
    let route = sv.handle_tun(&mut out);
    assert_eq!(route, SendRoute::Peer(b));
}

#[test]
fn s4_unknown_destination_is_dropped() {
    let mut sv = server("");
    let a = OuterAddr { ip: u32::from_be_bytes([203, 0, 113, 9]), port: 41000 };
    let mut hs = client("", [10, 0, 0, 2], 0).client_handshake();
    sv.handle_net(&mut hs, a).unwrap();
    let mut out = sample_udp_packet([10, 0, 0, 1], [10, 0, 0, 9], 80, 3000, b"lost");
    assert_eq!(sv.handle_tun(&mut out), SendRoute::Drop);
}

#[test]
fn s5_client_nat_rewrite_and_reverse() {
    // Inbound to port 54321: destination becomes 127.0.0.1:8080 and the
    // port slot records 54321; the next outbound packet has its source
    // port put back to 54321.
    let mut cl = client("", [10, 0, 0, 2], 8080);
    let mut inbound = sample_udp_packet([10, 0, 0, 1], [10, 0, 0, 2], 80, 54321, b"resp");
    let from = OuterAddr { ip: u32::from_be_bytes([198, 51, 100, 4]), port: 2000 };
    let verdict = cl.handle_net(&mut inbound, from).unwrap();
    assert_eq!(verdict, TunVerdict::Write);
    assert_eq!(&inbound[16..20], &[127, 0, 0, 1]);
    assert_eq!(((inbound[22] as u16) << 8) | inbound[23] as u16, 8080);
    assert_eq!(cl.port, 54321);

    let mut outbound = sample_udp_packet([127, 0, 0, 1], [10, 0, 0, 1], 8080, 80, b"req");
    let route = cl.handle_tun(&mut outbound);
    assert_eq!(route, SendRoute::Connected);
    assert_eq!(&outbound[12..16], &[10, 0, 0, 2]);
    assert_eq!(((outbound[20] as u16) << 8) | outbound[21] as u16, 54321);
}

#[test]
fn s6_non_ip_is_dropped_without_cipher() {
    // A first nibble of 0xF is neither 4 nor 6: refused before any
    // cipher work, inbound and outbound alike.
    let mut cl = client("secret", [10, 0, 0, 2], 8080);
    let mut junk = vec![0xF0u8; 64];
    let from = OuterAddr { ip: 1, port: 1 };
    let r = cl.handle_net(&mut junk, from);
    assert!(matches!(r, Err(Error::InvalidPacket)));
    assert_eq!(junk, vec![0xF0u8; 64]);

    let mut junk2 = vec![0xF0u8; 64];
    assert_eq!(cl.handle_tun(&mut junk2), SendRoute::Drop);
    assert_eq!(junk2, vec![0xF0u8; 64]);
}

#[test]
fn handshake_is_forwarded_on_client_side() {
    // Only the server holds handshakes back from the TUN.
    let mut cl = client("", [10, 0, 0, 2], 8080);
    let mut hs = client("", [10, 0, 0, 5], 0).client_handshake();
    let from = OuterAddr { ip: 7, port: 7 };
    // The client applies its NAT rewrite to it like to any IPv4 packet
    // and then hands it to the TUN.
    let verdict = cl.handle_net(&mut hs, from).unwrap();
    assert_eq!(verdict, TunVerdict::Write);
}

#[test]
fn server_learns_from_data_packets_too() {
    // Peer-map learning is not handshake-only: any accepted packet
    // updates the sender's return path, last writer wins.
    let mut sv = server("");
    let a1 = OuterAddr { ip: 11, port: 1111 };
    let a2 = OuterAddr { ip: 22, port: 2222 };
    let mut p1 = sample_udp_packet([10, 0, 0, 2], [10, 0, 0, 1], 5, 6, b"one");
    let mut p2 = sample_udp_packet([10, 0, 0, 2], [10, 0, 0, 1], 5, 6, b"two");
    sv.handle_net(&mut p1, a1).unwrap();
    assert_eq!(sv.net.ip_map.as_ref().unwrap().get(v4key([10, 0, 0, 2])), Some(a1));
    sv.handle_net(&mut p2, a2).unwrap();
    assert_eq!(sv.net.ip_map.as_ref().unwrap().get(v4key([10, 0, 0, 2])), Some(a2));
}

#[test]
fn short_ipv4_inbound_on_client_is_refused() {
    // A parseable IPv4 packet with no room for L4 ports cannot take the
    // NAT rewrite: the client drops it rather than read past its end.
    let mut cl = client("", [10, 0, 0, 2], 8080);
    let mut tiny = vec![0x45u8, 0, 0, 20, 0, 0, 0x40, 0, 64, 17, 0, 0, 1, 2, 3, 4, 5, 6, 7, 8];
    tunnel::packet::set_header_checksum(&mut tiny, 20);
    let from = OuterAddr { ip: 9, port: 9 };
    let r = cl.handle_net(&mut tiny, from);
    assert!(matches!(r, Err(Error::InvalidPacket)));
}
