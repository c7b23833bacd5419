use tunnel::packet::{
    change_address, change_address_and_port, create_handshake_packet, get_version,
    ipv4_header_len, is_handshake_packet, read_be_u32, set_header_checksum,
};

fn sample_udp_packet(
    src: [u8; 4],
    dst: [u8; 4],
    sport: u16,
    dport: u16,
    payload: &[u8],
) -> Vec<u8> {
    let builder = etherparse::PacketBuilder::ipv4(src, dst, 64).udp(sport, dport);
    let mut out = Vec::<u8>::with_capacity(builder.size(payload.len()));
    builder.write(&mut out, payload).unwrap();
    out
}

fn kernel_accepts_header(buf: &[u8]) -> bool {
    // The receiver's check: the one's-complement sum over the whole
    // header, stored checksum included, must complement to zero.
    let hlen = ((buf[0] & 0x0f) as usize) * 4;
    let mut sum: u32 = 0;
    let mut i = 0;
    while i < hlen {
        sum += ((buf[i] as u32) << 8) + buf[i + 1] as u32;
        i += 2;
    }
    while sum > 0xffff {
        sum = (sum & 0xffff) + (sum >> 16);
    }
    sum == 0xffff
}

#[test]
fn handshake_matches_packet_builder() {
    // The hand-built handshake must be byte-for-byte what the packet
    // builder produces for the same fields.
    let ip = vec![10u8, 0, 0, 2];
    let ours = create_handshake_packet(&ip);
    let builder = etherparse::PacketBuilder::ipv4([10, 0, 0, 2], [0, 0, 0, 0], 10).udp(1, 1);
    let payload = [1u8];
    let mut reference = Vec::<u8>::with_capacity(builder.size(payload.len()));
    builder.write(&mut reference, &payload).unwrap();
    assert_eq!(ours, reference);
}

#[test]
fn handshake_fields() {
    let ip = vec![10u8, 0, 0, 2];
    let pkt = create_handshake_packet(&ip);
    assert_eq!(pkt.len(), 29);
    assert_eq!(pkt[0], 0x45);
    assert_eq!(&pkt[12..16], &[10, 0, 0, 2]);
    assert_eq!(&pkt[16..20], &[0, 0, 0, 0]);
    assert_eq!(&pkt[20..26], &[0, 1, 0, 1, 0, 9]);
    assert_eq!(pkt[28], 1);
    assert!(is_handshake_packet(&pkt));
    assert!(kernel_accepts_header(&pkt));
}

#[test]
fn non_handshake_is_not_recognised() {
    let pkt = sample_udp_packet([10, 0, 0, 2], [10, 0, 0, 1], 1000, 2000, b"x");
    assert!(!is_handshake_packet(&pkt));
    let short = vec![0x45u8, 0, 0, 0];
    assert!(!is_handshake_packet(&short));
    let wrong_version = vec![0x65u8; 20];
    assert!(!is_handshake_packet(&wrong_version));
}

#[test]
fn version_and_header_len() {
    let pkt = sample_udp_packet([1, 2, 3, 4], [5, 6, 7, 8], 1, 2, b"hi");
    assert_eq!(get_version(&pkt), 4);
    assert_eq!(ipv4_header_len(&pkt), 20);
    let v6 = vec![0x60u8; 40];
    assert_eq!(get_version(&v6), 6);
}

#[test]
fn checksum_agrees_with_reference_parser() {
    // Recomputing the stored checksum must reproduce what the reference
    // packet builder stored.
    let pkt = sample_udp_packet([192, 168, 1, 1], [10, 0, 0, 7], 4242, 80, b"payload");
    let stored = ((pkt[10] as u16) << 8) | pkt[11] as u16;
    let computed = tunnel::checksum::compute_checksum(&pkt, 0, 20);
    assert_eq!(computed, stored);
}

#[test]
fn set_header_checksum_validates() {
    let mut pkt = sample_udp_packet([1, 1, 1, 1], [2, 2, 2, 2], 9, 9, b"abc");
    // Corrupt the checksum, then restore it.
    pkt[10] = 0xde;
    pkt[11] = 0xad;
    assert!(!kernel_accepts_header(&pkt));
    set_header_checksum(&mut pkt, 20);
    assert!(kernel_accepts_header(&pkt));
    let slice = etherparse::Ipv4HeaderSlice::from_slice(&pkt).unwrap();
    let expected = slice.to_header().calc_header_checksum();
    assert_eq!(((pkt[10] as u16) << 8) | pkt[11] as u16, expected);
}

#[test]
fn change_address_rewrites_and_fixes_checksum() {
    let mut pkt = sample_udp_packet([10, 0, 0, 2], [10, 0, 0, 1], 1000, 2000, b"data");
    let addr = vec![127u8, 0, 0, 1];
    change_address(&mut pkt, &addr, false);
    assert_eq!(&pkt[16..20], &[127, 0, 0, 1]);
    assert_eq!(&pkt[12..16], &[10, 0, 0, 2]);
    assert!(kernel_accepts_header(&pkt));
}

#[test]
fn change_address_is_idempotent() {
    let mut once = sample_udp_packet([10, 0, 0, 2], [10, 0, 0, 1], 7, 8, b"zz");
    let addr = vec![172u8, 16, 0, 9];
    change_address(&mut once, &addr, true);
    let mut twice = once.clone();
    change_address(&mut twice, &addr, true);
    assert_eq!(once, twice);
}

#[test]
fn change_address_and_port_returns_old_port() {
    let mut pkt = sample_udp_packet([10, 0, 0, 2], [10, 0, 0, 1], 1000, 54321, b"ping");
    let addr = vec![127u8, 0, 0, 1];
    let old = change_address_and_port(&mut pkt, &addr, 8080, false);
    assert_eq!(old, 54321);
    assert_eq!(&pkt[16..20], &[127, 0, 0, 1]);
    // Destination port is the second pair after the 20-byte header.
    assert_eq!(((pkt[22] as u16) << 8) | pkt[23] as u16, 8080);
    // Source side untouched.
    assert_eq!(((pkt[20] as u16) << 8) | pkt[21] as u16, 1000);
    assert!(kernel_accepts_header(&pkt));
}

#[test]
fn set_total_length_writes_big_endian() {
    let mut pkt = sample_udp_packet([1, 1, 1, 1], [2, 2, 2, 2], 3, 4, b"x");
    tunnel::packet::set_ipv4_total_length(&mut pkt, 0x1234);
    assert_eq!(pkt[2], 0x12);
    assert_eq!(pkt[3], 0x34);
}

#[test]
fn read_be_u32_reads_addresses() {
    let pkt = sample_udp_packet([10, 0, 0, 2], [192, 168, 7, 9], 1, 2, b"");
    assert_eq!(read_be_u32(&pkt, 12), u32::from_be_bytes([10, 0, 0, 2]));
    assert_eq!(read_be_u32(&pkt, 16), u32::from_be_bytes([192, 168, 7, 9]));
}

#[test]
fn tun_name_length_limit() {
    let ok = b"playtun".to_vec();
    assert!(tunnel::tunerror::validate_tun_name(&ok).is_ok());
    let too_long = b"a-very-long-name".to_vec();
    let e = tunnel::tunerror::validate_tun_name(&too_long).unwrap_err();
    assert!(matches!(e, tunnel::tunerror::Error::InvalidTunnelName));
}
