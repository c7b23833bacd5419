use tunnel::codec::{decrypt, derive_key, encrypt};

fn sample_udp_packet(
    src: [u8; 4],
    dst: [u8; 4],
    sport: u16,
    dport: u16,
    payload: &[u8],
) -> Vec<u8> {
    let builder = etherparse::PacketBuilder::ipv4(src, dst, 64).udp(sport, dport);
    let mut out = Vec::<u8>::with_capacity(builder.size(payload.len()));
    builder.write(&mut out, payload).unwrap();
    out
}

fn key32(psk: &str) -> Vec<u8> {
    derive_key(&psk.as_bytes().to_vec())
}

#[test]
fn derive_key_pads_with_zeros() {
    let key = key32("secret");
    assert_eq!(key.len(), 32);
    assert_eq!(&key[..6], b"secret");
    assert!(key[6..].iter().all(|&b| b == 0));
}

#[test]
fn seal_adjusts_length_field_and_checksum() {
    // Length consistency: the header-stated length field reads n + 16
    // after sealing, and the header still validates.
    let pkt = sample_udp_packet([10, 0, 0, 2], [10, 0, 0, 1], 5, 6, b"ping");
    let n = pkt.len();
    let key = key32("secret");
    let mut sealed = pkt.clone();
    encrypt(&key, &mut sealed, 4);
    assert_eq!(sealed.len(), n + 16);
    let stated = ((sealed[2] as usize) << 8) | sealed[3] as usize;
    assert_eq!(stated, n + 16);
    let slice = etherparse::Ipv4HeaderSlice::from_slice(&sealed).unwrap();
    let expected = slice.to_header().calc_header_checksum();
    assert_eq!(((sealed[10] as u16) << 8) | sealed[11] as u16, expected);
}

#[test]
fn seal_matches_direct_aead() {
    // The sealed bytes must be exactly what the cipher, keyed and nonced
    // the same way, produces on the adjusted packet.
    let pkt = sample_udp_packet([10, 0, 0, 2], [10, 0, 0, 1], 5, 6, b"check");
    let key = key32("secret");
    let mut ours = pkt.clone();
    encrypt(&key, &mut ours, 4);

    let mut reference = pkt.clone();
    let n = reference.len();
    let stated = ((reference[2] as u16) << 8) | reference[3] as u16;
    let new_len = (stated + 16).to_be_bytes();
    reference[2] = new_len[0];
    reference[3] = new_len[1];
    tunnel::packet::set_header_checksum(&mut reference, 20);
    let unbound =
        ring::aead::UnboundKey::new(&ring::aead::AES_256_GCM, &key).unwrap();
    let sealing = ring::aead::LessSafeKey::new(unbound);
    let nonce = ring::aead::Nonce::assume_unique_for_key([0, 0, 0, 0, 0, 0, 0, 0, 0, 0, 0, 1]);
    let tag = sealing
        .seal_in_place_separate_tag(nonce, ring::aead::Aad::empty(), &mut reference[20..n])
        .unwrap();
    reference.extend_from_slice(tag.as_ref());
    assert_eq!(ours, reference);
}

#[test]
fn open_of_seal_round_trips_ipv4() {
    // Round-trip: open(seal(P)) is P, byte for byte, header included.
    let pkt = sample_udp_packet([10, 0, 0, 2], [10, 0, 0, 1], 1234, 80, b"round trip");
    let key = key32("a 32 byte key padded from a psk");
    let mut buf = pkt.clone();
    encrypt(&key, &mut buf, 4);
    assert_ne!(&buf[20..pkt.len()], &pkt[20..], "payload must not stay in clear");
    decrypt(&key, &mut buf, 4).unwrap();
    assert_eq!(buf, pkt);
}

#[test]
fn open_of_seal_round_trips_ipv6() {
    let builder = etherparse::PacketBuilder::ipv6(
        [0xfd, 0, 0, 0, 0, 0, 0, 0, 0, 0, 0, 0, 0, 0, 0, 2],
        [0xfd, 0, 0, 0, 0, 0, 0, 0, 0, 0, 0, 0, 0, 0, 0, 1],
        64,
    )
    .udp(7, 9);
    let payload = b"sixes";
    let mut pkt = Vec::<u8>::with_capacity(builder.size(payload.len()));
    builder.write(&mut pkt, payload).unwrap();
    let key = key32("secret");
    let mut buf = pkt.clone();
    encrypt(&key, &mut buf, 6);
    assert_eq!(buf.len(), pkt.len() + 16);
    let stated = ((buf[4] as usize) << 8) | buf[5] as usize;
    assert_eq!(stated, pkt.len() - 40 + 16);
    decrypt(&key, &mut buf, 6).unwrap();
    assert_eq!(buf, pkt);
}

#[test]
fn tampering_any_sealed_byte_is_refused() {
    // Drop-on-tamper: flipping one bit of any ciphertext or tag byte
    // makes opening fail.
    let pkt = sample_udp_packet([10, 0, 0, 2], [10, 0, 0, 1], 5, 6, b"fragile");
    let key = key32("secret");
    let mut sealed = pkt.clone();
    encrypt(&key, &mut sealed, 4);
    for i in 20..sealed.len() {
        let mut tampered = sealed.clone();
        tampered[i] ^= 0x01;
        let mut buf = tampered.clone();
        let r = decrypt(&key, &mut buf, 4);
        assert!(r.is_err(), "byte {} tampered but the packet was accepted", i);
    }
}

#[test]
fn wrong_key_is_refused() {
    let pkt = sample_udp_packet([10, 0, 0, 2], [10, 0, 0, 1], 5, 6, b"whose");
    let key = key32("secret");
    let other = key32("wrong");
    let mut sealed = pkt.clone();
    encrypt(&key, &mut sealed, 4);
    assert!(decrypt(&other, &mut sealed, 4).is_err());
}
