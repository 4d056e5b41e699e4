use rheaper::id::Id;

#[test]
fn empty_trace_has_the_initial_checksum() {
    assert_eq!(Id::new(&[]), Id(0));
}

#[test]
fn fingerprint_is_crc64_ecma_182_of_big_endian_bytes() {
    // The eight bytes of this pointer, most significant first, spell "12345678".
    assert_eq!(Id::new(&[0x3132333435363738]), Id(0x3732f4b6474a5a2b));
    // A single set low bit leaves the generator polynomial itself.
    assert_eq!(Id::new(&[1]), Id(0x42f0e1eba9ea3693));
    assert_eq!(Id::new(&[0x1000, 0x2000, 0x3000]), Id(0xcf720ca2d9f2b505));
    assert_eq!(Id::new(&[0x7f00deadbeef0010, 0x7f00deadbeef0020]), Id(0xda5dfd3116452be7));
}

#[test]
fn fingerprint_agrees_with_a_digest_fed_frame_by_frame() {
    let ips = [0x55d0_0000_1234u64, 0x55d0_0000_5678, 0x7fff_ffff_0000, 42];
    let crc = crc::Crc::<u64>::new(&crc::CRC_64_ECMA_182);
    let mut digest = crc.digest();
    for ip in ips {
        digest.update(&ip.to_be_bytes());
    }
    assert_eq!(Id::new(&ips).0, digest.finalize());
}

#[test]
fn fingerprint_depends_on_order_and_length() {
    assert_ne!(Id::new(&[0x1000, 0x2000]), Id::new(&[0x2000, 0x1000]));
    assert_eq!(Id::new(&[0x1000, 0x2000]), Id(0x711b3e97fb4d1497));
    assert_eq!(Id::new(&[0x1000]), Id(0xe7d5a9e877bc4408));
}
