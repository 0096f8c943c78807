use scapegoat::Rc4;

#[test]
fn sanity_check_static_api() {
    let key: [u8; 16] = [
        0x4b, 0x8e, 0x29, 0x87, 0x80, 0x95, 0x96, 0xa3, 0xbb, 0x23, 0x82, 0x49, 0x9f, 0x1c, 0xe7, 0xc2,
    ];
    let plaintext = [
        0x48, 0x65, 0x6c, 0x6c, 0x6f, 0x20, 0x57, 0x6f, 0x72, 0x6c, 0x64, 0x21,
    ]; // "Hello World!"
    let mut msg: [u8; 12] = plaintext.clone();
    println!("Plaintext (initial): {}", String::from_utf8(msg.to_vec()).unwrap());
    Rc4::apply_keystream_static(&key, &mut msg);
    assert_ne!(msg, plaintext);
    println!("Ciphertext: {:x?}", msg);
    Rc4::apply_keystream_static(&key, &mut msg);
    assert_eq!(msg, plaintext);
    println!("Plaintext (decrypted): {}", String::from_utf8(msg.to_vec()).unwrap());
}

#[test]
fn sanity_check_non_static_api() {
    let key: [u8; 16] = [
        0x4b, 0x8e, 0x29, 0x87, 0x80, 0x95, 0x96, 0xa3, 0xbb, 0x23, 0x82, 0x49, 0x9f, 0x1c, 0xe7, 0xc2,
    ];
    let plaintext_1 = [0x48, 0x65, 0x6c, 0x6c, 0x6f]; // "Hello"
    let plaintext_2 = [0x20, 0x57, 0x6f, 0x72, 0x6c, 0x64, 0x21]; // " World!"
    let mut msg_1 = plaintext_1.clone();
    let mut msg_2 = plaintext_2.clone();
    let mut rc4 = Rc4::new(&key);
    rc4.apply_keystream(&mut msg_1);
    rc4.apply_keystream(&mut msg_2);
    assert_ne!(msg_1, plaintext_1);
    assert_ne!(msg_2, plaintext_2);
    let mut rc4 = Rc4::new(&key);
    rc4.apply_keystream(&mut msg_1);
    rc4.apply_keystream(&mut msg_2);
    assert_eq!(msg_1, plaintext_1);
    assert_eq!(msg_2, plaintext_2);
}

// Test vectors of RFC 6229, section 2.
#[test]
fn ietf_40_bit_key_first_4_vectors() {
    let key: [u8; 5] = [0x01, 0x02, 0x03, 0x04, 0x5];
    let mut out_buf: [u8; 272] = [0x0; 272];
    let test_stream_0: [u8; 16] = [
        0xb2, 0x39, 0x63, 0x05, 0xf0, 0x3d, 0xc0, 0x27, 0xcc, 0xc3, 0x52, 0x4a, 0x0a, 0x11, 0x18, 0xa8,
    ];
    let test_stream_16: [u8; 16] = [
        0x69, 0x82, 0x94, 0x4f, 0x18, 0xfc, 0x82, 0xd5, 0x89, 0xc4, 0x03, 0xa4, 0x7a, 0x0d, 0x09, 0x19,
    ];
    let test_stream_240: [u8; 16] = [
        0x28, 0xcb, 0x11, 0x32, 0xc9, 0x6c, 0xe2, 0x86, 0x42, 0x1d, 0xca, 0xad, 0xb8, 0xb6, 0x9e, 0xae,
    ];
    let test_stream_256: [u8; 16] = [
        0x1c, 0xfc, 0xf6, 0x2b, 0x03, 0xed, 0xdb, 0x64, 0x1d, 0x77, 0xdf, 0xcf, 0x7f, 0x8d, 0x8c, 0x93,
    ];
    let mut rc4 = Rc4::new(&key);
    rc4.apply_keystream(&mut out_buf);
    assert_eq!(out_buf[0..16], test_stream_0);
    assert_eq!(out_buf[16..32], test_stream_16);
    assert_eq!(out_buf[240..256], test_stream_240);
    assert_eq!(out_buf[256..272], test_stream_256);
}

#[test]
fn prga_first_byte_matches_vector() {
    let key: [u8; 5] = [0x01, 0x02, 0x03, 0x04, 0x5];
    let mut rc4 = Rc4::new(&key);
    assert_eq!(rc4.prga_next(), 0xb2);
    assert_eq!(rc4.prga_next(), 0x39);
}

#[test]
fn keystream_continues_across_calls() {
    let key: [u8; 5] = [0x01, 0x02, 0x03, 0x04, 0x5];
    let mut whole = [0u8; 32];
    Rc4::new(&key).apply_keystream(&mut whole);
    let mut a = [0u8; 16];
    let mut b = [0u8; 16];
    let mut rc4 = Rc4::new(&key);
    rc4.apply_keystream(&mut a);
    rc4.apply_keystream(&mut b);
    assert_eq!(whole[0..16], a);
    assert_eq!(whole[16..32], b);
}
