use scapegoat::rc4_checked::{Rc4, Rc4Error};

#[test]
fn test_new() {
    let key = [0x1, 0x2, 0x3];
    match Rc4::new(&key) {
        Ok(_rc4) => println!("Do en/decryption here!"),
        Err(e) => match e {
            Rc4Error::KeyTooShort(min) => println!("Key len >= {} bytes required!", min),
            Rc4Error::KeyTooLong(max) => println!("Key len <= {} bytes required!", max),
        },
    }
}

#[test]
fn short_key_is_refused() {
    assert!(matches!(Rc4::new(&[1, 2, 3]), Err(Rc4Error::KeyTooShort(5))));
}

#[test]
fn long_key_is_refused() {
    let key = [7u8; 257];
    assert!(matches!(Rc4::new(&key), Err(Rc4Error::KeyTooLong(256))));
}

#[test]
fn bounds_are_accepted() {
    assert!(Rc4::new(&[1u8; 5]).is_ok());
    assert!(Rc4::new(&[1u8; 256]).is_ok());
}

#[test]
fn checked_cipher_matches_vector() {
    let mut rc4 = Rc4::new(&[0x01, 0x02, 0x03, 0x04, 0x05]).unwrap();
    let mut buf = [0u8; 4];
    rc4.apply_keystream(&mut buf);
    assert_eq!(buf, [0xb2, 0x39, 0x63, 0x05]);
}
