use kadrs::key::Key;

#[test]
fn key_test_key_distance() {
    let key1 = Key::new([0, 0, 0, 0, 0, 0, 0, 0, 0, 0, 0, 0, 0, 0, 0, 0, 0, 0, 0, 0]);
    let key2 = Key::new([1, 0, 1, 0, 2, 0, 0, 0, 0, 0, 0, 0, 0, 0, 0, 0, 0, 0, 0, 0]);
    let d = key1.distance(&key2);

    assert_eq!(d, key2);
}

#[test]
fn test_most_significant_bit() {
    let key1 = Key::new([0, 0, 0, 0, 0, 0, 0, 0, 0, 0, 0, 0, 0, 0, 0, 0, 0, 0, 0, 0]);
    let key2 = Key::new([0, 0, 255, 0, 0, 0, 0, 0, 0, 0, 0, 0, 0, 0, 0, 0, 0, 0, 0, 0]);
    let key3 = Key::new([3, 0, 0, 0, 0, 0, 0, 0, 0, 0, 0, 0, 0, 0, 0, 0, 0, 0, 0, 0]);
    let key4 = Key::new([255, 0, 0, 0, 0, 0, 0, 0, 0, 0, 0, 0, 0, 0, 0, 0, 0, 0, 0, 0]);

    assert_eq!(key1.most_significant_bit(), 160);
    assert_eq!(key2.most_significant_bit(), 16);
    assert_eq!(key3.most_significant_bit(), 6);
    assert_eq!(key4.most_significant_bit(), 0);
}

#[test]
fn distance_is_symmetric_and_zero_on_self() {
    let a = Key::from("alpha");
    let b = Key::from("beta");
    assert_eq!(a.distance(&b), b.distance(&a));
    assert_eq!(a.distance(&a), Key::new([0; 20]));
    assert_ne!(a.distance(&b), Key::new([0; 20]));
}

#[test]
fn self_distance_has_full_prefix() {
    let a = Key::from("127.0.0.1:2000");
    assert_eq!(a.distance(&a).most_significant_bit(), 160);
}

#[test]
fn distance_xors_bytewise() {
    let a = Key::new([0xf0, 0x0f, 0, 0, 0, 0, 0, 0, 0, 0, 0, 0, 0, 0, 0, 0, 0, 0, 0, 0xff]);
    let b = Key::new([0x0f, 0x0f, 0, 0, 0, 0, 0, 0, 0, 0, 0, 0, 0, 0, 0, 0, 0, 0, 0, 0x01]);
    let d = a.distance(&b);
    assert_eq!(d, Key::new([0xff, 0, 0, 0, 0, 0, 0, 0, 0, 0, 0, 0, 0, 0, 0, 0, 0, 0, 0, 0xfe]));
    assert_eq!(d.most_significant_bit(), 0);
}

#[test]
fn most_significant_bit_in_last_byte() {
    let mut bytes = [0u8; 20];
    bytes[19] = 1;
    assert_eq!(Key::new(bytes).most_significant_bit(), 159);
}

#[test]
fn key_from_string_is_deterministic() {
    let a = Key::from("127.0.0.1:2000");
    let b = Key::from("127.0.0.1:2000");
    assert_eq!(a, b);
    assert_eq!(a.as_bytes(), b.as_bytes());
    assert_eq!(
        a.as_bytes(),
        [249, 184, 183, 37, 101, 93, 52, 164, 147, 40, 230, 89, 152, 91, 196, 57, 149, 202, 238, 197]
    );
}

#[test]
fn key_from_string_takes_sha256_prefix() {
    assert_eq!(
        Key::from("abc").as_bytes(),
        [186, 120, 22, 191, 143, 1, 207, 234, 65, 65, 64, 222, 93, 174, 34, 35, 176, 3, 97, 163]
    );
    assert_eq!(Key::hash(b"abc"), Key::from("abc"));
    assert_ne!(Key::from("abc"), Key::from("abd"));
}
