use clawser_fetch::Seed;

#[test]
fn new_sets_every_field() {
    let s = Seed::new(1, 2, 3, 4, 5);
    assert_eq!(s.hw_seed, 1);
    assert_eq!(s.canvas_seed, 2);
    assert_eq!(s.webgl_seed, 3);
    assert_eq!(s.audio_seed, 4);
    assert_eq!(s.client_rects_seed, 5);
}

#[test]
fn to_hex_pads_each_field_to_sixteen_digits() {
    let s = Seed::new(1, 2, 3, 4, 5);
    assert_eq!(
        s.to_hex(),
        "00000000000000010000000000000002000000000000000300000000000000040000000000000005"
    );
}

#[test]
fn to_hex_uses_lowercase_digits() {
    let s = Seed::new(u64::MAX, 0xdeadbeef, 0, 0x0123456789abcdef, 0xfedcba9876543210);
    let h = s.to_hex();
    assert_eq!(h.len(), 80);
    assert_eq!(
        h,
        "ffffffffffffffff00000000deadbeef00000000000000000123456789abcdeffedcba9876543210"
    );
}

#[test]
fn from_hex_reads_back_to_hex() {
    let seeds = [
        Seed::new(0, 0, 0, 0, 0),
        Seed::new(1, 2, 3, 4, 5),
        Seed::new(u64::MAX, u64::MAX - 1, 1 << 63, 0xabcdef, 42),
        Seed::new(0x0123456789abcdef, 0xfedcba9876543210, 7, 8, 9),
    ];
    for s in seeds.iter() {
        assert_eq!(Seed::from_hex(&s.to_hex()), Some(*s));
    }
}

#[test]
fn from_hex_of_lowercase_string_gives_it_back() {
    let h = "0a1b2c3d4e5f6789ffffffffffffffff000000000000000012345678deadbeef00000000000000ff";
    let s = Seed::from_hex(h).unwrap();
    assert_eq!(s.hw_seed, 0x0a1b2c3d4e5f6789);
    assert_eq!(s.canvas_seed, u64::MAX);
    assert_eq!(s.webgl_seed, 0);
    assert_eq!(s.audio_seed, 0x12345678deadbeef);
    assert_eq!(s.client_rects_seed, 0xff);
    assert_eq!(s.to_hex(), h);
}

#[test]
fn from_hex_accepts_uppercase() {
    let h = "DEADBEEFDEADBEEF00000000000000010000000000000002000000000000000300000000000000AB";
    let s = Seed::from_hex(h).unwrap();
    assert_eq!(s, Seed::new(0xdeadbeefdeadbeef, 1, 2, 3, 0xab));
    assert_eq!(
        s.to_hex(),
        "deadbeefdeadbeef00000000000000010000000000000002000000000000000300000000000000ab"
    );
}

#[test]
fn from_hex_accepts_a_plus_sign_before_a_chunk() {
    let h = "+00000000000000f000000000000000200000000000000030000000000000004+00000000000000a";
    assert_eq!(Seed::from_hex(h), Some(Seed::new(15, 2, 3, 4, 10)));
}

#[test]
fn from_hex_refuses_wrong_length() {
    assert_eq!(Seed::from_hex(""), None);
    assert_eq!(Seed::from_hex("0000000000000001"), None);
    let long = format!("{}0", Seed::new(1, 2, 3, 4, 5).to_hex());
    assert_eq!(Seed::from_hex(&long), None);
    let short = &Seed::new(1, 2, 3, 4, 5).to_hex()[..79];
    assert_eq!(Seed::from_hex(short), None);
}

#[test]
fn from_hex_refuses_non_hex_digits() {
    let h = "000000000000000g0000000000000002000000000000000300000000000000040000000000000005";
    assert_eq!(Seed::from_hex(h), None);
    let h = "00000000000000010000000000000002000000000000000300000000000000040000000000000 05";
    assert_eq!(Seed::from_hex(h), None);
}

#[test]
fn from_hex_refuses_a_minus_sign() {
    let h = "-000000000000001000000000000000200000000000000030000000000000004000000000000000f";
    assert_eq!(Seed::from_hex(h), None);
}

#[test]
fn from_hex_refuses_non_ascii_inside_a_chunk() {
    // 78 ASCII bytes and one two-byte character: 80 bytes, every cut on a boundary.
    let h = format!("{}{}\u{e9}0", "0".repeat(64), "0".repeat(13));
    assert_eq!(h.len(), 80);
    assert_eq!(Seed::from_hex(&h), None);
}

#[test]
fn different_seeds_have_different_hex() {
    let a = Seed::new(1, 2, 3, 4, 5);
    let b = Seed::new(1, 2, 3, 4, 6);
    assert_ne!(a.to_hex(), b.to_hex());
}
