use memindex::keys::{compare_keys, KeyOrder};
use memindex::skiplist::height::{HeightGenerator, MAX_HEIGHT};

#[test]
fn keys_compare_byte_by_byte() {
    assert_eq!(compare_keys(b"", b""), KeyOrder::Equal);
    assert_eq!(compare_keys(b"", b"\x00"), KeyOrder::Less);
    assert_eq!(compare_keys(b"\x00", b""), KeyOrder::Greater);
    assert_eq!(compare_keys(b"abc", b"abc"), KeyOrder::Equal);
    assert_eq!(compare_keys(b"abc", b"abd"), KeyOrder::Less);
    assert_eq!(compare_keys(b"abd", b"abc"), KeyOrder::Greater);
    assert_eq!(compare_keys(b"ab", b"abc"), KeyOrder::Less);
    assert_eq!(compare_keys(b"abc", b"ab"), KeyOrder::Greater);
    assert_eq!(compare_keys(b"b", b"abc"), KeyOrder::Greater);
    assert_eq!(compare_keys(b"a\xff", b"b"), KeyOrder::Less);
    assert_eq!(compare_keys(b"\x7f", b"\x80"), KeyOrder::Less);
    assert_eq!(compare_keys(b"01005", b"01010"), KeyOrder::Less);
}

#[test]
fn key_order_agrees_with_slice_order() {
    let keys: Vec<&[u8]> = vec![b"", b"a", b"aa", b"ab", b"b", b"\xff", b"\xff\x00", b"key1", b"key"];
    for a in &keys {
        for b in &keys {
            let expected = if a < b {
                KeyOrder::Less
            } else if a == b {
                KeyOrder::Equal
            } else {
                KeyOrder::Greater
            };
            assert_eq!(compare_keys(a, b), expected);
        }
    }
}

#[test]
fn heights_follow_the_generator() {
    let mut generator = HeightGenerator::new(0x9E37_79B9);
    let heights: Vec<usize> = (0..12).map(|_| generator.next_height()).collect();
    assert_eq!(heights, vec![1, 1, 1, 1, 1, 1, 2, 1, 2, 2, 3, 1]);
    let mut generator = HeightGenerator::new(4);
    assert_eq!(generator.next_height(), 6);
    let mut generator = HeightGenerator::new(1);
    assert_eq!(generator.next_height(), 1);
}

#[test]
fn a_zero_seed_stands_for_the_default_seed() {
    let mut zero = HeightGenerator::new(0);
    let mut default = HeightGenerator::new(0x9E37_79B9);
    for _ in 0..100 {
        assert_eq!(zero.next_height(), default.next_height());
    }
}

#[test]
fn heights_stay_within_the_cap_and_one_in_four_climbs() {
    let mut generator = HeightGenerator::new(12345);
    let mut taller = 0;
    let n = 100_000;
    for _ in 0..n {
        let h = generator.next_height();
        assert!(1 <= h && h <= MAX_HEIGHT);
        if h > 1 {
            taller += 1;
        }
    }
    assert!(taller > n / 5 && taller < n * 3 / 10);
}
