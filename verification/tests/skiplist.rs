use memindex::error::Error;
use memindex::skiplist::list::Skiplist;

const ARENA_SIZE: u32 = 1 << 20;

fn new_value(v: usize) -> Vec<u8> {
    format!("{:05}", v).into_bytes()
}

/// The decimal digits of `v`, padded on the left with `0` to `width` bytes.
fn zero_padded(v: usize, width: usize) -> Vec<u8> {
    let digits = format!("{}", v).into_bytes();
    let mut bytes = vec![b'0'; width.saturating_sub(digits.len())];
    bytes.extend_from_slice(&digits);
    bytes
}

#[test]
fn test_empty() {
    let key = b"aaa".to_vec();
    let list = Skiplist::with_capacity(ARENA_SIZE);
    let v = list.get(&key);
    assert!(v.is_none());

    let mut iter = list.iter_ref();
    assert!(!iter.valid());
    iter.seek_to_first();
    assert!(!iter.valid());
    iter.seek_to_last();
    assert!(!iter.valid());
    iter.seek(&key);
    assert!(!iter.valid());
    assert!(list.is_empty());
}

#[test]
fn test_basic() {
    let mut list = Skiplist::with_capacity(ARENA_SIZE);
    let table: Vec<(&'static [u8], Vec<u8>)> = vec![
        (b"key1", new_value(42)),
        (b"key2", new_value(52)),
        (b"key3", new_value(62)),
        (b"key5", zero_padded(1, 102400)),
        (b"key4", new_value(72)),
    ];

    for (key, value) in &table {
        assert_eq!(list.put(key, value), Ok(()));
    }

    assert_eq!(list.get(b"key"), None);
    assert_eq!(list.len(), 5);
    assert!(!list.is_empty());
    for (key, value) in &table {
        assert_eq!(list.get(key), Some(&value[..]), "{}", String::from_utf8_lossy(key));
    }
}

fn check_basic(n: usize, cap: u32, value_len: usize) {
    let mut list = Skiplist::with_capacity(cap);
    let kvs: Vec<(Vec<u8>, Vec<u8>)> = (0..n)
        .map(|i| {
            (
                format!("{:05}", i).into_bytes(),
                zero_padded(i, value_len),
            )
        })
        .collect();
    for (k, v) in &kvs {
        assert_eq!(list.put(k, v), Ok(()));
    }
    for (k, v) in &kvs {
        let val = list.get(k);
        assert_eq!(val, Some(&v[..]), "{:?}", k);
    }
    assert_eq!(list.len(), n);
}

#[test]
fn test_concurrent_basic_small_value() {
    check_basic(1000, ARENA_SIZE, 5);
}

#[test]
fn test_concurrent_basic_big_value() {
    check_basic(100, 120 << 20, 1048576);
}

#[test]
fn test_one_key() {
    let n = 100;
    let mut list = Skiplist::with_capacity(ARENA_SIZE);
    let key = b"thekey";
    let mut mark = false;
    for i in 0..n {
        assert_eq!(list.put(key, &new_value(i)), Ok(()));
        let val = list.get(key);
        if val.is_none() {
            continue;
        }
        let s = String::from_utf8_lossy(val.unwrap());
        let val: usize = s.parse().unwrap();
        assert!(val < n);
        mark = true;
    }
    assert_eq!(list.len(), 1);
    assert!(mark);
}

#[test]
fn test_iterator_next() {
    let n = 100;
    let mut list = Skiplist::with_capacity(ARENA_SIZE);
    {
        let mut iter_ref = list.iter_ref();
        assert!(!iter_ref.valid());
        iter_ref.seek_to_first();
        assert!(!iter_ref.valid());
    }
    for i in (0..n).rev() {
        let key = format!("{:05}", i).into_bytes();
        assert_eq!(list.put(&key, &new_value(i)), Ok(()));
    }
    let mut iter_ref = list.iter_ref();
    iter_ref.seek_to_first();
    for i in 0..n {
        assert!(iter_ref.valid());
        let v = iter_ref.value();
        assert_eq!(*v, new_value(i)[..]);
        iter_ref.next();
    }
    assert!(!iter_ref.valid());
}

#[test]
fn test_iterator_prev() {
    let n = 100;
    let mut list = Skiplist::with_capacity(ARENA_SIZE);
    {
        let mut iter_ref = list.iter_ref();
        assert!(!iter_ref.valid());
        iter_ref.seek_to_last();
        assert!(!iter_ref.valid());
    }
    for i in (0..n).rev() {
        let key = format!("{:05}", i).into_bytes();
        assert_eq!(list.put(&key, &new_value(i)), Ok(()));
    }
    let mut iter_ref = list.iter_ref();
    iter_ref.seek_to_last();
    for i in (0..n).rev() {
        assert!(iter_ref.valid());
        let v = iter_ref.value();
        assert_eq!(*v, new_value(i)[..]);
        iter_ref.prev();
    }
    assert!(!iter_ref.valid());
}

#[test]
fn test_iterator_seek() {
    let n = 100;
    let mut list = Skiplist::with_capacity(ARENA_SIZE);
    {
        let mut iter_ref = list.iter_ref();
        assert!(!iter_ref.valid());
        iter_ref.seek_to_first();
        assert!(!iter_ref.valid());
    }
    for i in (0..n).rev() {
        let v = i * 10 + 1000;
        let key = format!("{:05}", v).into_bytes();
        assert_eq!(list.put(&key, &new_value(v)), Ok(()));
    }
    let mut iter_ref = list.iter_ref();
    iter_ref.seek_to_first();
    assert!(iter_ref.valid());
    assert_eq!(iter_ref.value(), b"01000" as &[u8]);

    let cases: Vec<(&[u8; 5], Option<&[u8; 5]>, Option<&[u8; 5]>)> = vec![
        (b"00000", Some(b"01000"), None),
        (b"01000", Some(b"01000"), Some(b"01000")),
        (b"01005", Some(b"01010"), Some(b"01000")),
        (b"01010", Some(b"01010"), Some(b"01010")),
        (b"99999", None, Some(b"01990")),
    ];
    for (key, seek_expect, for_prev_expect) in cases {
        iter_ref.seek(key);
        assert_eq!(iter_ref.valid(), seek_expect.is_some());
        if let Some(v) = seek_expect {
            assert_eq!(iter_ref.value(), &v[..]);
        }
        iter_ref.seek_for_prev(key);
        assert_eq!(iter_ref.valid(), for_prev_expect.is_some());
        if let Some(v) = for_prev_expect {
            assert_eq!(iter_ref.value(), &v[..]);
        }
    }
}

#[test]
fn put_of_a_present_key_replaces_the_value_and_keeps_the_length() {
    let mut list = Skiplist::with_capacity(ARENA_SIZE);
    assert_eq!(list.put(b"k", b"one"), Ok(()));
    assert_eq!(list.len(), 1);
    assert_eq!(list.put(b"k", b"one"), Ok(()));
    assert_eq!(list.len(), 1);
    assert_eq!(list.get(b"k"), Some(&b"one"[..]));
    assert_eq!(list.put(b"k", b"a longer value"), Ok(()));
    assert_eq!(list.len(), 1);
    assert_eq!(list.get(b"k"), Some(&b"a longer value"[..]));
}

#[test]
fn puts_of_two_keys_give_the_same_map_in_either_order() {
    let mut ab = Skiplist::with_capacity(ARENA_SIZE);
    assert_eq!(ab.put(b"a", b"1"), Ok(()));
    assert_eq!(ab.put(b"b", b"2"), Ok(()));
    let mut ba = Skiplist::with_capacity(ARENA_SIZE);
    assert_eq!(ba.put(b"b", b"2"), Ok(()));
    assert_eq!(ba.put(b"a", b"1"), Ok(()));
    for list in [&ab, &ba] {
        assert_eq!(list.get(b"a"), Some(&b"1"[..]));
        assert_eq!(list.get(b"b"), Some(&b"2"[..]));
        assert_eq!(list.len(), 2);
    }
}

#[test]
fn put_fails_exactly_when_the_arena_is_too_small() {
    let mut list = Skiplist::with_capacity(10);
    assert_eq!(list.put(b"abcd", b"123456"), Ok(()));
    assert_eq!(list.put(b"x", b""), Err(Error::CapacityExceeded));
    assert_eq!(list.put(b"abcd", b"1"), Err(Error::CapacityExceeded));
    assert_eq!(list.get(b"abcd"), Some(&b"123456"[..]));
    assert_eq!(list.get(b"x"), None);
    assert_eq!(list.len(), 1);

    let mut list = Skiplist::with_capacity(10);
    assert_eq!(list.put(b"abcd", b"1234567"), Err(Error::CapacityExceeded));
    assert!(list.is_empty());
    assert_eq!(list.put(b"abcd", b"12345"), Ok(()));
    assert_eq!(list.put(b"abcd", b"9"), Ok(()));
    assert_eq!(list.put(b"abcd", b"8"), Err(Error::CapacityExceeded));
    assert_eq!(list.get(b"abcd"), Some(&b"9"[..]));
}

#[test]
fn empty_key_and_empty_value_are_stored() {
    let mut list = Skiplist::with_capacity(0);
    assert_eq!(list.get(b""), None);
    assert_eq!(list.put(b"", b""), Ok(()));
    assert_eq!(list.get(b""), Some(&b""[..]));
    assert_eq!(list.len(), 1);
    let mut iter = list.iter_ref();
    iter.seek_to_first();
    assert!(iter.valid());
    assert_eq!(iter.key(), &b""[..]);
}

#[test]
fn keys_come_out_in_byte_order_whatever_the_insertion_order() {
    let mut list = Skiplist::with_capacity(ARENA_SIZE);
    let keys: Vec<&[u8]> = vec![b"b", b"", b"ab", b"a", b"\xff", b"aa", b"b\x00", b"a\xff"];
    for (i, key) in keys.iter().enumerate() {
        assert_eq!(list.put(key, &new_value(i)), Ok(()));
    }
    let expected: Vec<&[u8]> = vec![b"", b"a", b"aa", b"ab", b"a\xff", b"b", b"b\x00", b"\xff"];
    let mut iter = list.iter_ref();
    iter.seek_to_first();
    for key in &expected {
        assert!(iter.valid());
        assert_eq!(iter.key(), *key);
        iter.next();
    }
    assert!(!iter.valid());
    iter.seek_to_last();
    for key in expected.iter().rev() {
        assert!(iter.valid());
        assert_eq!(iter.key(), *key);
        iter.prev();
    }
    assert!(!iter.valid());
}

#[test]
fn many_keys_keep_every_level_linked() {
    let mut list = Skiplist::with_capacity(ARENA_SIZE);
    let n: usize = 5000;
    for i in 0..n {
        let k = (i * 7919) % n;
        assert_eq!(list.put(format!("{:06}", k).as_bytes(), &new_value(k)), Ok(()));
    }
    assert_eq!(list.len(), n);
    for k in 0..n {
        assert_eq!(list.get(format!("{:06}", k).as_bytes()), Some(&new_value(k)[..]));
    }
    let mut iter = list.iter_ref();
    iter.seek(b"002500x");
    assert!(iter.valid());
    assert_eq!(iter.key(), &b"002501"[..]);
    iter.seek_for_prev(b"002500x");
    assert_eq!(iter.key(), &b"002500"[..]);
}

#[test]
fn four_keys_scenario() {
    let mut list = Skiplist::with_capacity(ARENA_SIZE);
    assert_eq!(list.put(b"key1", b"00042"), Ok(()));
    assert_eq!(list.put(b"key2", b"00052"), Ok(()));
    assert_eq!(list.put(b"key3", b"00062"), Ok(()));
    assert_eq!(list.put(b"key4", b"00072"), Ok(()));
    assert_eq!(list.get(b"key"), None);
    assert_eq!(list.len(), 4);
    assert_eq!(list.get(b"key2"), Some(&b"00052"[..]));
}
