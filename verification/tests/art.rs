use memindex::error::Error;
use memindex::radix::tree::Art;

#[test]
fn art_is_empty_at_first() {
    let art = Art::with_capacity(1 << 10);
    assert_eq!(art.get(b""), None);
    assert_eq!(art.get(b"a"), None);
    assert_eq!(art.get(b"key1"), None);
}

#[test]
fn art_gets_what_was_put() {
    let mut art = Art::with_capacity(1 << 20);
    assert_eq!(art.put(b"key1", b"00042"), Ok(()));
    assert_eq!(art.put(b"key2", b"00052"), Ok(()));
    assert_eq!(art.put(b"key3", b"00062"), Ok(()));
    assert_eq!(art.put(b"key4", b"00072"), Ok(()));
    assert_eq!(art.get(b"key"), None);
    assert_eq!(art.get(b"key2"), Some(&b"00052"[..]));
    assert_eq!(art.get(b"key1"), Some(&b"00042"[..]));
    assert_eq!(art.get(b"key4"), Some(&b"00072"[..]));
    assert_eq!(art.get(b"key5"), None);
    assert_eq!(art.get(b"key22"), None);
}

#[test]
fn art_tells_a_key_from_its_prefixes() {
    let mut art = Art::with_capacity(1 << 10);
    assert_eq!(art.put(b"abc", b"3"), Ok(()));
    assert_eq!(art.get(b""), None);
    assert_eq!(art.get(b"a"), None);
    assert_eq!(art.get(b"ab"), None);
    assert_eq!(art.get(b"abcd"), None);
    assert_eq!(art.put(b"a", b"1"), Ok(()));
    assert_eq!(art.put(b"", b"0"), Ok(()));
    assert_eq!(art.put(b"abcd", b"4"), Ok(()));
    assert_eq!(art.get(b""), Some(&b"0"[..]));
    assert_eq!(art.get(b"a"), Some(&b"1"[..]));
    assert_eq!(art.get(b"ab"), None);
    assert_eq!(art.get(b"abc"), Some(&b"3"[..]));
    assert_eq!(art.get(b"abcd"), Some(&b"4"[..]));
}

#[test]
fn art_put_replaces_the_value_of_a_present_key() {
    let mut art = Art::with_capacity(1 << 10);
    assert_eq!(art.put(b"k", b"one"), Ok(()));
    assert_eq!(art.put(b"k", b"two, longer"), Ok(()));
    assert_eq!(art.get(b"k"), Some(&b"two, longer"[..]));
    assert_eq!(art.put(b"k", b""), Ok(()));
    assert_eq!(art.get(b"k"), Some(&b""[..]));
}

#[test]
fn art_grows_its_nodes_through_every_class() {
    let mut art = Art::with_capacity(1 << 20);
    for b in 0..=255u8 {
        let key = [b'p', b, b'q'];
        assert_eq!(art.put(&key, &[b, b]), Ok(()));
        for seen in 0..=b {
            assert_eq!(art.get(&[b'p', seen, b'q']), Some(&[seen, seen][..]));
        }
        assert_eq!(art.get(&[b'p', b]), None);
    }
    for b in 0..=255u8 {
        assert_eq!(art.put(&[b], &[b]), Ok(()));
    }
    for b in 0..=255u8 {
        assert_eq!(art.get(&[b]), Some(&[b][..]));
        assert_eq!(art.get(&[b'p', b, b'q']), Some(&[b, b][..]));
    }
    assert_eq!(art.get(b"p"), Some(&b"p"[..]));
}

#[test]
fn art_put_fails_exactly_when_the_value_does_not_fit() {
    let mut art = Art::with_capacity(5);
    assert_eq!(art.put(b"a long key costs nothing", b"123456"), Err(Error::CapacityExceeded));
    assert_eq!(art.get(b"a long key costs nothing"), None);
    assert_eq!(art.put(b"a long key costs nothing", b"12345"), Ok(()));
    assert_eq!(art.put(b"b", b""), Ok(()));
    assert_eq!(art.put(b"b", b"x"), Err(Error::CapacityExceeded));
    assert_eq!(art.get(b"b"), Some(&b""[..]));
    assert_eq!(art.get(b"a long key costs nothing"), Some(&b"12345"[..]));
}

#[test]
fn art_holds_many_keys() {
    let mut art = Art::with_capacity(1 << 20);
    let n: usize = 3000;
    for i in 0..n {
        let k = (i * 7919) % n;
        assert_eq!(art.put(format!("{:05}", k).as_bytes(), format!("v{}", k).as_bytes()), Ok(()));
    }
    for k in 0..n {
        assert_eq!(art.get(format!("{:05}", k).as_bytes()), Some(format!("v{}", k).as_bytes()));
    }
    assert_eq!(art.get(b"03000"), None);
    assert_eq!(art.get(b"0300"), None);
}

#[test]
fn art_cursor_on_an_empty_trie_is_never_valid() {
    let art = Art::with_capacity(1 << 10);
    let mut iter = art.iter_ref();
    assert!(!iter.valid());
    iter.seek_to_first();
    assert!(!iter.valid());
    iter.seek_to_last();
    assert!(!iter.valid());
    iter.seek(b"aaa");
    assert!(!iter.valid());
    iter.seek_for_prev(b"aaa");
    assert!(!iter.valid());
}

#[test]
fn art_cursor_walks_forward_and_backward_in_byte_order() {
    let mut art = Art::with_capacity(1 << 20);
    let n = 100;
    for i in (0..n).rev() {
        let key = format!("{:05}", i).into_bytes();
        assert_eq!(art.put(&key, format!("{:05}", i).as_bytes()), Ok(()));
    }
    let mut iter = art.iter_ref();
    iter.seek_to_first();
    for i in 0..n {
        assert!(iter.valid());
        assert_eq!(iter.key(), format!("{:05}", i).as_bytes());
        assert_eq!(iter.value(), format!("{:05}", i).as_bytes());
        iter.next();
    }
    assert!(!iter.valid());
    iter.seek_to_last();
    for i in (0..n).rev() {
        assert!(iter.valid());
        assert_eq!(iter.value(), format!("{:05}", i).as_bytes());
        iter.prev();
    }
    assert!(!iter.valid());
}

#[test]
fn art_cursor_seeks_like_the_skip_list() {
    let mut art = Art::with_capacity(1 << 20);
    for i in (0..100).rev() {
        let v = i * 10 + 1000;
        let key = format!("{:05}", v).into_bytes();
        assert_eq!(art.put(&key, &key), Ok(()));
    }
    let cases: Vec<(&[u8; 5], Option<&[u8; 5]>, Option<&[u8; 5]>)> = vec![
        (b"00000", Some(b"01000"), None),
        (b"01000", Some(b"01000"), Some(b"01000")),
        (b"01005", Some(b"01010"), Some(b"01000")),
        (b"01010", Some(b"01010"), Some(b"01010")),
        (b"99999", None, Some(b"01990")),
    ];
    let mut iter = art.iter_ref();
    for (key, seek_expect, for_prev_expect) in cases {
        iter.seek(key);
        assert_eq!(iter.valid(), seek_expect.is_some());
        if let Some(v) = seek_expect {
            assert_eq!(iter.value(), &v[..]);
        }
        iter.seek_for_prev(key);
        assert_eq!(iter.valid(), for_prev_expect.is_some());
        if let Some(v) = for_prev_expect {
            assert_eq!(iter.value(), &v[..]);
        }
    }
}

#[test]
fn art_orders_prefixes_before_their_extensions() {
    let mut art = Art::with_capacity(1 << 10);
    let keys: Vec<&[u8]> = vec![b"b", b"", b"ab", b"a", b"\xff", b"aa", b"b\x00", b"a\xff"];
    for key in &keys {
        assert_eq!(art.put(key, key), Ok(()));
    }
    let expected: Vec<&[u8]> = vec![b"", b"a", b"aa", b"ab", b"a\xff", b"b", b"b\x00", b"\xff"];
    let mut iter = art.iter_ref();
    iter.seek_to_first();
    for key in &expected {
        assert!(iter.valid());
        assert_eq!(iter.key(), *key);
        iter.next();
    }
    assert!(!iter.valid());
    iter.seek_to_last();
    for key in expected.iter().rev() {
        assert!(iter.valid());
        assert_eq!(iter.key(), *key);
        iter.prev();
    }
    assert!(!iter.valid());
    assert_eq!(art.ceiling(b"a", false), Some(b"aa".to_vec()));
    assert_eq!(art.ceiling(b"a", true), Some(b"a".to_vec()));
    assert_eq!(art.ceiling(b"ac", true), Some(b"a\xff".to_vec()));
    assert_eq!(art.ceiling(b"\xff", false), None);
    assert_eq!(art.floor(b"a", false), Some(b"".to_vec()));
    assert_eq!(art.floor(b"", false), None);
    assert_eq!(art.floor(b"ac", true), Some(b"ab".to_vec()));
    assert_eq!(art.floor(b"b\x00\x00", true), Some(b"b\x00".to_vec()));
    assert_eq!(art.first_key(), Some(b"".to_vec()));
    assert_eq!(art.last_key(), Some(b"\xff".to_vec()));
}
