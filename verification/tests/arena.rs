use memindex::arena::{Arena, ArenaError, Span};

#[test]
fn allocate_bumps_the_cursor_and_zeroes_the_bytes() {
    let mut arena = Arena::with_capacity(16);
    assert_eq!(arena.capacity(), 16);
    assert_eq!(arena.len(), 0);
    assert_eq!(arena.remaining(), 16);
    assert_eq!(arena.allocate(3, 1), Ok(0));
    assert_eq!(arena.len(), 3);
    assert_eq!(arena.allocate(2, 1), Ok(3));
    assert_eq!(arena.len(), 5);
    assert_eq!(arena.get(0, 5), &[0u8; 5][..]);
    assert_eq!(arena.remaining(), 11);
}

#[test]
fn allocate_rounds_the_offset_up_to_the_alignment() {
    let mut arena = Arena::with_capacity(64);
    assert_eq!(arena.allocate(1, 8), Ok(0));
    assert_eq!(arena.allocate(4, 8), Ok(8));
    assert_eq!(arena.len(), 12);
    assert_eq!(arena.allocate(4, 4), Ok(12));
    assert_eq!(arena.allocate(1, 0), Ok(16));
    assert_eq!(arena.allocate(0, 16), Ok(32));
    assert_eq!(arena.len(), 32);
    assert_eq!(arena.allocate(2, 3), Ok(33));
    assert_eq!(arena.len(), 35);
}

#[test]
fn allocate_refuses_what_does_not_fit_and_changes_nothing() {
    let mut arena = Arena::with_capacity(10);
    assert_eq!(arena.allocate(11, 1), Err(ArenaError::OutOfCapacity));
    assert_eq!(arena.len(), 0);
    assert_eq!(arena.allocate(10, 1), Ok(0));
    assert_eq!(arena.allocate(1, 1), Err(ArenaError::OutOfCapacity));
    assert_eq!(arena.allocate(0, 1), Ok(10));
    assert_eq!(arena.len(), 10);

    let mut arena = Arena::with_capacity(10);
    assert_eq!(arena.allocate(5, 1), Ok(0));
    assert_eq!(arena.allocate(3, 8), Err(ArenaError::OutOfCapacity));
    assert_eq!(arena.len(), 5);
    assert_eq!(arena.allocate(2, 8), Ok(8));
    assert_eq!(arena.allocate(u32::MAX, u32::MAX), Err(ArenaError::OutOfCapacity));
    assert_eq!(arena.len(), 10);
}

#[test]
fn write_overwrites_in_place() {
    let mut arena = Arena::with_capacity(8);
    assert_eq!(arena.allocate(8, 1), Ok(0));
    arena.write(2, b"abc");
    assert_eq!(arena.get(0, 8), &[0, 0, b'a', b'b', b'c', 0, 0, 0][..]);
    arena.write(3, b"xyz99");
    assert_eq!(arena.get(0, 8), b"\x00\x00axyz99");
    assert_eq!(arena.get(3, 3), b"xyz");
    assert_eq!(arena.get(8, 0), b"");
    arena.write(8, b"");
    assert_eq!(arena.len(), 8);
}

#[test]
fn store_appends_a_copy_and_says_where_it_lies() {
    let mut arena = Arena::with_capacity(9);
    assert_eq!(arena.store(b"hello"), Ok(Span { offset: 0, len: 5 }));
    assert_eq!(arena.store(b""), Ok(Span { offset: 5, len: 0 }));
    assert_eq!(arena.store(b"four"), Ok(Span { offset: 5, len: 4 }));
    assert_eq!(arena.store(b"x"), Err(ArenaError::OutOfCapacity));
    assert_eq!(arena.read(Span { offset: 0, len: 5 }), b"hello");
    assert_eq!(arena.read(Span { offset: 5, len: 4 }), b"four");
    assert_eq!(arena.read(Span { offset: 3, len: 4 }), b"lofo");
    assert_eq!(arena.remaining(), 0);
}
