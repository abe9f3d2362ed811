use vstd::prelude::*;
use vstd::slice::{slice_index_get, slice_subrange};

verus! {

/// Why an allocation was refused.
#[derive(Clone, Copy, PartialEq, Eq, Structural, Debug)]
pub enum ArenaError {
    /// The request does not fit below the capacity the arena was made with.
    OutOfCapacity,
}

/// Where a run of allocated bytes lies: the offset of its first byte and its length.
#[derive(Clone, Copy, PartialEq, Eq, Structural, Debug)]
pub struct Span {
    pub offset: u32,
    pub len: u32,
}

impl Span {
    /// The span lies within the first `used` bytes.
    pub open spec fn within(self, used: nat) -> bool {
        self.offset + self.len <= used
    }

    /// The bytes of `bytes` that the span covers.
    pub open spec fn of(self, bytes: Seq<u8>) -> Seq<u8> {
        bytes.subrange(self.offset as int, self.offset + self.len)
    }
}

/// Bytes appended to an arena leave what every earlier span covers as it was.
pub proof fn lemma_span_stable(span: Span, bytes: Seq<u8>, more: Seq<u8>)
    requires
        span.within(bytes.len()),
    ensures
        span.of(bytes + more) == span.of(bytes),
{
    assert(span.of(bytes + more) =~= span.of(bytes));
}

/// An append-only byte region of fixed capacity. Storage is handed out by
/// bumping a cursor; nothing is ever moved or given back, so an offset stays
/// valid for the arena's lifetime.
pub struct Arena {
    buf: Vec<u8>,
    capacity: u32,
}

/// The bytes skipped so that an allocation at `cursor` starts on a multiple
/// of `align`. An alignment of 0 or 1 skips nothing.
pub open spec fn padding(cursor: nat, align: nat) -> nat {
    if align <= 1 || cursor % align == 0 {
        0
    } else {
        (align - cursor % align) as nat
    }
}

/// `count` zero bytes.
pub open spec fn zeros(count: nat) -> Seq<u8> {
    Seq::new(count, |i: int| 0u8)
}

/// `bytes` with `data` written over the positions from `offset` on.
pub open spec fn overwrite(bytes: Seq<u8>, offset: int, data: Seq<u8>) -> Seq<u8> {
    Seq::new(
        bytes.len(),
        |i: int|
            if offset <= i < offset + data.len() {
                data[i - offset]
            } else {
                bytes[i]
            },
    )
}

impl View for Arena {
    type V = Seq<u8>;

    /// The bytes allocated so far; their number is the next free offset.
    closed spec fn view(&self) -> Seq<u8> {
        self.buf@
    }
}

impl Arena {
    /// The capacity fixed at construction.
    pub closed spec fn cap(&self) -> nat {
        self.capacity as nat
    }

    /// The cursor never passes the capacity.
    pub open spec fn wf(&self) -> bool {
        self@.len() <= self.cap()
    }

    /// Whether `size` bytes aligned to `align` still fit.
    pub open spec fn fits(&self, size: nat, align: nat) -> bool {
        self@.len() + padding(self@.len(), align) + size <= self.cap()
    }

    /// An empty arena that can hold `capacity` bytes.
    pub fn with_capacity(capacity: u32) -> (arena: Arena)
        ensures
            arena.wf(),
            arena@.len() == 0,
            arena.cap() == capacity,
    {
        Arena { buf: Vec::with_capacity(capacity as usize), capacity }
    }

    /// The capacity fixed at construction.
    pub fn capacity(&self) -> (capacity: u32)
        ensures
            capacity == self.cap(),
    {
        self.capacity
    }

    /// The next free offset: the number of bytes allocated so far.
    pub fn len(&self) -> (len: u32)
        requires
            self.wf(),
        ensures
            len == self@.len(),
    {
        self.buf.len() as u32
    }

    /// Reserves `size` zeroed bytes starting on a multiple of `align` and
    /// returns their offset. A request that does not fit is refused and
    /// leaves the arena as it was.
    pub fn allocate(&mut self, size: u32, align: u32) -> (result: Result<u32, ArenaError>)
        requires
            old(self).wf(),
        ensures
            final(self).wf(),
            final(self).cap() == old(self).cap(),
            match result {
                Ok(offset) => {
                    &&& old(self).fits(size as nat, align as nat)
                    &&& offset == old(self)@.len() + padding(old(self)@.len(), align as nat)
                    &&& final(self)@ == old(self)@ + zeros((offset - old(self)@.len()) as nat)
                        + zeros(size as nat)
                },
                Err(ArenaError::OutOfCapacity) => {
                    &&& !old(self).fits(size as nat, align as nat)
                    &&& final(self)@ == old(self)@
                },
            },
    {
        let cursor = self.buf.len() as u32;
        let pad: u32 = if align <= 1 || cursor % align == 0 {
            0
        } else {
            align - cursor % align
        };
        let free = self.capacity - cursor;
        if pad > free || size > free - pad {
            return Err(ArenaError::OutOfCapacity);
        }
        let total = pad + size;
        let mut filled: u32 = 0;
        while filled < total
            invariant
                filled <= total,
                cursor + total <= self.capacity,
                self.capacity == old(self).capacity,
                self.buf@ == old(self).buf@ + zeros(filled as nat),
                cursor == old(self).buf@.len(),
            decreases total - filled,
        {
            self.buf.push(0);
            filled += 1;
            assert(self.buf@ =~= old(self).buf@ + zeros(filled as nat));
        }
        assert(self.buf@ =~= old(self).buf@ + zeros(pad as nat) + zeros(size as nat));
        Ok(cursor + pad)
    }

    /// The bytes that are still free.
    pub open spec fn free(&self) -> nat {
        (self.cap() - self@.len()) as nat
    }

    /// The number of bytes that are still free.
    pub fn remaining(&self) -> (free: u32)
        requires
            self.wf(),
        ensures
            free == self.free(),
    {
        self.capacity - self.buf.len() as u32
    }

    /// Appends a copy of `data` and returns where it lies. Data that does
    /// not fit is refused and leaves the arena as it was.
    pub fn store(&mut self, data: &[u8]) -> (result: Result<Span, ArenaError>)
        requires
            old(self).wf(),
        ensures
            final(self).wf(),
            final(self).cap() == old(self).cap(),
            match result {
                Ok(span) => {
                    &&& data@.len() <= old(self).free()
                    &&& span.offset == old(self)@.len()
                    &&& span.len == data@.len()
                    &&& final(self)@ == old(self)@ + data@
                },
                Err(ArenaError::OutOfCapacity) => {
                    &&& data@.len() > old(self).free()
                    &&& final(self)@ == old(self)@
                },
            },
    {
        if data.len() > self.remaining() as usize {
            return Err(ArenaError::OutOfCapacity);
        }
        let len = data.len() as u32;
        match self.allocate(len, 1) {
            Ok(offset) => {
                self.write(offset, data);
                assert(self@ =~= old(self)@ + data@);
                Ok(Span { offset, len })
            },
            Err(error) => Err(error),
        }
    }

    /// The allocated bytes that `span` covers.
    pub fn read(&self, span: Span) -> (bytes: &[u8])
        requires
            span.within(self@.len()),
        ensures
            bytes@ == span.of(self@),
    {
        self.get(span.offset, span.len)
    }

    /// The `len` allocated bytes that start at `offset`.
    pub fn get(&self, offset: u32, len: u32) -> (bytes: &[u8])
        requires
            offset + len <= self@.len(),
        ensures
            bytes@ == self@.subrange(offset as int, offset + len),
    {
        let used = self.buf.len();
        assert(offset + len <= used);
        slice_subrange(self.buf.as_slice(), offset as usize, offset as usize + len as usize)
    }

    /// Writes `data` over the allocated bytes that start at `offset`. The
    /// arena neither grows nor shrinks.
    pub fn write(&mut self, offset: u32, data: &[u8])
        requires
            old(self).wf(),
            offset + data@.len() <= old(self)@.len(),
        ensures
            final(self).wf(),
            final(self).cap() == old(self).cap(),
            final(self)@ == overwrite(old(self)@, offset as int, data@),
    {
        let start = offset as usize;
        let used = self.buf.len();
        let mut idx: usize = 0;
        while idx < data.len()
            invariant
                idx <= data@.len(),
                used == self.buf@.len(),
                start + data@.len() <= self.buf@.len(),
                self.buf@.len() == old(self).buf@.len(),
                self.capacity == old(self).capacity,
                self.buf@ == overwrite(old(self).buf@, offset as int, data@.take(idx as int)),
                start == offset,
            decreases data@.len() - idx,
        {
            self.buf[start + idx] = *slice_index_get(data, idx);
            idx += 1;
            assert(self.buf@ =~= overwrite(
                old(self).buf@,
                offset as int,
                data@.take(idx as int),
            ));
        }
        assert(data@.take(idx as int) =~= data@);
    }
}

} // verus!
