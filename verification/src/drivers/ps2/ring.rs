//! The ring between the interrupt handler and the poller.

use vstd::prelude::*;

verus! {

/// Slots of the ring. One slot stays free, so that a full ring is told from an
/// empty one.
pub const RAW_CAPACITY: usize = 64;

/// A byte ring with one producer and one consumer.
pub struct SpScRing {
    buf: Vec<u8>,
    /// The slot that the producer writes next.
    head: usize,
    /// The slot that the consumer reads next.
    tail: usize,
}

impl View for SpScRing {
    type V = Seq<u8>;

    /// The bytes that wait, the oldest first.
    closed spec fn view(&self) -> Seq<u8> {
        Seq::new(
            held(self.head, self.tail),
            |i: int| self.buf@[(self.tail + i) % RAW_CAPACITY as int],
        )
    }
}

/// The number of bytes between `tail` and `head`.
spec fn held(head: usize, tail: usize) -> nat {
    if head >= tail {
        (head - tail) as nat
    } else {
        (head + RAW_CAPACITY - tail) as nat
    }
}

impl SpScRing {
    pub closed spec fn inv(self) -> bool {
        &&& self.buf@.len() == RAW_CAPACITY
        &&& self.head < RAW_CAPACITY
        &&& self.tail < RAW_CAPACITY
    }

    pub fn new() -> (r: Self)
        ensures
            r.inv(),
            r@ == Seq::<u8>::empty(),
    {
        let mut buf: Vec<u8> = Vec::new();
        while buf.len() < RAW_CAPACITY
            invariant
                buf@.len() <= RAW_CAPACITY,
            decreases RAW_CAPACITY - buf@.len(),
        {
            buf.push(0);
        }
        let r = SpScRing { buf, head: 0, tail: 0 };
        assert(r@ =~= Seq::<u8>::empty());
        r
    }

    /// Puts a byte in. A ring that has no room is left alone, and the byte is
    /// dropped.
    pub fn push(&mut self, byte: u8) -> (r: bool)
        requires
            old(self).inv(),
        ensures
            final(self).inv(),
            r == (old(self)@.len() < RAW_CAPACITY - 1),
            final(self)@ == (if r {
                old(self)@.push(byte)
            } else {
                old(self)@
            }),
    {
        let next: usize = if self.head + 1 == RAW_CAPACITY {
            0
        } else {
            self.head + 1
        };
        if next == self.tail {
            return false;
        }
        self.buf.set(self.head, byte);
        self.head = next;
        assert(self@ =~= old(self)@.push(byte)) by {
            let n = old(self)@.len() as int;
            assert((self.tail + n) % RAW_CAPACITY as int == old(self).head);
            assert forall|i: int| 0 <= i < n implies self@[i] == old(self)@[i] by {
                assert((self.tail + i) % RAW_CAPACITY as int != old(self).head);
            }
        }
        true
    }

    /// Takes the oldest byte out.
    pub fn pop(&mut self) -> (r: Option<u8>)
        requires
            old(self).inv(),
        ensures
            final(self).inv(),
            r is None <==> old(self)@.len() == 0,
            r is None ==> final(self)@ == old(self)@,
            r is Some ==> r->0 == old(self)@[0] && final(self)@ == old(self)@.skip(1),
    {
        if self.tail == self.head {
            return None;
        }
        let byte: u8 = self.buf[self.tail];
        self.tail = if self.tail + 1 == RAW_CAPACITY {
            0
        } else {
            self.tail + 1
        };
        assert(old(self)@[0] == byte);
        assert(self@ =~= old(self)@.skip(1));
        Some(byte)
    }
}

} // verus!
