//! The sequential ring buffer: byte storage of a power-of-two size and two
//! 32-bit position counters that wrap around.
//!
//! `tail` counts the bytes produced since construction and `head` the bytes
//! consumed, both modulo `2^32`. The bytes held are those between them, and a
//! position `p` lives at slot `p & ring_mask` of the storage.
//! Zero-copy regions are reported as a slot offset into the storage (see
//! `get_raw_buf`) and a length.
//! Every call that moves a counter takes `&mut self`: how a producer and a
//! consumer on two threads share one ring is left to the caller.

use vstd::prelude::*;
use crate::bits::{is_pow2, lemma_clear_lowest_bit, lemma_mask_is_mod, lemma_offset_slot, lemma_wrap_mod, lemma_pow2_double};

verus! {

/// System error codes.
#[derive(Debug, Clone, Copy, PartialEq, Eq, Structural)]
pub enum SysErr {
    EINVAL,
}

/// Why a checked call was refused: a count past what the ring allows, or a
/// write that does not fit whole.
#[derive(Debug, Clone, Copy, PartialEq, Eq, Structural)]
pub enum Error {
    SysError(SysErr),
    QueueFull,
}

/// One segment of a vectored view: a slot offset into the storage and a length.
#[derive(Debug, Clone, Copy, PartialEq, Eq, Structural)]
pub struct Iov {
    pub start: u64,
    pub len: usize,
}

/// Segment slots for a vectored view, and how many of them are filled.
#[derive(Debug)]
pub struct SocketBufIovs {
    pub iovs: Vec<Iov>,
    pub cnt: usize,
}

/// A ring of `ring_mask + 1` bytes, a power of two no larger than `2^31`.
#[derive(Debug)]
pub struct RingBufSeq {
    pub buf: Vec<u8>,
    pub ring_mask: u32,
    pub head: u32,
    pub tail: u32,
}

/// The smaller of two naturals.
pub open spec fn min_nat(a: nat, b: nat) -> nat {
    if a < b {
        a
    } else {
        b
    }
}

/// `b - a` on 32-bit counters, taken modulo `2^32`.
pub open spec fn counter_distance(a: u32, b: u32) -> nat {
    if a <= b {
        (b - a) as nat
    } else {
        (b - a + 0x1_0000_0000) as nat
    }
}

impl RingBufSeq {
    /// Size of the storage in bytes.
    pub open spec fn capacity(&self) -> nat {
        self.ring_mask as nat + 1
    }

    /// Bytes produced and not yet consumed.
    pub open spec fn occupied(&self) -> nat {
        counter_distance(self.head, self.tail)
    }

    /// Bytes that can still be produced.
    pub open spec fn free(&self) -> nat {
        (self.capacity() - self.occupied()) as nat
    }

    /// The storage slot of logical position `p`.
    pub open spec fn slot(&self, p: int) -> int {
        p % (self.capacity() as int)
    }

    /// The bytes held, oldest first.
    pub open spec fn contents(&self) -> Seq<u8> {
        Seq::new(self.occupied(), |i: int| self.buf@[self.slot(self.head + i)])
    }

    /// The `n` bytes of storage just past the held ones, which `produce(n)`
    /// hands over to the consumer.
    pub open spec fn space_bytes(&self, n: nat) -> Seq<u8> {
        Seq::new(n, |i: int| self.buf@[self.slot(self.tail + i)])
    }

    /// Slot where the held bytes start.
    pub open spec fn data_start(&self) -> nat {
        self.slot(self.head as int) as nat
    }

    /// Length of the first contiguous run of held bytes.
    pub open spec fn data_run(&self) -> nat {
        min_nat(self.occupied(), (self.capacity() - self.data_start()) as nat)
    }

    /// The held bytes go on past the end of the storage.
    pub open spec fn data_wraps(&self) -> bool {
        self.capacity() - self.data_start() < self.occupied()
    }

    /// Slot where the free space starts.
    pub open spec fn space_start(&self) -> nat {
        self.slot(self.tail as int) as nat
    }

    /// Length of the first contiguous run of free space.
    pub open spec fn space_run(&self) -> nat {
        min_nat(self.free(), (self.capacity() - self.space_start()) as nat)
    }

    /// The free space goes on past the end of the storage.
    pub open spec fn space_wraps(&self) -> bool {
        self.capacity() - self.space_start() < self.free()
    }

    /// The storage has the capacity's size, a power of two, and the counters
    /// are at most a capacity apart.
    pub open spec fn wf(&self) -> bool {
        &&& self.ring_mask < 0x8000_0000
        &&& is_pow2(self.capacity())
        &&& self.buf@.len() == self.capacity()
        &&& self.occupied() <= self.capacity()
    }

    /// Whether `x` is a power of two.
    pub fn is_power_of_two(x: usize) -> (r: bool)
        requires
            x >= 1,
        ensures
            r == is_pow2(x as nat),
    {
        let y = x as u64;
        proof {
            lemma_clear_lowest_bit(y);
        }
        (y & (y - 1)) == 0
    }

    /// An empty ring of `count` eight-byte words, so `8 * count` bytes.
    pub fn new(count: usize) -> (r: Self)
        requires
            is_pow2(count as nat),
            count * 8 <= 0x8000_0000,
        ensures
            r.wf(),
            r.capacity() == count * 8,
            r.head == 0,
            r.tail == 0,
            r.occupied() == 0,
            r.contents() == Seq::<u8>::empty(),
    {
        let size = count * 8;
        proof {
            lemma_pow2_double(count as nat);
            lemma_pow2_double(2 * count as nat);
            lemma_pow2_double(4 * count as nat);
        }
        let buf: Vec<u8> = vec![0u8; size];
        let r = RingBufSeq { buf, ring_mask: (size - 1) as u32, head: 0, tail: 0 };
        assert(r.contents() =~= Seq::<u8>::empty());
        r
    }

    /// The storage and its size in bytes.
    pub fn get_raw_buf(&self) -> (r: (&Vec<u8>, usize))
        requires
            self.wf(),
        ensures
            r.0@ == self.buf@,
            r.1 == self.capacity(),
    {
        (&self.buf, self.len())
    }

    /// Size of the storage in bytes.
    pub fn len(&self) -> (r: usize)
        requires
            self.wf(),
        ensures
            r == self.capacity(),
    {
        (self.ring_mask + 1) as usize
    }

    /// The storage as a byte slice.
    pub fn buf(&self) -> (r: &[u8])
        ensures
            r@ == self.buf@,
    {
        self.buf.as_slice()
    }

    /// Bytes produced and not yet consumed.
    pub fn available_data_size(&self) -> (r: usize)
        requires
            self.wf(),
        ensures
            r == self.occupied(),
    {
        self.tail.wrapping_sub(self.head) as usize
    }

    /// Bytes that can still be produced.
    pub fn available_space(&self) -> (r: usize)
        requires
            self.wf(),
        ensures
            r == self.free(),
            r + self.occupied() == self.capacity(),
    {
        self.len() - self.available_data_size()
    }

    /// The slot that `tail` names is the one just past the held bytes.
    proof fn lemma_tail_slot(&self)
        requires
            self.wf(),
        ensures
            self.slot(self.tail as int) == self.slot(self.head + self.occupied()),
    {
        if self.head > self.tail {
            lemma_wrap_mod(self.head + self.occupied(), -1, self.capacity());
        }
    }

    /// Masking a counter gives its slot.
    proof fn lemma_counter_slot(&self, p: u32)
        requires
            self.wf(),
        ensures
            (p & self.ring_mask) as int == self.slot(p as int),
            0 <= self.slot(p as int) < self.capacity(),
    {
        lemma_mask_is_mod(p, self.ring_mask);
    }

    /// Copies as many bytes of `buf` as fit in after the held ones; returns
    /// whether the ring was empty before, and how many bytes went in.
    pub fn write(&mut self, buf: &[u8]) -> (r: Result<(bool, usize), Error>)
        requires
            old(self).wf(),
        ensures
            final(self).wf(),
            r == Ok::<(bool, usize), Error>(
                (old(self).occupied() == 0, min_nat(old(self).free(), buf@.len()) as usize),
            ),
            final(self).head == old(self).head,
            final(self).ring_mask == old(self).ring_mask,
            final(self).occupied() == old(self).occupied() + min_nat(old(self).free(), buf@.len()),
            final(self).contents() == old(self).contents() + buf@.take(
                min_nat(old(self).free(), buf@.len()) as int,
            ),
            is_stream_step(
                *old(self),
                *final(self),
                buf@.take(min_nat(old(self).free(), buf@.len()) as int),
                Seq::empty(),
            ),
    {
        let ghost old_self = *self;
        let ghost cap = self.capacity() as int;
        let head = self.head;
        let tail = self.tail;
        let available = tail.wrapping_sub(head) as usize;
        let empty = available == 0;
        proof {
            self.lemma_counter_slot(tail);
            self.lemma_tail_slot();
        }
        let write_pos = (tail & self.ring_mask) as usize;
        let mut write_size = self.len() - available;
        if write_size > buf.len() {
            write_size = buf.len();
        }
        let to_end = self.len() - write_pos;
        let (first_len, has_second) = if to_end < write_size {
            (to_end, true)
        } else {
            (write_size, false)
        };
        let mut i: usize = 0;
        while i < first_len
            invariant
                i <= first_len,
                first_len <= write_size <= buf@.len(),
                write_pos + first_len <= cap <= 0x8000_0000,
                self.buf@.len() == cap,
                self.ring_mask == old_self.ring_mask,
                self.head == head,
                self.tail == tail,
                forall|k: int|
                    0 <= k < cap && !(write_pos <= k < write_pos + i) ==> self.buf@[k]
                        == old_self.buf@[k],
                forall|k: int| 0 <= k < i ==> self.buf@[write_pos + k] == buf@[k],
            decreases first_len - i,
        {
            self.buf[write_pos + i] = buf[i];
            i = i + 1;
        }
        if has_second {
            let second_len = write_size - first_len;
            let mut j: usize = 0;
            while j < second_len
                invariant
                    j <= second_len,
                    second_len == write_size - first_len,
                    second_len <= write_pos,
                    first_len <= write_size <= buf@.len(),
                    write_pos + first_len <= cap,
                    self.buf@.len() == cap,
                    self.ring_mask == old_self.ring_mask,
                    self.head == head,
                    self.tail == tail,
                    forall|k: int|
                        0 <= k < cap && !(write_pos <= k < write_pos + first_len) && !(0 <= k < j)
                            ==> self.buf@[k] == old_self.buf@[k],
                    forall|k: int| 0 <= k < first_len ==> self.buf@[write_pos + k] == buf@[k],
                    forall|k: int| 0 <= k < j ==> self.buf@[k] == buf@[first_len + k],
                decreases second_len - j,
            {
                self.buf[j] = buf[first_len + j];
                j = j + 1;
            }
        }
        self.tail = tail.wrapping_add(write_size as u32);
        proof {
            let n = write_size as int;
            let occ = old_self.occupied() as int;
            let h = head as int;
            assert(self.occupied() == occ + n);
            let expect = old_self.contents() + buf@.take(n);
            assert forall|d: int| 0 <= d < occ + n implies #[trigger] self.contents()[d]
                == expect[d] by {
                lemma_offset_slot(h, d, cap);
                if occ < cap {
                    lemma_offset_slot(h, occ, cap);
                }
            }
            assert(self.contents() =~= expect);
        }
        Ok((empty, write_size))
    }

    /// Moving `head` forward by `n` held bytes drops exactly those bytes.
    proof fn lemma_advance_head(&self, new_head: u32, n: nat)
        requires
            self.wf(),
            n <= self.occupied(),
            new_head == (if self.head + n > u32::MAX {
                self.head + n - 0x1_0000_0000
            } else {
                self.head + n
            }),
        ensures
            forall|d: int|
                0 <= d ==> #[trigger] self.slot(new_head + d) == self.slot(self.head + n + d),
    {
        assert forall|d: int| 0 <= d implies #[trigger] self.slot(new_head + d) == self.slot(
            self.head + n + d,
        ) by {
            if self.head + n > u32::MAX {
                lemma_wrap_mod(self.head + n + d, -1, self.capacity());
            }
        }
    }

    /// Copies as many held bytes as fit into `buf`, oldest first, and drops
    /// them; returns whether the ring was full before, and how many bytes came
    /// out. The rest of `buf` is left as it was.
    pub fn read(&mut self, buf: &mut [u8]) -> (r: Result<(bool, usize), Error>)
        requires
            old(self).wf(),
        ensures
            final(self).wf(),
            r == Ok::<(bool, usize), Error>(
                (
                    old(self).occupied() == old(self).capacity(),
                    min_nat(old(self).occupied(), old(buf)@.len()) as usize,
                ),
            ),
            final(self).tail == old(self).tail,
            final(self).ring_mask == old(self).ring_mask,
            final(self).buf@ == old(self).buf@,
            final(self).occupied() == old(self).occupied() - min_nat(
                old(self).occupied(),
                old(buf)@.len(),
            ),
            final(self).contents() == old(self).contents().skip(
                min_nat(old(self).occupied(), old(buf)@.len()) as int,
            ),
            final(buf)@.len() == old(buf)@.len(),
            final(buf)@.take(min_nat(old(self).occupied(), old(buf)@.len()) as int) == old(
                self,
            ).contents().take(min_nat(old(self).occupied(), old(buf)@.len()) as int),
            final(buf)@.skip(min_nat(old(self).occupied(), old(buf)@.len()) as int) == old(
                buf,
            )@.skip(min_nat(old(self).occupied(), old(buf)@.len()) as int),
            is_stream_step(
                *old(self),
                *final(self),
                Seq::empty(),
                final(buf)@.take(min_nat(old(self).occupied(), old(buf)@.len()) as int),
            ),
    {
        let ghost old_self = *self;
        let ghost old_buf = buf@;
        let ghost cap = self.capacity() as int;
        let head = self.head;
        let tail = self.tail;
        let mut available = tail.wrapping_sub(head) as usize;
        let full = available == self.len();
        if available > buf.len() {
            available = buf.len();
        }
        proof {
            self.lemma_counter_slot(head);
        }
        let read_pos = (head & self.ring_mask) as usize;
        let to_end = self.len() - read_pos;
        let (first_len, has_second) = if to_end < available {
            (to_end, true)
        } else {
            (available, false)
        };
        let mut i: usize = 0;
        while i < first_len
            invariant
                i <= first_len,
                first_len <= available <= buf@.len(),
                buf@.len() == old_buf.len(),
                read_pos + first_len <= cap <= 0x8000_0000,
                self.buf@.len() == cap,
                forall|k: int| 0 <= k < i ==> buf@[k] == self.buf@[read_pos + k],
                forall|k: int| i <= k < buf@.len() ==> buf@[k] == old_buf[k],
            decreases first_len - i,
        {
            buf[i] = self.buf[read_pos + i];
            i = i + 1;
        }
        if has_second {
            let second_len = available - first_len;
            let mut j: usize = 0;
            while j < second_len
                invariant
                    j <= second_len,
                    second_len == available - first_len,
                    first_len <= available <= buf@.len(),
                    buf@.len() == old_buf.len(),
                    available <= cap <= 0x8000_0000,
                    self.buf@.len() == cap,
                    forall|k: int| 0 <= k < first_len ==> buf@[k] == self.buf@[read_pos + k],
                    forall|k: int| 0 <= k < j ==> buf@[first_len + k] == self.buf@[k],
                    forall|k: int| first_len + j <= k < buf@.len() ==> buf@[k] == old_buf[k],
                decreases second_len - j,
            {
                buf[first_len + j] = self.buf[j];
                j = j + 1;
            }
        }
        let new_head = head.wrapping_add(available as u32);
        proof {
            let n = available as int;
            let h = head as int;
            old_self.lemma_advance_head(new_head, n as nat);
            assert forall|d: int| 0 <= d < n implies #[trigger] buf@[d]
                == old_self.contents()[d] by {
                lemma_offset_slot(h, d, cap);
            }
            assert(buf@.take(n) =~= old_self.contents().take(n));
            assert(buf@.skip(n) =~= old_buf.skip(n));
        }
        self.head = new_head;
        proof {
            let n = available as int;
            assert forall|d: int| 0 <= d < self.occupied() implies #[trigger] self.contents()[d]
                == old_self.contents().skip(n)[d] by {
                assert(old_self.slot(new_head + d) == old_self.slot(head + n + d));
            }
            assert(self.contents() =~= old_self.contents().skip(n));
        }
        Ok((full, available))
    }

    /// Like `write`, but fails with `QueueFull`, changing nothing, when `buf`
    /// does not fit whole.
    pub fn write_full(&mut self, buf: &[u8]) -> (r: Result<(bool, usize), Error>)
        requires
            old(self).wf(),
        ensures
            final(self).wf(),
            old(self).free() < buf@.len() ==> r == Err::<(bool, usize), Error>(Error::QueueFull)
                && *final(self) == *old(self),
            old(self).free() >= buf@.len() ==> r == Ok::<(bool, usize), Error>(
                (old(self).occupied() == 0, buf@.len() as usize),
            ) && final(self).head == old(self).head && final(self).ring_mask == old(
                self,
            ).ring_mask && final(self).contents() == old(self).contents() + buf@,
    {
        let space = self.available_space();
        if space < buf.len() {
            return Err(Error::QueueFull);
        }
        let r = self.write(buf);
        assert(buf@.take(buf@.len() as int) =~= buf@);
        r
    }

    /// Start slot, length and wrap flag of the held bytes' first run.
    fn data_region(&self) -> (r: (usize, usize, bool))
        requires
            self.wf(),
        ensures
            r.0 == self.data_start(),
            r.1 == self.data_run(),
            r.2 == self.data_wraps(),
            r.0 < self.capacity(),
    {
        let available = self.available_data_size();
        proof {
            self.lemma_counter_slot(self.head);
        }
        let read_pos = (self.head & self.ring_mask) as usize;
        let to_end = self.len() - read_pos;
        if to_end < available {
            (read_pos, to_end, true)
        } else {
            (read_pos, available, false)
        }
    }

    /// Start slot, length and wrap flag of the free space's first run.
    fn space_region(&self) -> (r: (usize, usize, bool))
        requires
            self.wf(),
        ensures
            r.0 == self.space_start(),
            r.1 == self.space_run(),
            r.2 == self.space_wraps(),
            r.0 < self.capacity(),
    {
        let write_size = self.available_space();
        proof {
            self.lemma_counter_slot(self.tail);
        }
        let write_pos = (self.tail & self.ring_mask) as usize;
        let to_end = self.len() - write_pos;
        if to_end < write_size {
            (write_pos, to_end, true)
        } else {
            (write_pos, write_size, false)
        }
    }

    /// The first contiguous run of held bytes, as start slot, length, and
    /// whether more follow from slot 0; `None` when the ring is empty.
    pub fn get_read_buf(&self) -> (r: Option<(u64, usize, bool)>)
        requires
            self.wf(),
        ensures
            self.occupied() == 0 ==> r == None::<(u64, usize, bool)>,
            self.occupied() > 0 ==> r == Some(
                (self.data_start() as u64, self.data_run() as usize, self.data_wraps()),
            ),
    {
        if self.available_data_size() == 0 {
            return None;
        }
        let (start, len, more) = self.data_region();
        Some((start as u64, len, more))
    }

    /// The first contiguous run of held bytes, as start slot and length;
    /// `(0, 0)` when the ring is empty.
    pub fn get_data_buf(&self) -> (r: (u64, usize))
        requires
            self.wf(),
        ensures
            self.occupied() == 0 ==> r == (0u64, 0usize),
            self.occupied() > 0 ==> r == (self.data_start() as u64, self.data_run() as usize),
    {
        if self.available_data_size() == 0 {
            return (0, 0);
        }
        let (start, len, _) = self.data_region();
        (start as u64, len)
    }

    /// Fills `data` with the one or two runs that hold the held bytes, in
    /// order, and sets `data.cnt` to how many it filled.
    pub fn prepare_data_iovs(&self, data: &mut SocketBufIovs)
        requires
            self.wf(),
            old(data).iovs@.len() >= 2,
        ensures
            final(data).iovs@.len() == old(data).iovs@.len(),
            final(data).cnt == (if self.occupied() == 0 {
                0usize
            } else if self.data_wraps() {
                2usize
            } else {
                1usize
            }),
            final(data).cnt >= 1 ==> final(data).iovs@[0] == (Iov {
                start: self.data_start() as u64,
                len: self.data_run() as usize,
            }),
            final(data).cnt == 2 ==> final(data).iovs@[1] == (Iov {
                start: 0,
                len: (self.occupied() - self.data_run()) as usize,
            }),
            forall|k: int|
                final(data).cnt <= k < final(data).iovs@.len() ==> final(data).iovs@[k] == old(
                    data,
                ).iovs@[k],
    {
        let available = self.available_data_size();
        if available == 0 {
            data.cnt = 0;
            return;
        }
        let (start, len, more) = self.data_region();
        data.iovs.set(0, Iov { start: start as u64, len });
        if more {
            data.iovs.set(1, Iov { start: 0, len: available - len });
            data.cnt = 2;
        } else {
            data.cnt = 1;
        }
    }

    /// Fills `data` with the one or two runs that make up the free space, in
    /// order, and sets `data.cnt` to how many it filled.
    pub fn prepare_space_iovs(&self, data: &mut SocketBufIovs)
        requires
            self.wf(),
            old(data).iovs@.len() >= 2,
        ensures
            final(data).iovs@.len() == old(data).iovs@.len(),
            final(data).cnt == (if self.free() == 0 {
                0usize
            } else if self.space_wraps() {
                2usize
            } else {
                1usize
            }),
            final(data).cnt >= 1 ==> final(data).iovs@[0] == (Iov {
                start: self.space_start() as u64,
                len: self.space_run() as usize,
            }),
            final(data).cnt == 2 ==> final(data).iovs@[1] == (Iov {
                start: 0,
                len: (self.free() - self.space_run()) as usize,
            }),
            forall|k: int|
                final(data).cnt <= k < final(data).iovs@.len() ==> final(data).iovs@[k] == old(
                    data,
                ).iovs@[k],
    {
        let space = self.available_space();
        if space == 0 {
            data.cnt = 0;
            return;
        }
        let (start, len, more) = self.space_region();
        data.iovs.set(0, Iov { start: start as u64, len });
        if more {
            data.iovs.set(1, Iov { start: 0, len: space - len });
            data.cnt = 2;
        } else {
            data.cnt = 1;
        }
    }

    /// The first contiguous run of free space, as start slot, length, and
    /// whether more follows from slot 0; `None` when the ring is full.
    pub fn get_write_buf(&self) -> (r: Option<(u64, usize, bool)>)
        requires
            self.wf(),
        ensures
            self.free() == 0 ==> r == None::<(u64, usize, bool)>,
            self.free() > 0 ==> r == Some(
                (self.space_start() as u64, self.space_run() as usize, self.space_wraps()),
            ),
    {
        if self.available_space() == 0 {
            return None;
        }
        let (start, len, more) = self.space_region();
        Some((start as u64, len, more))
    }

    /// The first contiguous run of free space, as start slot and length;
    /// `(0, 0)` when the ring is full.
    pub fn get_space_buf(&self) -> (r: (u64, usize))
        requires
            self.wf(),
        ensures
            self.free() == 0 ==> r == (0u64, 0usize),
            self.free() > 0 ==> r == (self.space_start() as u64, self.space_run() as usize),
    {
        if self.available_space() == 0 {
            return (0, 0);
        }
        let (start, len, _) = self.space_region();
        (start as u64, len)
    }

    /// Drops the `count` oldest held bytes, after the caller has read them in
    /// place; returns whether the ring was full before.
    pub fn consume(&mut self, count: usize) -> (r: bool)
        requires
            old(self).wf(),
            count <= old(self).occupied(),
        ensures
            final(self).wf(),
            r == (old(self).occupied() == old(self).capacity()),
            count > 0 ==> (r == (old(self).occupied() == old(self).capacity()
                && final(self).occupied() < final(self).capacity())),
            final(self).tail == old(self).tail,
            final(self).ring_mask == old(self).ring_mask,
            final(self).buf@ == old(self).buf@,
            final(self).occupied() == old(self).occupied() - count,
            final(self).contents() == old(self).contents().skip(count as int),
            is_stream_step(
                *old(self),
                *final(self),
                Seq::empty(),
                old(self).contents().take(count as int),
            ),
    {
        let ghost old_self = *self;
        let head = self.head;
        let new_head = head.wrapping_add(count as u32);
        self.head = new_head;
        proof {
            old_self.lemma_advance_head(new_head, count as nat);
            assert forall|d: int| 0 <= d < self.occupied() implies #[trigger] self.contents()[d]
                == old_self.contents().skip(count as int)[d] by {
                assert(old_self.slot(new_head + d) == old_self.slot(head + count + d));
            }
            assert(self.contents() =~= old_self.contents().skip(count as int));
        }
        let tail = self.tail;
        let available = tail.wrapping_sub(head) as usize;
        available == self.len()
    }

    /// `consume`, or `EINVAL` with nothing changed when fewer than `count`
    /// bytes are held.
    pub fn consume_with_check(&mut self, count: usize) -> (r: Result<bool, Error>)
        requires
            old(self).wf(),
        ensures
            final(self).wf(),
            old(self).occupied() < count ==> r == Err::<bool, Error>(Error::SysError(SysErr::EINVAL))
                && *final(self) == *old(self),
            old(self).occupied() >= count ==> r == Ok::<bool, Error>(
                old(self).occupied() == old(self).capacity(),
            ) && final(self).tail == old(self).tail && final(self).ring_mask == old(
                self,
            ).ring_mask && final(self).buf@ == old(self).buf@ && final(self).contents() == old(
                self,
            ).contents().skip(count as int),
    {
        let available = self.available_data_size();
        if available < count {
            return Err(Error::SysError(SysErr::EINVAL));
        }
        let trigger = self.consume(count);
        Ok(trigger)
    }

    /// Hands the `count` bytes of storage past the held ones to the consumer,
    /// after the caller has written them in place; returns whether the ring
    /// was empty before.
    pub fn produce(&mut self, count: usize) -> (r: bool)
        requires
            old(self).wf(),
            count <= old(self).free(),
        ensures
            final(self).wf(),
            r == (old(self).occupied() == 0),
            count > 0 ==> (r == (old(self).occupied() == 0 && final(self).occupied() > 0)),
            final(self).head == old(self).head,
            final(self).ring_mask == old(self).ring_mask,
            final(self).buf@ == old(self).buf@,
            final(self).occupied() == old(self).occupied() + count,
            final(self).contents() == old(self).contents() + old(self).space_bytes(count as nat),
            is_stream_step(*old(self), *final(self), old(self).space_bytes(count as nat), Seq::empty()),
    {
        let ghost old_self = *self;
        let tail = self.tail;
        self.tail = tail.wrapping_add(count as u32);
        proof {
            let occ = old_self.occupied() as int;
            let expect = old_self.contents() + old_self.space_bytes(count as nat);
            assert forall|d: int| 0 <= d < self.occupied() implies #[trigger] self.contents()[d]
                == expect[d] by {
                if d >= occ && self.head > tail {
                    lemma_wrap_mod(self.head + d, -1, self.capacity());
                }
            }
            assert(self.contents() =~= expect);
        }
        let head = self.head;
        let available = tail.wrapping_sub(head) as usize;
        available == 0
    }

    /// `produce`, or `EINVAL` with nothing changed when fewer than `count`
    /// bytes are free.
    pub fn produce_with_check(&mut self, count: usize) -> (r: Result<bool, Error>)
        requires
            old(self).wf(),
        ensures
            final(self).wf(),
            old(self).free() < count ==> r == Err::<bool, Error>(Error::SysError(SysErr::EINVAL))
                && *final(self) == *old(self),
            old(self).free() >= count ==> r == Ok::<bool, Error>(old(self).occupied() == 0)
                && final(self).head == old(self).head && final(self).ring_mask == old(
                self,
            ).ring_mask && final(self).buf@ == old(self).buf@ && final(self).contents() == old(
                self,
            ).contents() + old(self).space_bytes(count as nat),
    {
        let available = self.available_data_size();
        if count > self.len() - available {
            return Err(Error::SysError(SysErr::EINVAL));
        }
        let trigger = self.produce(count);
        Ok(trigger)
    }
}

/// A step of a trace over one ring: bytes `input` went in at the back (a
/// write or a produce), or bytes `output` came out at the front (a read or a
/// consume).
pub open spec fn is_stream_step(
    before: RingBufSeq,
    after: RingBufSeq,
    input: Seq<u8>,
    output: Seq<u8>,
) -> bool {
    ||| (output.len() == 0 && after.contents() == before.contents() + input)
    ||| (input.len() == 0 && output.len() <= before.contents().len() && output
        == before.contents().take(output.len() as int)
        && after.contents() == before.contents().skip(output.len() as int))
}

/// Over any trace of writes and reads, what came out, followed by what is
/// still held, is what was held at the start followed by all that went in, in
/// order. From an empty ring to a drained one, the bytes read are exactly the
/// bytes written.
pub proof fn lemma_stream_order(
    states: Seq<RingBufSeq>,
    inputs: Seq<Seq<u8>>,
    outputs: Seq<Seq<u8>>,
)
    requires
        states.len() == inputs.len() + 1,
        outputs.len() == inputs.len(),
        forall|i: int|
            0 <= i < inputs.len() ==> is_stream_step(
                #[trigger] states[i],
                states[i + 1],
                inputs[i],
                outputs[i],
            ),
    ensures
        outputs.flatten() + states.last().contents() == states[0].contents() + inputs.flatten(),
        states[0].contents().len() == 0 && states.last().contents().len() == 0
            ==> outputs.flatten() == inputs.flatten(),
    decreases inputs.len(),
{
    if inputs.len() == 0 {
        assert(outputs.flatten() + states.last().contents() =~= states[0].contents()
            + inputs.flatten());
    } else {
        let rest = states.drop_first();
        assert forall|i: int| 0 <= i < inputs.drop_first().len() implies is_stream_step(
            #[trigger] rest[i],
            rest[i + 1],
            inputs.drop_first()[i],
            outputs.drop_first()[i],
        ) by {
            assert(is_stream_step(states[i + 1], states[i + 2], inputs[i + 1], outputs[i + 1]));
        }
        lemma_stream_order(rest, inputs.drop_first(), outputs.drop_first());
        assert(is_stream_step(states[0], states[1], inputs[0], outputs[0]));
        let a = states[0].contents();
        let b = states[1].contents();
        if outputs[0].len() == 0 {
            assert(outputs[0] + b =~= a + inputs[0]);
        } else {
            assert(inputs[0] =~= Seq::<u8>::empty());
            assert(a.take(outputs[0].len() as int) + a.skip(outputs[0].len() as int) =~= a);
            assert(outputs[0] + b =~= a + inputs[0]);
        }
        assert(outputs.flatten() + states.last().contents() =~= outputs[0] + (
        outputs.drop_first().flatten() + rest.last().contents()));
        assert(states[0].contents() + inputs.flatten() =~= (a + inputs[0])
            + inputs.drop_first().flatten());
    }
    if states[0].contents().len() == 0 && states.last().contents().len() == 0 {
        assert(outputs.flatten() =~= outputs.flatten() + states.last().contents());
        assert(inputs.flatten() =~= states[0].contents() + inputs.flatten());
    }
}

/// Held and free bytes always add up to the capacity.
pub proof fn lemma_occupied_plus_free(r: RingBufSeq)
    requires
        r.wf(),
    ensures
        r.occupied() + r.free() == r.capacity(),
{
}

/// On an empty ring, a write of at most the capacity, followed by a read of
/// the same length, gives back the bytes written, wherever the counters stand.
pub proof fn lemma_write_then_read(
    before: RingBufSeq,
    after_write: RingBufSeq,
    bytes: Seq<u8>,
    out: Seq<u8>,
)
    requires
        before.wf(),
        before.occupied() == 0,
        bytes.len() <= before.capacity(),
        after_write.occupied() == before.occupied() + min_nat(before.free(), bytes.len()),
        after_write.contents() == before.contents() + bytes.take(
            min_nat(before.free(), bytes.len()) as int,
        ),
        out == after_write.contents().take(min_nat(after_write.occupied(), bytes.len()) as int),
    ensures
        out == bytes,
{
    assert(before.contents() =~= Seq::<u8>::empty());
    assert(bytes.take(bytes.len() as int) =~= bytes);
    assert(out =~= bytes);
}

/// Consuming the whole first run of held bytes, when they do not wrap,
/// empties the ring exactly when nothing was produced in between.
pub proof fn lemma_consume_first_run(
    seen: RingBufSeq,
    produced: nat,
    before_consume: RingBufSeq,
    after_consume: RingBufSeq,
)
    requires
        seen.wf(),
        seen.occupied() > 0,
        !seen.data_wraps(),
        before_consume.occupied() == seen.occupied() + produced,
        after_consume.occupied() == before_consume.occupied() - seen.data_run(),
    ensures
        (after_consume.occupied() == 0) == (produced == 0),
{
}

} // verus!
