use vstd::prelude::*;
use crate::mm::frame_allocator::FramePool;
use crate::mm::page_table::{UserBuffer, UserBufferIterator};

verus! {

/// Number of bytes that a pipe holds at most.
pub const RING_BUFFER_SIZE: usize = 32;

/// Whether a ring buffer is full, empty, or neither.
#[derive(Copy, Clone, Debug, PartialEq, Eq, Structural)]
pub enum RingBufferStatus {
    FULL,
    EMPTY,
    NORMAL,
}

/// The buffer of a pipe: a ring of 32 bytes, with the number of ends that
/// are open for writing.
pub struct PipeRingBuffer {
    pub arr: [u8; 32],
    pub head: usize,
    pub tail: usize,
    pub status: RingBufferStatus,
    pub write_end: Option<usize>,
}

impl PipeRingBuffer {
    /// Number of bytes in the buffer.
    pub open spec fn count(&self) -> int {
        if self.status == RingBufferStatus::EMPTY {
            0
        } else if self.tail > self.head {
            self.tail - self.head
        } else {
            self.tail + 32 - self.head
        }
    }

    /// The bytes in the buffer, in the order in which they were written.
    pub open spec fn content(&self) -> Seq<u8> {
        Seq::new(self.count() as nat, |i: int| self.arr@[(self.head + i) % 32])
    }

    /// Head and tail lie in the ring, and the status says whether they
    /// meet because the buffer is full or because it is empty.
    pub open spec fn wf(&self) -> bool {
        &&& self.head < 32
        &&& self.tail < 32
        &&& self.status != RingBufferStatus::NORMAL ==> self.head == self.tail
        &&& self.status == RingBufferStatus::NORMAL ==> self.head != self.tail
    }

    /// An empty buffer of which no end is known to be open for writing.
    pub fn new() -> (r: Self)
        ensures
            r.wf(),
            r.content() == Seq::<u8>::empty(),
            r.write_end.is_none(),
    {
        let r = Self { arr: [0u8; 32], head: 0, tail: 0, status: RingBufferStatus::EMPTY, write_end: None };
        assert(r.content() =~= Seq::<u8>::empty());
        r
    }

    /// Notes that `write_ends` ends of the pipe are open for writing.
    pub fn set_write_end(&mut self, write_ends: usize)
        ensures
            final(self).write_end == Some(write_ends),
            final(self).arr == old(self).arr,
            final(self).head == old(self).head,
            final(self).tail == old(self).tail,
            final(self).status == old(self).status,
    {
        self.write_end = Some(write_ends);
    }

    /// Number of bytes that can be read.
    pub fn available_read(&self) -> (r: usize)
        requires
            self.wf(),
        ensures
            r == self.count(),
            r == self.content().len(),
    {
        if self.status == RingBufferStatus::EMPTY {
            0
        } else {
            if self.tail > self.head {
                self.tail - self.head
            } else {
                self.tail + RING_BUFFER_SIZE - self.head
            }
        }
    }

    /// Takes the byte that was written first. The buffer must not be empty.
    pub fn read_byte(&mut self) -> (c: u8)
        requires
            old(self).wf(),
            old(self).count() > 0,
        ensures
            final(self).wf(),
            c == old(self).content()[0],
            final(self).content() == old(self).content().subrange(1, old(self).content().len() as int),
            final(self).write_end == old(self).write_end,
    {
        self.status = RingBufferStatus::NORMAL;
        let c = self.arr[self.head];
        self.head = (self.head + 1) % RING_BUFFER_SIZE;
        if self.head == self.tail {
            self.status = RingBufferStatus::EMPTY;
        }
        proof {
            let a = old(self).content();
            let b = self.content();
            assert(b.len() == a.len() - 1);
            assert forall|i: int| 0 <= i < b.len() implies b[i] == a[i + 1] by {
                assert((self.head + i) % 32 == (old(self).head + i + 1) % 32);
            }
            assert(b =~= a.subrange(1, a.len() as int));
        }
        c
    }

    /// Puts the byte `c` behind the bytes in the buffer. The buffer must not be full.
    pub fn write_byte(&mut self, c: u8)
        requires
            old(self).wf(),
            old(self).count() < 32,
        ensures
            final(self).wf(),
            final(self).content() == old(self).content().push(c),
            final(self).write_end == old(self).write_end,
    {
        self.status = RingBufferStatus::NORMAL;
        self.arr[self.tail] = c;
        self.tail = (self.tail + 1) % RING_BUFFER_SIZE;
        if self.head == self.tail {
            self.status = RingBufferStatus::FULL;
        }
        proof {
            let a = old(self).content();
            let b = self.content();
            assert(b.len() == a.len() + 1);
            assert forall|i: int| 0 <= i < b.len() implies b[i] == a.push(c)[i] by {
                if i < a.len() {
                    assert((old(self).head + i) % 32 != old(self).tail);
                } else {
                    assert((old(self).head + i) % 32 == old(self).tail);
                }
            }
            assert(b =~= a.push(c));
        }
    }

    /// Number of bytes that can be written.
    pub fn available_write(&self) -> (r: usize)
        requires
            self.wf(),
        ensures
            r == 32 - self.count(),
    {
        if self.status == RingBufferStatus::FULL {
            0
        } else {
            RING_BUFFER_SIZE - self.available_read()
        }
    }

    /// Whether every end that was open for writing is closed.
    pub fn all_write_ends_closed(&self) -> (r: bool)
        requires
            self.write_end.is_some(),
        ensures
            r == (self.write_end == Some(0usize)),
    {
        self.write_end.unwrap() == 0
    }
}

/// One end of a pipe: the end to read from or the end to write to, of the
/// buffer with the number `buffer`.
#[derive(Copy, Clone, Debug, PartialEq, Eq, Structural)]
pub struct Pipe {
    pub readable: bool,
    pub writable: bool,
    pub buffer: usize,
}

impl Pipe {
    /// The end of the buffer `buffer` to read from.
    pub fn read_end_with_buffer(buffer: usize) -> (r: Self)
        ensures
            r == (Pipe { readable: true, writable: false, buffer }),
    {
        Self { readable: true, writable: false, buffer }
    }

    /// The end of the buffer `buffer` to write to.
    pub fn write_end_with_buffer(buffer: usize) -> (r: Self)
        ensures
            r == (Pipe { readable: false, writable: true, buffer }),
    {
        Self { readable: false, writable: true, buffer }
    }
}

/// A new pipe: its buffer is added to `buffers`, with one end open for
/// writing. Returns the end to read from and the end to write to.
pub fn make_pipe(buffers: &mut Vec<PipeRingBuffer>) -> (r: (Pipe, Pipe))
    ensures
        final(buffers)@.len() == old(buffers)@.len() + 1,
        final(buffers)@.drop_last() == old(buffers)@,
        final(buffers)@.last().wf(),
        final(buffers)@.last().content() == Seq::<u8>::empty(),
        final(buffers)@.last().write_end == Some(1usize),
        r.0 == (Pipe { readable: true, writable: false, buffer: old(buffers)@.len() as usize }),
        r.1 == (Pipe { readable: false, writable: true, buffer: old(buffers)@.len() as usize }),
{
    let mut buffer = PipeRingBuffer::new();
    let id = buffers.len();
    let read_end = Pipe::read_end_with_buffer(id);
    let write_end = Pipe::write_end_with_buffer(id);
    buffer.set_write_end(1);
    assert(buffer.content() =~= Seq::<u8>::empty());
    buffers.push(buffer);
    assert(buffers@.drop_last() =~= old(buffers)@);
    (read_end, write_end)
}

/// What a read from or a write to a pipe came to.
#[derive(Copy, Clone, Debug, PartialEq, Eq, Structural)]
pub enum PipeStep {
    /// The call is over; so many bytes were moved in all.
    Done(usize),
    /// The task has to give up the processor and go on later; so many
    /// bytes were moved so far.
    Wait(usize),
}

/// The bytes of the buffer `s` that are moved when `want` more bytes are asked for: as many as there are, at most.
pub open spec fn moved(avail: int, want: int) -> int {
    if avail <= want {
        avail
    } else {
        want
    }
}

impl Pipe {
    /// One turn of a read from the pipe into a user buffer of which
    /// `read_size` bytes are filled already: the bytes in the ring buffer
    /// `ring` are moved, as far as the user buffer has room. The read is
    /// over when the user buffer was found full while bytes were left, or
    /// when the ring buffer is empty and no end is open for writing; else
    /// the task has to wait.
    /// Returns the step and the bytes that were moved in this turn, for the
    /// caller to store them in the user buffer.
    pub fn read(&self, ring: &mut PipeRingBuffer, want: usize, read_size: usize) -> (r: (PipeStep, Vec<u8>))
        requires
            self.readable,
            old(ring).wf(),
            old(ring).write_end.is_some(),
            read_size <= want,
        ensures
            final(ring).wf(),
            final(ring).write_end == old(ring).write_end,
            ({
                let avail = old(ring).content().len() as int;
                let n = moved(avail, want - read_size);
                &&& r.1@ == old(ring).content().subrange(0, n)
                &&& final(ring).content() == old(ring).content().subrange(n, avail)
                &&& r.0 == if avail == 0 {
                    if old(ring).write_end == Some(0usize) {
                        PipeStep::Done(read_size)
                    } else {
                        PipeStep::Wait(read_size)
                    }
                } else if avail > want - read_size || old(ring).write_end == Some(0usize) {
                    PipeStep::Done((read_size + n) as usize)
                } else {
                    PipeStep::Wait((read_size + n) as usize)
                }
            }),
    {
        let ghost c0 = ring.content();
        let mut out: Vec<u8> = Vec::new();
        let loop_read = ring.available_read();
        if loop_read == 0 {
            if ring.all_write_ends_closed() {
                assert(out@ =~= c0.subrange(0, 0));
                assert(ring.content() =~= c0.subrange(0, 0));
                return (PipeStep::Done(read_size), out);
            }
            assert(out@ =~= c0.subrange(0, 0));
            assert(ring.content() =~= c0.subrange(0, 0));
            return (PipeStep::Wait(read_size), out);
        }
        assert(out@ =~= c0.subrange(0, 0));
        assert(ring.content() =~= c0.subrange(0, c0.len() as int));
        let mut done = read_size;
        let mut i: usize = 0;
        while i < loop_read
            invariant
                i <= loop_read == c0.len(),
                c0 == old(ring).content(),
                ring.wf(),
                ring.write_end == old(ring).write_end,
                read_size <= done <= want,
                done == read_size + i,
                out@ == c0.subrange(0, i as int),
                ring.content() == c0.subrange(i as int, c0.len() as int),
                ring.count() == c0.len() - i,
            decreases loop_read - i,
        {
            if done < want {
                let b = ring.read_byte();
                out.push(b);
                done += 1;
                proof {
                    assert(out@ =~= c0.subrange(0, i + 1));
                    assert(ring.content() =~= c0.subrange(i + 1, c0.len() as int));
                    assert(ring.content().len() == c0.len() - i - 1);
                }
            } else {
                return (PipeStep::Done(done), out);
            }
            i += 1;
        }
        if ring.all_write_ends_closed() {
            (PipeStep::Done(done), out)
        } else {
            (PipeStep::Wait(done), out)
        }
    }

    /// One turn of a write to the pipe of the bytes `data`, of which
    /// `write_size` are written already: bytes are moved into the ring
    /// buffer `ring` as far as it has room. The write is over when every
    /// byte was found written while room was left; else the task has to wait.
    pub fn write(&self, ring: &mut PipeRingBuffer, data: &[u8], write_size: usize) -> (r: PipeStep)
        requires
            self.writable,
            old(ring).wf(),
            write_size <= data@.len(),
        ensures
            final(ring).wf(),
            final(ring).write_end == old(ring).write_end,
            ({
                let room = 32 - old(ring).content().len();
                let n = moved(room, data@.len() - write_size);
                &&& final(ring).content() == old(ring).content() + data@.subrange(
                    write_size as int,
                    write_size + n,
                )
                &&& r == if room == 0 {
                    PipeStep::Wait(write_size)
                } else if room > data@.len() - write_size {
                    PipeStep::Done((write_size + n) as usize)
                } else {
                    PipeStep::Wait((write_size + n) as usize)
                }
            }),
    {
        let ghost c0 = ring.content();
        let loop_write = ring.available_write();
        if loop_write == 0 {
            assert(ring.content() =~= c0 + data@.subrange(write_size as int, write_size as int));
            return PipeStep::Wait(write_size);
        }
        assert(ring.content() =~= c0 + data@.subrange(write_size as int, write_size as int));
        let total = data.len();
        let mut done = write_size;
        let mut i: usize = 0;
        while i < loop_write
            invariant
                i <= loop_write == 32 - c0.len(),
                c0 == old(ring).content(),
                total == data@.len(),
                ring.wf(),
                ring.write_end == old(ring).write_end,
                write_size <= done <= total,
                done == write_size + i,
                ring.content() == c0 + data@.subrange(write_size as int, done as int),
                ring.count() == c0.len() + i,
            decreases loop_write - i,
        {
            if done < total {
                ring.write_byte(data[done]);
                done += 1;
                proof {
                    assert(ring.content() =~= c0 + data@.subrange(write_size as int, done as int));
                    assert(ring.content().len() == c0.len() + i + 1);
                }
            } else {
                return PipeStep::Done(done);
            }
            i += 1;
        }
        PipeStep::Wait(done)
    }
}

} // verus!
