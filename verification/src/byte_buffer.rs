//! Fixed 512-byte framed read/write cursor with big-endian integer helpers.

use vstd::prelude::*;
use vstd::slice::slice_subrange;

verus! {

/// Errors of the wire-format codec.
///
/// `BufferOverflow` is any read or write past the end of the 512-byte frame;
/// `MalformedName` is a domain name whose compression-pointer chain is longer
/// than the hard cap of 5 traversals.
#[derive(Clone, Copy, Debug, PartialEq, Eq, Structural)]
pub enum DnsError {
    BufferOverflow,
    MalformedName,
}

/// Size of the DNS message frame in bytes.
pub const FRAME_SIZE: usize = 512;

/// The value of a big-endian `u16` stored as two bytes.
pub open spec fn u16_of_bytes(hi: u8, lo: u8) -> u16 {
    ((hi as int) * 256 + (lo as int)) as u16
}

/// The two big-endian bytes of a `u16`.
pub open spec fn u16_bytes(v: u16) -> Seq<u8> {
    seq![(v / 256) as u8, (v % 256) as u8]
}

/// The value of a big-endian `u32` stored as four bytes.
pub open spec fn u32_of_bytes(b0: u8, b1: u8, b2: u8, b3: u8) -> u32 {
    ((b0 as int) * 0x1000000 + (b1 as int) * 0x10000 + (b2 as int) * 0x100 + (b3 as int)) as u32
}

/// The four big-endian bytes of a `u32`.
pub open spec fn u32_bytes(v: u32) -> Seq<u8> {
    seq![
        (v / 0x1000000) as u8,
        ((v / 0x10000) % 0x100) as u8,
        ((v / 0x100) % 0x100) as u8,
        (v % 0x100) as u8,
    ]
}

/// Reading back the two bytes of a `u16` yields the value again.
pub proof fn lemma_u16_round_trip(v: u16)
    ensures
        u16_of_bytes(u16_bytes(v)[0], u16_bytes(v)[1]) == v,
{
}

/// Reading back the four bytes of a `u32` yields the value again.
pub proof fn lemma_u32_round_trip(v: u32)
    ensures
        u32_of_bytes(u32_bytes(v)[0], u32_bytes(v)[1], u32_bytes(v)[2], u32_bytes(v)[3]) == v,
{
}

/// A 512-byte frame with a movable cursor.
///
/// Reads and writes advance `position`; `get`, `set` and their 16-bit
/// variants are positional.  Every access past offset 511 fails with
/// `BufferOverflow`.
pub struct ByteBuffer {
    pub buffer: Vec<u8>,
    pub position: usize,
}

impl ByteBuffer {
    /// The frame always spans exactly `FRAME_SIZE` bytes.
    pub open spec fn wf(&self) -> bool {
        self.buffer@.len() == FRAME_SIZE
    }

    /// A fresh zeroed frame with the cursor at the start.
    pub fn new() -> (r: ByteBuffer)
        ensures
            r.wf(),
            r.position == 0,
            r.buffer@ =~= Seq::new(FRAME_SIZE as nat, |i: int| 0u8),
    {
        let mut buffer: Vec<u8> = Vec::new();
        let mut i: usize = 0;
        while i < FRAME_SIZE
            invariant
                i <= FRAME_SIZE,
                buffer@ =~= Seq::new(i as nat, |j: int| 0u8),
            decreases FRAME_SIZE - i,
        {
            buffer.push(0);
            i = i + 1;
        }
        ByteBuffer { buffer, position: 0 }
    }

    /// The current cursor position.
    pub fn position(&self) -> (r: usize)
        ensures
            r == self.position,
    {
        self.position
    }

    /// Advance the cursor by `steps` bytes.
    pub fn step(&mut self, steps: usize) -> (r: Result<(), DnsError>)
        requires
            old(self).position + steps <= usize::MAX,
        ensures
            final(self).buffer == old(self).buffer,
            final(self).position == old(self).position + steps,
            r is Ok,
    {
        self.position = self.position + steps;
        Ok(())
    }

    /// Move the cursor to an absolute position.
    pub fn seek(&mut self, position: usize) -> (r: Result<(), DnsError>)
        ensures
            final(self).buffer == old(self).buffer,
            final(self).position == position,
            r is Ok,
    {
        self.position = position;
        Ok(())
    }

    /// Read one byte at the cursor and advance past it.
    pub fn read(&mut self) -> (r: Result<u8, DnsError>)
        requires
            old(self).wf(),
        ensures
            final(self).buffer == old(self).buffer,
            old(self).position < FRAME_SIZE ==> {
                &&& r == Ok::<u8, DnsError>(old(self).buffer@[old(self).position as int])
                &&& final(self).position == old(self).position + 1
            },
            old(self).position >= FRAME_SIZE ==> {
                &&& r == Err::<u8, DnsError>(DnsError::BufferOverflow)
                &&& final(self).position == old(self).position
            },
    {
        if self.position >= FRAME_SIZE {
            return Err(DnsError::BufferOverflow);
        }
        let res = self.buffer[self.position];
        self.position = self.position + 1;
        Ok(res)
    }

    /// Read the byte at an absolute position without moving the cursor.
    pub fn get(&self, position: usize) -> (r: Result<u8, DnsError>)
        requires
            self.wf(),
        ensures
            position < FRAME_SIZE ==> r == Ok::<u8, DnsError>(self.buffer@[position as int]),
            position >= FRAME_SIZE ==> r == Err::<u8, DnsError>(DnsError::BufferOverflow),
    {
        if position >= FRAME_SIZE {
            return Err(DnsError::BufferOverflow);
        }
        Ok(self.buffer[position])
    }

    /// The bytes in `[start, end)`, when both bounds lie strictly inside the
    /// frame.
    pub fn get_range_(&self, start: usize, end: usize) -> (r: Result<&[u8], DnsError>)
        requires
            self.wf(),
            start <= end,
        ensures
            start < FRAME_SIZE && end < FRAME_SIZE ==> {
                &&& r is Ok
                &&& r->Ok_0@ == self.buffer@.subrange(start as int, end as int)
            },
            start >= FRAME_SIZE || end >= FRAME_SIZE ==> r == Err::<&[u8], DnsError>(
                DnsError::BufferOverflow,
            ),
    {
        if start >= FRAME_SIZE || end >= FRAME_SIZE {
            return Err(DnsError::BufferOverflow);
        }
        Ok(slice_subrange(self.buffer.as_slice(), start, end))
    }

    /// The `len` bytes starting at `start`, when the range lies strictly
    /// inside the frame.
    pub fn get_range(&self, start: usize, len: usize) -> (r: Result<&[u8], DnsError>)
        requires
            self.wf(),
            start + len <= usize::MAX,
        ensures
            start < FRAME_SIZE && start + len < FRAME_SIZE ==> {
                &&& r is Ok
                &&& r->Ok_0@ == self.buffer@.subrange(start as int, start + len)
            },
            start >= FRAME_SIZE || start + len >= FRAME_SIZE ==> r == Err::<&[u8], DnsError>(
                DnsError::BufferOverflow,
            ),
    {
        self.get_range_(start, start + len)
    }

    /// Read a big-endian `u16` at the cursor.
    pub fn read_u16(&mut self) -> (r: Result<u16, DnsError>)
        requires
            old(self).wf(),
        ensures
            final(self).buffer == old(self).buffer,
            old(self).position + 2 <= FRAME_SIZE ==> {
                &&& r == Ok::<u16, DnsError>(
                    u16_of_bytes(
                        old(self).buffer@[old(self).position as int],
                        old(self).buffer@[old(self).position + 1],
                    ),
                )
                &&& final(self).position == old(self).position + 2
            },
            old(self).position + 2 > FRAME_SIZE ==> {
                &&& r == Err::<u16, DnsError>(DnsError::BufferOverflow)
                &&& final(self).position == if old(self).position >= FRAME_SIZE {
                    old(self).position as int
                } else {
                    FRAME_SIZE as int
                }
            },
    {
        let hi = self.read()?;
        let lo = self.read()?;
        Ok((hi as u16) * 256 + (lo as u16))
    }

    /// Read a big-endian `u32` at the cursor.
    pub fn read_u32(&mut self) -> (r: Result<u32, DnsError>)
        requires
            old(self).wf(),
        ensures
            final(self).buffer == old(self).buffer,
            old(self).position + 4 <= FRAME_SIZE ==> {
                &&& r == Ok::<u32, DnsError>(
                    u32_of_bytes(
                        old(self).buffer@[old(self).position as int],
                        old(self).buffer@[old(self).position + 1],
                        old(self).buffer@[old(self).position + 2],
                        old(self).buffer@[old(self).position + 3],
                    ),
                )
                &&& final(self).position == old(self).position + 4
            },
            old(self).position + 4 > FRAME_SIZE ==> {
                &&& r is Err
                &&& r == Err::<u32, DnsError>(DnsError::BufferOverflow)
                &&& final(self).position == if old(self).position >= FRAME_SIZE {
                    old(self).position as int
                } else {
                    FRAME_SIZE as int
                }
            },
    {
        let b0 = self.read()?;
        let b1 = self.read()?;
        let b2 = self.read()?;
        let b3 = self.read()?;
        Ok((b0 as u32) * 0x1000000 + (b1 as u32) * 0x10000 + (b2 as u32) * 0x100 + (b3 as u32))
    }

    /// Write one byte at the cursor and advance past it.
    pub fn write(&mut self, val: u8) -> (r: Result<(), DnsError>)
        requires
            old(self).wf(),
        ensures
            final(self).wf(),
            old(self).position < FRAME_SIZE ==> {
                &&& r is Ok
                &&& final(self).buffer@ == old(self).buffer@.update(
                    old(self).position as int,
                    val,
                )
                &&& final(self).position == old(self).position + 1
            },
            old(self).position >= FRAME_SIZE ==> {
                &&& r == Err::<(), DnsError>(DnsError::BufferOverflow)
                &&& final(self).buffer == old(self).buffer
                &&& final(self).position == old(self).position
            },
    {
        if self.position >= FRAME_SIZE {
            return Err(DnsError::BufferOverflow);
        }
        self.buffer.set(self.position, val);
        self.position = self.position + 1;
        Ok(())
    }

    /// Write one byte at the cursor; identical to `write`.
    pub fn write_u8(&mut self, val: u8) -> (r: Result<(), DnsError>)
        requires
            old(self).wf(),
        ensures
            final(self).wf(),
            old(self).position < FRAME_SIZE ==> {
                &&& r is Ok
                &&& final(self).buffer@ == old(self).buffer@.update(
                    old(self).position as int,
                    val,
                )
                &&& final(self).position == old(self).position + 1
            },
            old(self).position >= FRAME_SIZE ==> {
                &&& r == Err::<(), DnsError>(DnsError::BufferOverflow)
                &&& final(self).buffer == old(self).buffer
                &&& final(self).position == old(self).position
            },
    {
        self.write(val)
    }

    /// Write a big-endian `u16` at the cursor.
    pub fn write_u16(&mut self, val: u16) -> (r: Result<(), DnsError>)
        requires
            old(self).wf(),
        ensures
            final(self).wf(),
            final(self).position >= old(self).position,
            final(self).buffer@.subrange(0, min_int(old(self).position as int, FRAME_SIZE as int))
                == old(self).buffer@.subrange(
                0,
                min_int(old(self).position as int, FRAME_SIZE as int),
            ),
            old(self).position + 2 <= FRAME_SIZE ==> {
                &&& r is Ok
                &&& final(self).buffer@ == old(self).buffer@.update(
                    old(self).position as int,
                    u16_bytes(val)[0],
                ).update(old(self).position + 1, u16_bytes(val)[1])
                &&& final(self).position == old(self).position + 2
            },
            old(self).position + 2 > FRAME_SIZE ==> r == Err::<(), DnsError>(
                DnsError::BufferOverflow,
            ),
    {
        self.write((val / 256) as u8)?;
        self.write((val % 256) as u8)?;
        Ok(())
    }

    /// Write a big-endian `u32` at the cursor.
    pub fn write_u32(&mut self, val: u32) -> (r: Result<(), DnsError>)
        requires
            old(self).wf(),
        ensures
            final(self).wf(),
            final(self).position >= old(self).position,
            final(self).buffer@.subrange(0, min_int(old(self).position as int, FRAME_SIZE as int))
                == old(self).buffer@.subrange(
                0,
                min_int(old(self).position as int, FRAME_SIZE as int),
            ),
            old(self).position + 4 <= FRAME_SIZE ==> {
                &&& r is Ok
                &&& final(self).buffer@ == old(self).buffer@.update(
                    old(self).position as int,
                    u32_bytes(val)[0],
                ).update(old(self).position + 1, u32_bytes(val)[1]).update(
                    old(self).position + 2,
                    u32_bytes(val)[2],
                ).update(old(self).position + 3, u32_bytes(val)[3])
                &&& final(self).position == old(self).position + 4
            },
            old(self).position + 4 > FRAME_SIZE ==> r == Err::<(), DnsError>(
                DnsError::BufferOverflow,
            ),
    {
        self.write((val / 0x1000000) as u8)?;
        self.write(((val / 0x10000) % 0x100) as u8)?;
        self.write(((val / 0x100) % 0x100) as u8)?;
        self.write((val % 0x100) as u8)?;
        Ok(())
    }

    /// Overwrite the byte at an absolute position without moving the cursor.
    pub fn set(&mut self, position: usize, val: u8) -> (r: Result<(), DnsError>)
        requires
            old(self).wf(),
        ensures
            final(self).wf(),
            final(self).position == old(self).position,
            position < FRAME_SIZE ==> {
                &&& r is Ok
                &&& final(self).buffer@ == old(self).buffer@.update(position as int, val)
            },
            position >= FRAME_SIZE ==> {
                &&& r == Err::<(), DnsError>(DnsError::BufferOverflow)
                &&& final(self).buffer == old(self).buffer
            },
    {
        if position >= FRAME_SIZE {
            return Err(DnsError::BufferOverflow);
        }
        self.buffer.set(position, val);
        Ok(())
    }

    /// Back-patch a big-endian `u16` at an absolute position.
    pub fn set_u16(&mut self, position: usize, val: u16) -> (r: Result<(), DnsError>)
        requires
            old(self).wf(),
            position + 1 <= usize::MAX,
        ensures
            final(self).wf(),
            final(self).position == old(self).position,
            position + 1 < FRAME_SIZE ==> {
                &&& r is Ok
                &&& final(self).buffer@ == old(self).buffer@.update(
                    position as int,
                    u16_bytes(val)[0],
                ).update(position + 1, u16_bytes(val)[1])
            },
            position + 1 >= FRAME_SIZE ==> r == Err::<(), DnsError>(DnsError::BufferOverflow),
            position >= FRAME_SIZE ==> final(self).buffer == old(self).buffer,
    {
        self.set(position, (val / 256) as u8)?;
        self.set(position + 1, (val % 256) as u8)?;
        Ok(())
    }

    /// A fresh frame holding a copy of `buffer` at the start, zero-padded,
    /// with the cursor at the start.
    pub fn from_buffer(buffer: &[u8]) -> (r: ByteBuffer)
        requires
            buffer@.len() <= FRAME_SIZE,
        ensures
            r.wf(),
            r.position == 0,
            r.buffer@ =~= buffer@ + Seq::new((FRAME_SIZE - buffer@.len()) as nat, |i: int| 0u8),
    {
        let mut new_buffer = ByteBuffer::new();
        let mut i: usize = 0;
        while i < buffer.len()
            invariant
                i <= buffer@.len() <= FRAME_SIZE,
                new_buffer.wf(),
                new_buffer.position == 0,
                new_buffer.buffer@ =~= buffer@.subrange(0, i as int) + Seq::new(
                    (FRAME_SIZE - i) as nat,
                    |j: int| 0u8,
                ),
            decreases buffer@.len() - i,
        {
            let val = buffer[i];
            let res = new_buffer.set(i, val);
            i = i + 1;
        }
        new_buffer
    }
}

/// The smaller of two mathematical integers.
pub open spec fn min_int(a: int, b: int) -> int {
    if a <= b {
        a
    } else {
        b
    }
}

} // verus!
