//! The 12-byte DNS message header.

use vstd::prelude::*;

use crate::byte_buffer::{u16_bytes, u16_of_bytes, ByteBuffer, DnsError, FRAME_SIZE};
use crate::result_code::{rescode_num, rescode_of_num, ResultCode};

verus! {

/// The fixed header of every DNS message: the 16-bit id, the packed flag
/// word, and the four section counts that drive section decoding.
#[derive(Clone, Copy, Debug, PartialEq, Eq, Structural)]
pub struct DnsHeader {
    pub id: u16,
    pub recursion_desired: bool,
    pub truncated_message: bool,
    pub authoritative_answer: bool,
    pub opcode: u8,
    pub response: bool,
    pub rescode: ResultCode,
    pub checking_disabled: bool,
    pub authed_data: bool,
    pub z: bool,
    pub recursion_available: bool,
    pub questions: u16,
    pub answers: u16,
    pub authoritative_entries: u16,
    pub resource_entries: u16,
}

/// 1 when the flag is set, 0 when it is not.
pub open spec fn bit(b: bool) -> int {
    if b {
        1
    } else {
        0
    }
}

impl DnsHeader {
    /// The opcode occupies four bits on the wire.
    pub open spec fn wf(&self) -> bool {
        self.opcode < 16
    }

    /// The high byte of the flag word.
    pub open spec fn flags_hi(&self) -> u8 {
        (bit(self.recursion_desired) + 2 * bit(self.truncated_message) + 4 * bit(
            self.authoritative_answer,
        ) + 8 * (self.opcode as int) + 128 * bit(self.response)) as u8
    }

    /// The low byte of the flag word.
    pub open spec fn flags_lo(&self) -> u8 {
        (rescode_num(self.rescode) + 16 * bit(self.checking_disabled) + 32 * bit(self.authed_data)
            + 64 * bit(self.z) + 128 * bit(self.recursion_available)) as u8
    }

    /// The 12 bytes of this header on the wire.
    pub open spec fn header_bytes(&self) -> Seq<u8> {
        u16_bytes(self.id) + seq![self.flags_hi(), self.flags_lo()] + u16_bytes(self.questions)
            + u16_bytes(self.answers) + u16_bytes(self.authoritative_entries) + u16_bytes(
            self.resource_entries,
        )
    }
}

/// The header the six 16-bit words at `pos` stand for.
pub open spec fn header_of_bytes(buf: Seq<u8>, pos: int) -> DnsHeader {
    let a = buf[pos + 2] as int;
    let b = buf[pos + 3] as int;
    DnsHeader {
        id: u16_of_bytes(buf[pos], buf[pos + 1]),
        recursion_desired: a % 2 == 1,
        truncated_message: (a / 2) % 2 == 1,
        authoritative_answer: (a / 4) % 2 == 1,
        opcode: ((a / 8) % 16) as u8,
        response: (a / 128) % 2 == 1,
        rescode: rescode_of_num((b % 16) as u8),
        checking_disabled: (b / 16) % 2 == 1,
        authed_data: (b / 32) % 2 == 1,
        z: (b / 64) % 2 == 1,
        recursion_available: (b / 128) % 2 == 1,
        questions: u16_of_bytes(buf[pos + 4], buf[pos + 5]),
        answers: u16_of_bytes(buf[pos + 6], buf[pos + 7]),
        authoritative_entries: u16_of_bytes(buf[pos + 8], buf[pos + 9]),
        resource_entries: u16_of_bytes(buf[pos + 10], buf[pos + 11]),
    }
}

/// Writing a well-formed header and reading the bytes back yields the same
/// header.
#[verifier::rlimit(100)]
pub proof fn lemma_header_round_trip(h: DnsHeader, buf: Seq<u8>, pos: int)
    requires
        h.wf(),
        buf.len() == 512,
        0 <= pos,
        pos + 12 <= 512,
        buf.subrange(pos, pos + 12) == h.header_bytes(),
    ensures
        header_of_bytes(buf, pos) == h,
{
    let hb = h.header_bytes();
    assert forall|j: int| 0 <= j < 12 implies buf[pos + j] == hb[j] by {
        assert(buf.subrange(pos, pos + 12)[j] == buf[pos + j]);
    }
    let a = buf[pos + 2] as int;
    let b = buf[pos + 3] as int;
    assert(hb[2] == h.flags_hi());
    assert(hb[3] == h.flags_lo());
    assert(0 <= bit(h.recursion_desired) + 2 * bit(h.truncated_message) + 4 * bit(
        h.authoritative_answer,
    ) + 8 * (h.opcode as int) + 128 * bit(h.response) <= 255);
    assert(0 <= rescode_num(h.rescode) + 16 * bit(h.checking_disabled) + 32 * bit(h.authed_data)
        + 64 * bit(h.z) + 128 * bit(h.recursion_available) <= 255);
    assert(a == bit(h.recursion_desired) + 2 * bit(h.truncated_message) + 4 * bit(
        h.authoritative_answer,
    ) + 8 * (h.opcode as int) + 128 * bit(h.response));
    assert(b == rescode_num(h.rescode) + 16 * bit(h.checking_disabled) + 32 * bit(h.authed_data)
        + 64 * bit(h.z) + 128 * bit(h.recursion_available));
    assert(a % 2 == bit(h.recursion_desired));
    assert((a / 2) % 2 == bit(h.truncated_message));
    assert((a / 4) % 2 == bit(h.authoritative_answer));
    assert((a / 8) % 16 == h.opcode as int);
    assert((a / 128) % 2 == bit(h.response));
    assert(b % 16 == rescode_num(h.rescode));
    assert((b / 16) % 2 == bit(h.checking_disabled));
    assert((b / 32) % 2 == bit(h.authed_data));
    assert((b / 64) % 2 == bit(h.z));
    assert((b / 128) % 2 == bit(h.recursion_available));
    assert(u16_of_bytes(hb[0], hb[1]) == h.id);
    assert(u16_of_bytes(hb[4], hb[5]) == h.questions);
    assert(u16_of_bytes(hb[6], hb[7]) == h.answers);
    assert(u16_of_bytes(hb[8], hb[9]) == h.authoritative_entries);
    assert(u16_of_bytes(hb[10], hb[11]) == h.resource_entries);
}

impl DnsHeader {
    /// A header with every field cleared.
    pub open spec fn spec_new() -> DnsHeader {
        DnsHeader {
            id: 0,
            recursion_desired: false,
            truncated_message: false,
            authoritative_answer: false,
            opcode: 0,
            response: false,
            rescode: ResultCode::NOERROR,
            checking_disabled: false,
            authed_data: false,
            z: false,
            recursion_available: false,
            questions: 0,
            answers: 0,
            authoritative_entries: 0,
            resource_entries: 0,
        }
    }

    /// A header with every field cleared.
    pub fn new() -> (r: DnsHeader)
        ensures
            r == DnsHeader::spec_new(),
            r.wf(),
    {
        DnsHeader {
            id: 0,
            recursion_desired: false,
            truncated_message: false,
            authoritative_answer: false,
            opcode: 0,
            response: false,
            rescode: ResultCode::NOERROR,
            checking_disabled: false,
            authed_data: false,
            z: false,
            recursion_available: false,
            questions: 0,
            answers: 0,
            authoritative_entries: 0,
            resource_entries: 0,
        }
    }

    /// Decode the 12 header bytes at the cursor into `self`.
    pub fn read(&mut self, buffer: &mut ByteBuffer) -> (r: Result<(), DnsError>)
        requires
            old(buffer).wf(),
        ensures
            final(buffer).wf(),
            final(buffer).buffer@ == old(buffer).buffer@,
            old(buffer).position + 12 <= FRAME_SIZE ==> {
                &&& r is Ok
                &&& *final(self) == header_of_bytes(
                    old(buffer).buffer@,
                    old(buffer).position as int,
                )
                &&& final(self).wf()
                &&& final(buffer).position == old(buffer).position + 12
            },
            old(buffer).position + 12 > FRAME_SIZE ==> r == Err::<(), DnsError>(
                DnsError::BufferOverflow,
            ),
    {
        self.id = buffer.read_u16()?;

        let flags = buffer.read_u16()?;
        let a = (flags / 256) as u8;
        let b = (flags % 256) as u8;
        self.recursion_desired = a % 2 == 1;
        self.truncated_message = (a / 2) % 2 == 1;
        self.authoritative_answer = (a / 4) % 2 == 1;
        self.opcode = (a / 8) % 16;
        self.response = (a / 128) % 2 == 1;

        self.rescode = ResultCode::from_num(b % 16);
        self.checking_disabled = (b / 16) % 2 == 1;
        self.authed_data = (b / 32) % 2 == 1;
        self.z = (b / 64) % 2 == 1;
        self.recursion_available = (b / 128) % 2 == 1;

        self.questions = buffer.read_u16()?;
        self.answers = buffer.read_u16()?;
        self.authoritative_entries = buffer.read_u16()?;
        self.resource_entries = buffer.read_u16()?;

        Ok(())
    }

    /// Encode this header at the cursor.
    #[verifier::rlimit(100)]
    pub fn write(&self, buffer: &mut ByteBuffer) -> (r: Result<(), DnsError>)
        requires
            old(buffer).wf(),
            self.wf(),
        ensures
            final(buffer).wf(),
            final(buffer).position >= old(buffer).position,
            old(buffer).position <= FRAME_SIZE ==> final(buffer).buffer@.subrange(
                0,
                old(buffer).position as int,
            ) == old(buffer).buffer@.subrange(0, old(buffer).position as int),
            old(buffer).position + 12 <= FRAME_SIZE ==> {
                &&& r is Ok
                &&& final(buffer).buffer@ == old(buffer).buffer@.subrange(
                    0,
                    old(buffer).position as int,
                ) + self.header_bytes() + old(buffer).buffer@.subrange(
                    old(buffer).position + 12,
                    FRAME_SIZE as int,
                )
                &&& final(buffer).position == old(buffer).position + 12
            },
            old(buffer).position + 12 > FRAME_SIZE ==> r == Err::<(), DnsError>(
                DnsError::BufferOverflow,
            ),
    {
        let ghost bb = buffer.buffer@;
        let ghost p0 = buffer.position as int;
        buffer.write_u16(self.id)?;

        let mut a: u8 = 0;
        if self.recursion_desired {
            a = a + 1;
        }
        if self.truncated_message {
            a = a + 2;
        }
        if self.authoritative_answer {
            a = a + 4;
        }
        a = a + self.opcode * 8;
        if self.response {
            a = a + 128;
        }

        let mut b: u8 = self.rescode.to_num();
        if self.checking_disabled {
            b = b + 16;
        }
        if self.authed_data {
            b = b + 32;
        }
        if self.z {
            b = b + 64;
        }
        if self.recursion_available {
            b = b + 128;
        }
        proof {
            assert(a == self.flags_hi());
            assert(b == self.flags_lo());
        }

        buffer.write_u16((a as u16) * 256 + (b as u16))?;
        buffer.write_u16(self.questions)?;
        buffer.write_u16(self.answers)?;
        buffer.write_u16(self.authoritative_entries)?;
        buffer.write_u16(self.resource_entries)?;

        proof {
            if p0 + 12 <= FRAME_SIZE {
                assert(buffer.buffer@ =~= bb.subrange(0, p0) + self.header_bytes() + bb.subrange(
                    p0 + 12,
                    FRAME_SIZE as int,
                ));
            }
            if p0 <= FRAME_SIZE {
                assert(buffer.buffer@.subrange(0, p0) =~= bb.subrange(0, p0));
            }
        }
        Ok(())
    }
}

} // verus!
