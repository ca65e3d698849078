//! The question section entry: a name and a query type.

use vstd::prelude::*;

use crate::byte_buffer::{u16_bytes, u16_of_bytes, ByteBuffer, DnsError, FRAME_SIZE};
use crate::qname::{decode_qname_at, join_labels, qname_bytes, QnameDecode};
use crate::query_type::{qtype_num, qtype_of_num, QueryType};

verus! {

/// One question: the queried name and type.  The 16-bit class is always
/// written as 1 and ignored on decode.
#[derive(Clone, Debug, PartialEq, Eq)]
pub struct DnsQuestion {
    pub name: String,
    pub qtype: QueryType,
}

/// The wire form of a question.
pub open spec fn question_bytes(name: Seq<char>, qtype: QueryType) -> Seq<u8> {
    qname_bytes(name) + u16_bytes(qtype_num(qtype)) + u16_bytes(1)
}

/// The outcome of decoding a question at `pos`: the (lower-cased) name,
/// the type, and the cursor position after the entry.
pub enum QuestionDecode {
    Done { name: Seq<char>, qtype: QueryType, end: int },
    Fail { err: DnsError },
}

/// The decode of the question at `pos`.
pub open spec fn decode_question_at(buf: Seq<u8>, pos: int) -> QuestionDecode {
    match decode_qname_at(buf, pos, 0, None::<int>) {
        QnameDecode::Done { labels, end } => {
            if end + 4 <= 512 {
                QuestionDecode::Done {
                    name: join_labels(labels),
                    qtype: qtype_of_num(u16_of_bytes(buf[end], buf[end + 1])),
                    end: end + 4,
                }
            } else {
                QuestionDecode::Fail { err: DnsError::BufferOverflow }
            }
        },
        QnameDecode::Fail { err } => QuestionDecode::Fail { err },
    }
}

/// A question the codec round-trips: a well-formed name and a type whose
/// wire code decodes back to it.
pub open spec fn rt_question_wf(name: Seq<char>, qtype: QueryType) -> bool {
    crate::qname::qname_wf(name) && qtype_of_num(qtype_num(qtype)) == qtype
}

/// Question round trip: a well-formed question written at `pos` decodes to
/// its lower-cased self, consuming exactly its encoding.
pub proof fn lemma_question_round_trip(buf: Seq<u8>, pos: int, name: Seq<char>, qtype: QueryType)
    requires
        buf.len() == 512,
        0 <= pos,
        pos + question_bytes(name, qtype).len() <= 512,
        buf.subrange(pos, pos + question_bytes(name, qtype).len()) == question_bytes(name, qtype),
        rt_question_wf(name, qtype),
    ensures
        decode_question_at(buf, pos) == (QuestionDecode::Done {
            name: crate::qname::lower_name(name),
            qtype,
            end: pos + question_bytes(name, qtype).len(),
        }),
{
    let qb = qname_bytes(name);
    let w = question_bytes(name, qtype);
    assert forall|j: int| 0 <= j < w.len() implies buf[pos + j] == w[j] by {
        assert(buf.subrange(pos, pos + w.len() as int)[j] == buf[pos + j]);
    }
    assert(buf.subrange(pos, pos + qb.len() as int) =~= qb) by {
        assert forall|j: int| 0 <= j < qb.len() implies buf.subrange(pos, pos + qb.len() as int)[j]
            == qb[j] by {
            assert(w[j] == qb[j]);
        }
    }
    crate::qname::lemma_qname_round_trip(buf, pos, name);
    let end = pos + qb.len() as int;
    assert(buf[end] == w[qb.len() as int]);
    assert(buf[end + 1] == w[qb.len() as int + 1]);
    assert(w[qb.len() as int] == u16_bytes(qtype_num(qtype))[0]);
    assert(w[qb.len() as int + 1] == u16_bytes(qtype_num(qtype))[1]);
    crate::byte_buffer::lemma_u16_round_trip(qtype_num(qtype));
    assert(u16_of_bytes(buf[end], buf[end + 1]) == qtype_num(qtype));
}

impl DnsQuestion {
    /// A question with the given name and type.
    pub fn new(name: String, qtype: QueryType) -> (r: DnsQuestion)
        ensures
            r.name@ == name@,
            r.qtype == qtype,
    {
        DnsQuestion { name, qtype }
    }

    /// Decode the question at the cursor, appending its name to `name`.
    pub fn read(&mut self, buffer: &mut ByteBuffer) -> (r: Result<(), DnsError>)
        requires
            old(buffer).wf(),
        ensures
            final(buffer).wf(),
            final(buffer).buffer@ == old(buffer).buffer@,
            match decode_question_at(old(buffer).buffer@, old(buffer).position as int) {
                QuestionDecode::Done { name, qtype, end } => {
                    &&& r is Ok
                    &&& final(self).name@ == old(self).name@ + name
                    &&& final(self).qtype == qtype
                    &&& final(buffer).position == end
                },
                QuestionDecode::Fail { err } => r == Err::<(), DnsError>(err),
            },
    {
        buffer.read_qname(&mut self.name)?;
        let t = buffer.read_u16()?;
        self.qtype = QueryType::from_num(t);
        let _ = buffer.read_u16()?;

        Ok(())
    }

    /// Encode this question at the cursor.
    pub fn write(&self, buffer: &mut ByteBuffer) -> (r: Result<(), DnsError>)
        requires
            old(buffer).wf(),
        ensures
            final(buffer).wf(),
            final(buffer).position >= old(buffer).position,
            old(buffer).position <= FRAME_SIZE ==> final(buffer).buffer@.subrange(
                0,
                old(buffer).position as int,
            ) == old(buffer).buffer@.subrange(0, old(buffer).position as int),
            old(buffer).position + question_bytes(self.name@, self.qtype).len() <= FRAME_SIZE
                ==> {
                &&& r is Ok
                &&& final(buffer).buffer@ == old(buffer).buffer@.subrange(
                    0,
                    old(buffer).position as int,
                ) + question_bytes(self.name@, self.qtype) + old(buffer).buffer@.subrange(
                    old(buffer).position + question_bytes(self.name@, self.qtype).len(),
                    FRAME_SIZE as int,
                )
                &&& final(buffer).position == old(buffer).position + question_bytes(
                    self.name@,
                    self.qtype,
                ).len()
            },
            old(buffer).position + question_bytes(self.name@, self.qtype).len() > FRAME_SIZE
                ==> r == Err::<(), DnsError>(DnsError::BufferOverflow),
    {
        let ghost bb = buffer.buffer@;
        let ghost p0 = buffer.position as int;
        let ghost qb = question_bytes(self.name@, self.qtype);
        buffer.write_qname(self.name.as_str())?;
        let n = self.qtype.to_num();
        buffer.write_u16(n)?;
        buffer.write_u16(1)?;
        proof {
            if p0 + qb.len() <= FRAME_SIZE {
                assert(buffer.buffer@ =~= bb.subrange(0, p0) + qb + bb.subrange(
                    p0 + qb.len(),
                    FRAME_SIZE as int,
                ));
            }
            if p0 <= FRAME_SIZE {
                assert(buffer.buffer@.subrange(0, p0) =~= bb.subrange(0, p0));
            }
        }
        Ok(())
    }
}

} // verus!
