//! The DNS packet: header plus four sections, with its codec and the
//! navigation helpers the resolver uses.

use vstd::prelude::*;

use crate::byte_buffer::{ByteBuffer, DnsError, FRAME_SIZE};
use crate::header::{header_of_bytes, DnsHeader};
use crate::query_type::QueryType;
use crate::question::{decode_question_at, question_bytes, DnsQuestion, QuestionDecode};
use crate::record::{decode_record_at, record_bytes, DnsRecord, RecordDecode, RecordV};

verus! {

/// A whole DNS message: header and the four sections.
#[derive(Clone, Debug, PartialEq, Eq)]
pub struct DnsPacket {
    pub header: DnsHeader,
    pub questions: Vec<DnsQuestion>,
    pub answers: Vec<DnsRecord>,
    pub authorities: Vec<DnsRecord>,
    pub resources: Vec<DnsRecord>,
}

/// The view of one question: its name and type.
pub open spec fn qview(q: DnsQuestion) -> (Seq<char>, QueryType) {
    (q.name@, q.qtype)
}

/// The views of a question section.
pub open spec fn qviews(qs: Seq<DnsQuestion>) -> Seq<(Seq<char>, QueryType)> {
    qs.map_values(|q: DnsQuestion| qview(q))
}

/// The views of a record section.
pub open spec fn rviews(rs: Seq<DnsRecord>) -> Seq<RecordV> {
    rs.map_values(|r: DnsRecord| r@)
}

/// The mathematical image of a packet.
pub struct PacketV {
    pub header: DnsHeader,
    pub questions: Seq<(Seq<char>, QueryType)>,
    pub answers: Seq<RecordV>,
    pub authorities: Seq<RecordV>,
    pub resources: Seq<RecordV>,
}

impl View for DnsPacket {
    type V = PacketV;

    open spec fn view(&self) -> PacketV {
        PacketV {
            header: self.header,
            questions: qviews(self.questions@),
            answers: rviews(self.answers@),
            authorities: rviews(self.authorities@),
            resources: rviews(self.resources@),
        }
    }
}

impl DnsPacket {
    /// Every record the packet holds is well formed, and so is its header.
    pub open spec fn wf(&self) -> bool {
        &&& self.header.wf()
        &&& forall|i: int| 0 <= i < self.answers@.len() ==> (#[trigger] self.answers@[i]).wf()
        &&& forall|i: int|
            0 <= i < self.authorities@.len() ==> (#[trigger] self.authorities@[i]).wf()
        &&& forall|i: int| 0 <= i < self.resources@.len() ==> (#[trigger] self.resources@[i]).wf()
    }
}

// ------------------------------------------------------------------
// Encoding model
// ------------------------------------------------------------------

/// The wire form of a question section.
pub open spec fn questions_bytes(qs: Seq<(Seq<char>, QueryType)>) -> Seq<u8>
    decreases qs.len(),
{
    if qs.len() == 0 {
        Seq::<u8>::empty()
    } else {
        question_bytes(qs[0].0, qs[0].1) + questions_bytes(qs.drop_first())
    }
}

/// The wire form of a record section.
pub open spec fn records_bytes(rs: Seq<RecordV>) -> Seq<u8>
    decreases rs.len(),
{
    if rs.len() == 0 {
        Seq::<u8>::empty()
    } else {
        record_bytes(rs[0]) + records_bytes(rs.drop_first())
    }
}

/// The wire form of a whole packet.
pub open spec fn packet_bytes(p: PacketV) -> Seq<u8> {
    p.header.header_bytes() + questions_bytes(p.questions) + records_bytes(p.answers)
        + records_bytes(p.authorities) + records_bytes(p.resources)
}

/// Section encodings concatenate.
pub proof fn lemma_questions_bytes_concat(a: Seq<(Seq<char>, QueryType)>, b: Seq<
    (Seq<char>, QueryType),
>)
    ensures
        questions_bytes(a + b) == questions_bytes(a) + questions_bytes(b),
    decreases a.len(),
{
    if a.len() == 0 {
        assert(a + b =~= b);
        assert(questions_bytes(a + b) =~= questions_bytes(a) + questions_bytes(b));
    } else {
        assert((a + b).drop_first() =~= a.drop_first() + b);
        assert((a + b)[0] == a[0]);
        lemma_questions_bytes_concat(a.drop_first(), b);
        assert(questions_bytes(a + b) =~= questions_bytes(a) + questions_bytes(b));
    }
}

/// Section encodings concatenate.
pub proof fn lemma_records_bytes_concat(a: Seq<RecordV>, b: Seq<RecordV>)
    ensures
        records_bytes(a + b) == records_bytes(a) + records_bytes(b),
    decreases a.len(),
{
    if a.len() == 0 {
        assert(a + b =~= b);
        assert(records_bytes(a + b) =~= records_bytes(a) + records_bytes(b));
    } else {
        assert((a + b).drop_first() =~= a.drop_first() + b);
        assert((a + b)[0] == a[0]);
        lemma_records_bytes_concat(a.drop_first(), b);
        assert(records_bytes(a + b) =~= records_bytes(a) + records_bytes(b));
    }
}

// ------------------------------------------------------------------
// Decoding model
// ------------------------------------------------------------------

/// The outcome of decoding a run of section items.
pub enum SeqDecode<T> {
    Done { items: Seq<T>, end: int },
    Fail { err: DnsError },
}

/// `d` with `acc` prepended to its items, when it succeeded.
pub open spec fn prepend_items<T>(acc: Seq<T>, d: SeqDecode<T>) -> SeqDecode<T> {
    match d {
        SeqDecode::Done { items, end } => SeqDecode::Done { items: acc + items, end },
        SeqDecode::Fail { err } => SeqDecode::Fail { err },
    }
}

/// Prepending no items changes nothing.
pub proof fn lemma_prepend_items_empty<T>(d: SeqDecode<T>)
    ensures
        prepend_items(Seq::<T>::empty(), d) == d,
{
    match d {
        SeqDecode::Done { items, end } => {
            assert(Seq::<T>::empty() + items =~= items);
        },
        SeqDecode::Fail { err } => {},
    }
}

/// Prepending items one at a time composes.
pub proof fn lemma_prepend_items_push<T>(acc: Seq<T>, x: T, d: SeqDecode<T>)
    ensures
        prepend_items(acc, prepend_items(seq![x], d)) == prepend_items(acc.push(x), d),
{
    match d {
        SeqDecode::Done { items, end } => {
            assert(acc + (seq![x] + items) =~= acc.push(x) + items);
        },
        SeqDecode::Fail { err } => {},
    }
}

/// A decode that consumed all its items yields exactly the accumulated run.
pub proof fn lemma_prepend_items_done<T>(acc: Seq<T>, end: int)
    ensures
        prepend_items(acc, SeqDecode::Done { items: Seq::<T>::empty(), end }) == (SeqDecode::Done {
            items: acc,
            end,
        }),
{
    assert(acc + Seq::<T>::empty() =~= acc);
}

/// The decode of `n` consecutive questions at `pos`.
pub open spec fn decode_questions_at(buf: Seq<u8>, pos: int, n: nat) -> SeqDecode<
    (Seq<char>, QueryType),
>
    decreases n,
{
    if n == 0 {
        SeqDecode::Done { items: Seq::empty(), end: pos }
    } else {
        match decode_question_at(buf, pos) {
            QuestionDecode::Done { name, qtype, end } => prepend_items(
                seq![(name, qtype)],
                decode_questions_at(buf, end, (n - 1) as nat),
            ),
            QuestionDecode::Fail { err } => SeqDecode::Fail { err },
        }
    }
}

/// The decode of `n` consecutive records at `pos`.
pub open spec fn decode_records_at(buf: Seq<u8>, pos: int, n: nat) -> SeqDecode<RecordV>
    decreases n,
{
    if n == 0 {
        SeqDecode::Done { items: Seq::empty(), end: pos }
    } else {
        match decode_record_at(buf, pos) {
            RecordDecode::Done { rec, end } => prepend_items(
                seq![rec],
                decode_records_at(buf, end, (n - 1) as nat),
            ),
            RecordDecode::Fail { err } => SeqDecode::Fail { err },
        }
    }
}

/// The outcome of decoding a whole packet.
pub enum PacketDecode {
    Done { packet: PacketV, end: int },
    Fail { err: DnsError },
}

/// The decode of the packet at `pos`: the header, then as many entries of
/// each section as the header's counts announce.
pub open spec fn decode_packet_at(buf: Seq<u8>, pos: int) -> PacketDecode {
    if pos + 12 <= 512 {
        let h = header_of_bytes(buf, pos);
        match decode_questions_at(buf, pos + 12, h.questions as nat) {
            SeqDecode::Done { items: qs, end: e1 } => match decode_records_at(
                buf,
                e1,
                h.answers as nat,
            ) {
                SeqDecode::Done { items: ans, end: e2 } => match decode_records_at(
                    buf,
                    e2,
                    h.authoritative_entries as nat,
                ) {
                    SeqDecode::Done { items: auth, end: e3 } => match decode_records_at(
                        buf,
                        e3,
                        h.resource_entries as nat,
                    ) {
                        SeqDecode::Done { items: res, end: e4 } => PacketDecode::Done {
                            packet: PacketV {
                                header: h,
                                questions: qs,
                                answers: ans,
                                authorities: auth,
                                resources: res,
                            },
                            end: e4,
                        },
                        SeqDecode::Fail { err } => PacketDecode::Fail { err },
                    },
                    SeqDecode::Fail { err } => PacketDecode::Fail { err },
                },
                SeqDecode::Fail { err } => PacketDecode::Fail { err },
            },
            SeqDecode::Fail { err } => PacketDecode::Fail { err },
        }
    } else {
        PacketDecode::Fail { err: DnsError::BufferOverflow }
    }
}

// ------------------------------------------------------------------
// The packet round trip
// ------------------------------------------------------------------

/// A question section the codec round-trips.
pub open spec fn rt_questions_wf(qs: Seq<(Seq<char>, QueryType)>) -> bool {
    forall|i: int|
        0 <= i < qs.len() ==> crate::question::rt_question_wf(
            (#[trigger] qs[i]).0,
            qs[i].1,
        )
}

/// A record section the codec round-trips.
pub open spec fn rt_records_wf(rs: Seq<RecordV>) -> bool {
    forall|i: int| 0 <= i < rs.len() ==> crate::record::rt_record_wf(#[trigger] rs[i])
}

/// A packet the codec round-trips: a well-formed header whose counts match
/// the sections, and round-trippable questions and records throughout.
pub open spec fn rt_packet_wf(p: PacketV) -> bool {
    &&& p.header.wf()
    &&& p.header.questions == p.questions.len()
    &&& p.header.answers == p.answers.len()
    &&& p.header.authoritative_entries == p.authorities.len()
    &&& p.header.resource_entries == p.resources.len()
    &&& rt_questions_wf(p.questions)
    &&& rt_records_wf(p.answers)
    &&& rt_records_wf(p.authorities)
    &&& rt_records_wf(p.resources)
}

/// A packet with every name lower-cased, as decoding yields it.
pub open spec fn lower_packet(p: PacketV) -> PacketV {
    PacketV {
        header: p.header,
        questions: p.questions.map_values(
            |q: (Seq<char>, QueryType)| (crate::qname::lower_name(q.0), q.1),
        ),
        answers: p.answers.map_values(|r: RecordV| crate::record::lower_record(r)),
        authorities: p.authorities.map_values(|r: RecordV| crate::record::lower_record(r)),
        resources: p.resources.map_values(|r: RecordV| crate::record::lower_record(r)),
    }
}

/// The bytes at `pos` agree with `w`, index by index.
proof fn lemma_bytes_at(buf: Seq<u8>, pos: int, w: Seq<u8>)
    requires
        buf.len() == 512,
        0 <= pos,
        pos + w.len() <= 512,
        buf.subrange(pos, pos + w.len()) == w,
    ensures
        forall|j: int| 0 <= j < w.len() ==> buf[pos + j] == w[j],
{
    assert forall|j: int| 0 <= j < w.len() implies buf[pos + j] == w[j] by {
        assert(buf.subrange(pos, pos + w.len() as int)[j] == buf[pos + j]);
    }
}

/// A slice of `w` read back out of the frame.
proof fn lemma_sub_at(buf: Seq<u8>, pos: int, w: Seq<u8>, a: int, b: int)
    requires
        buf.len() == 512,
        0 <= pos,
        pos + w.len() <= 512,
        buf.subrange(pos, pos + w.len()) == w,
        0 <= a <= b <= w.len(),
    ensures
        buf.subrange(pos + a, pos + b) == w.subrange(a, b),
{
    lemma_bytes_at(buf, pos, w);
    assert(buf.subrange(pos + a, pos + b) =~= w.subrange(a, b));
}

/// Question-section round trip: `n` well-formed questions written at
/// `pos` decode to their lower-cased selves, consuming exactly their
/// encoding.
proof fn lemma_questions_round_trip(buf: Seq<u8>, pos: int, qs: Seq<(Seq<char>, QueryType)>)
    requires
        buf.len() == 512,
        0 <= pos,
        pos + questions_bytes(qs).len() <= 512,
        buf.subrange(pos, pos + questions_bytes(qs).len()) == questions_bytes(qs),
        rt_questions_wf(qs),
    ensures
        decode_questions_at(buf, pos, qs.len()) == (SeqDecode::Done {
            items: qs.map_values(|q: (Seq<char>, QueryType)| (crate::qname::lower_name(q.0), q.1)),
            end: pos + questions_bytes(qs).len(),
        }),
    decreases qs.len(),
{
    let w = questions_bytes(qs);
    if qs.len() == 0 {
        assert(qs.map_values(
            |q: (Seq<char>, QueryType)| (crate::qname::lower_name(q.0), q.1),
        ) =~= Seq::<(Seq<char>, QueryType)>::empty());
    } else {
        let q0 = qs[0];
        let qb = question_bytes(q0.0, q0.1);
        let rest = qs.drop_first();
        assert(w == qb + questions_bytes(rest));
        lemma_sub_at(buf, pos, w, 0, qb.len() as int);
        assert(w.subrange(0, qb.len() as int) =~= qb);
        crate::question::lemma_question_round_trip(buf, pos, q0.0, q0.1);
        lemma_sub_at(buf, pos, w, qb.len() as int, w.len() as int);
        assert(w.subrange(qb.len() as int, w.len() as int) =~= questions_bytes(rest));
        lemma_questions_round_trip(buf, pos + qb.len() as int, rest);
        lemma_prepend_items_push(
            Seq::<(Seq<char>, QueryType)>::empty(),
            (crate::qname::lower_name(q0.0), q0.1),
            decode_questions_at(buf, pos + qb.len() as int, rest.len()),
        );
        assert(Seq::<(Seq<char>, QueryType)>::empty().push(
            (crate::qname::lower_name(q0.0), q0.1),
        ) =~= seq![(crate::qname::lower_name(q0.0), q0.1)]);
        lemma_prepend_items_empty(decode_questions_at(buf, pos + qb.len() as int, rest.len()));
        assert(seq![(crate::qname::lower_name(q0.0), q0.1)] + rest.map_values(
            |q: (Seq<char>, QueryType)| (crate::qname::lower_name(q.0), q.1),
        ) =~~= qs.map_values(|q: (Seq<char>, QueryType)| (crate::qname::lower_name(q.0), q.1)));
    }
}

/// Record-section round trip: `n` well-formed records written at `pos`
/// decode to their lower-cased selves, consuming exactly their encoding.
proof fn lemma_records_round_trip(buf: Seq<u8>, pos: int, rs: Seq<RecordV>)
    requires
        buf.len() == 512,
        0 <= pos,
        pos + records_bytes(rs).len() <= 512,
        buf.subrange(pos, pos + records_bytes(rs).len()) == records_bytes(rs),
        rt_records_wf(rs),
    ensures
        decode_records_at(buf, pos, rs.len()) == (SeqDecode::Done {
            items: rs.map_values(|r: RecordV| crate::record::lower_record(r)),
            end: pos + records_bytes(rs).len(),
        }),
    decreases rs.len(),
{
    let w = records_bytes(rs);
    if rs.len() == 0 {
        assert(rs.map_values(|r: RecordV| crate::record::lower_record(r)) =~= Seq::<
            RecordV,
        >::empty());
    } else {
        let r0 = rs[0];
        let rb = record_bytes(r0);
        let rest = rs.drop_first();
        assert(w == rb + records_bytes(rest));
        lemma_sub_at(buf, pos, w, 0, rb.len() as int);
        assert(w.subrange(0, rb.len() as int) =~= rb);
        crate::record::lemma_record_round_trip(buf, pos, r0);
        lemma_sub_at(buf, pos, w, rb.len() as int, w.len() as int);
        assert(w.subrange(rb.len() as int, w.len() as int) =~= records_bytes(rest));
        lemma_records_round_trip(buf, pos + rb.len() as int, rest);
        lemma_prepend_items_push(
            Seq::<RecordV>::empty(),
            crate::record::lower_record(r0),
            decode_records_at(buf, pos + rb.len() as int, rest.len()),
        );
        assert(Seq::<RecordV>::empty().push(crate::record::lower_record(r0)) =~= seq![
            crate::record::lower_record(r0),
        ]);
        lemma_prepend_items_empty(decode_records_at(buf, pos + rb.len() as int, rest.len()));
        assert(seq![crate::record::lower_record(r0)] + rest.map_values(
            |r: RecordV| crate::record::lower_record(r),
        ) =~~= rs.map_values(|r: RecordV| crate::record::lower_record(r)));
    }
}

/// The packet round-trip law: a well-formed packet written at `pos`
/// decodes back to itself, every name lower-cased and the ignored class
/// fields restored to 1, consuming exactly its encoding.
#[verifier::rlimit(100)]
pub proof fn lemma_packet_round_trip(buf: Seq<u8>, pos: int, p: PacketV)
    requires
        buf.len() == 512,
        0 <= pos,
        pos + packet_bytes(p).len() <= 512,
        buf.subrange(pos, pos + packet_bytes(p).len()) == packet_bytes(p),
        rt_packet_wf(p),
    ensures
        decode_packet_at(buf, pos) == (PacketDecode::Done {
            packet: lower_packet(p),
            end: pos + packet_bytes(p).len(),
        }),
{
    let w = packet_bytes(p);
    let hb = p.header.header_bytes();
    let qsb = questions_bytes(p.questions);
    let ab = records_bytes(p.answers);
    let ub = records_bytes(p.authorities);
    let rsb = records_bytes(p.resources);
    let lq = qsb.len() as int;
    let la = ab.len() as int;
    let lu = ub.len() as int;
    let lr = rsb.len() as int;
    assert(hb.len() == 12);
    lemma_sub_at(buf, pos, w, 0, 12);
    assert(w.subrange(0, 12) =~= hb);
    crate::header::lemma_header_round_trip(p.header, buf, pos);
    let e1 = pos + 12;
    lemma_sub_at(buf, pos, w, 12, 12 + lq);
    assert(w.subrange(12, 12 + lq) =~= qsb);
    lemma_questions_round_trip(buf, e1, p.questions);
    let e2 = e1 + lq;
    lemma_sub_at(buf, pos, w, 12 + lq, 12 + lq + la);
    assert(w.subrange(12 + lq, 12 + lq + la) =~= ab);
    lemma_records_round_trip(buf, e2, p.answers);
    let e3 = e2 + la;
    lemma_sub_at(buf, pos, w, 12 + lq + la, 12 + lq + la + lu);
    assert(w.subrange(12 + lq + la, 12 + lq + la + lu) =~= ub);
    lemma_records_round_trip(buf, e3, p.authorities);
    let e4 = e3 + lu;
    lemma_sub_at(buf, pos, w, 12 + lq + la + lu, 12 + lq + la + lu + lr);
    assert(w.subrange(12 + lq + la + lu, 12 + lq + la + lu + lr) =~= rsb);
    lemma_records_round_trip(buf, e4, p.resources);
}

// ------------------------------------------------------------------
// Executable section readers
// ------------------------------------------------------------------

/// Read `n` consecutive questions at the cursor.
fn read_questions(buffer: &mut ByteBuffer, n: u16) -> (r: Result<Vec<DnsQuestion>, DnsError>)
    requires
        old(buffer).wf(),
    ensures
        final(buffer).wf(),
        final(buffer).buffer@ == old(buffer).buffer@,
        match decode_questions_at(old(buffer).buffer@, old(buffer).position as int, n as nat) {
            SeqDecode::Done { items, end } => {
                &&& r is Ok
                &&& qviews(r->Ok_0@) == items
                &&& final(buffer).position == end
            },
            SeqDecode::Fail { err } => r == Err::<Vec<DnsQuestion>, DnsError>(err),
        },
{
    let ghost b0 = buffer.buffer@;
    let ghost start = buffer.position as int;
    let ghost full = decode_questions_at(b0, start, n as nat);
    let mut questions: Vec<DnsQuestion> = Vec::new();
    let mut i: usize = 0;
    let n_us = n as usize;
    let mut failed: Option<DnsError> = None;
    proof {
        lemma_prepend_items_empty(full);
        assert(qviews(questions@) =~= Seq::<(Seq<char>, QueryType)>::empty());
    }
    while i < n_us
        invariant_except_break
            failed is None,
            prepend_items(qviews(questions@), decode_questions_at(b0, buffer.position as int, (
            n_us - i) as nat)) == full,
        invariant
            buffer.wf(),
            buffer.buffer@ == b0,
            i <= n_us,
            n_us == n,
        ensures
            buffer.wf(),
            buffer.buffer@ == b0,
            match failed {
                None => i == n_us && full == (SeqDecode::Done {
                    items: qviews(questions@),
                    end: buffer.position as int,
                }),
                Some(e) => full == (SeqDecode::Fail::<(Seq<char>, QueryType)> { err: e }),
            },
        decreases n_us - i,
    {
        let ghost p = buffer.position as int;
        let ghost accq = qviews(questions@);
        let mut question = DnsQuestion::new(String::new(), QueryType::UNKNOWN(0));
        match question.read(buffer) {
            Ok(_) => {},
            Err(e) => {
                failed = Some(e);
                break ;
            },
        }
        proof {
            let d = decode_question_at(b0, p);
            match d {
                QuestionDecode::Done { name, qtype, end } => {
                    assert(Seq::<char>::empty() + name =~= name);
                    lemma_prepend_items_push(
                        accq,
                        (name, qtype),
                        decode_questions_at(b0, end, (n_us - i - 1) as nat),
                    );
                    assert(qviews(questions@.push(question)) =~~= accq.push((name, qtype)));
                },
                QuestionDecode::Fail { err } => {
                    assert(false);
                },
            }
        }
        questions.push(question);
        i = i + 1;
    }
    match failed {
        Some(e) => Err(e),
        None => {
            proof {
                lemma_prepend_items_done(qviews(questions@), buffer.position as int);
            }
            Ok(questions)
        },
    }
}

/// Read `n` consecutive records at the cursor.
fn read_records(buffer: &mut ByteBuffer, n: u16) -> (r: Result<Vec<DnsRecord>, DnsError>)
    requires
        old(buffer).wf(),
    ensures
        final(buffer).wf(),
        final(buffer).buffer@ == old(buffer).buffer@,
        match decode_records_at(old(buffer).buffer@, old(buffer).position as int, n as nat) {
            SeqDecode::Done { items, end } => {
                &&& r is Ok
                &&& rviews(r->Ok_0@) == items
                &&& (forall|j: int| 0 <= j < r->Ok_0@.len() ==> (#[trigger] r->Ok_0@[j]).wf())
                &&& final(buffer).position == end
            },
            SeqDecode::Fail { err } => r == Err::<Vec<DnsRecord>, DnsError>(err),
        },
{
    let ghost b0 = buffer.buffer@;
    let ghost start = buffer.position as int;
    let ghost full = decode_records_at(b0, start, n as nat);
    let mut records: Vec<DnsRecord> = Vec::new();
    let mut i: usize = 0;
    let n_us = n as usize;
    let mut failed: Option<DnsError> = None;
    proof {
        lemma_prepend_items_empty(full);
        assert(rviews(records@) =~= Seq::<RecordV>::empty());
    }
    while i < n_us
        invariant_except_break
            failed is None,
            prepend_items(rviews(records@), decode_records_at(b0, buffer.position as int, (n_us
                - i) as nat)) == full,
        invariant
            buffer.wf(),
            buffer.buffer@ == b0,
            i <= n_us,
            n_us == n,
            forall|j: int| 0 <= j < records@.len() ==> (#[trigger] records@[j]).wf(),
        ensures
            buffer.wf(),
            buffer.buffer@ == b0,
            forall|j: int| 0 <= j < records@.len() ==> (#[trigger] records@[j]).wf(),
            match failed {
                None => i == n_us && full == (SeqDecode::Done {
                    items: rviews(records@),
                    end: buffer.position as int,
                }),
                Some(e) => full == (SeqDecode::Fail::<RecordV> { err: e }),
            },
        decreases n_us - i,
    {
        let ghost p = buffer.position as int;
        let ghost accr = rviews(records@);
        let record = match DnsRecord::read(buffer) {
            Ok(v) => v,
            Err(e) => {
                failed = Some(e);
                break ;
            },
        };
        proof {
            let d = decode_record_at(b0, p);
            match d {
                RecordDecode::Done { rec, end } => {
                    lemma_prepend_items_push(
                        accr,
                        rec,
                        decode_records_at(b0, end, (n_us - i - 1) as nat),
                    );
                    assert(rviews(records@.push(record)) =~~= accr.push(rec));
                },
                RecordDecode::Fail { err } => {
                    assert(false);
                },
            }
        }
        records.push(record);
        i = i + 1;
    }
    match failed {
        Some(e) => Err(e),
        None => {
            proof {
                lemma_prepend_items_done(rviews(records@), buffer.position as int);
            }
            Ok(records)
        },
    }
}

// ------------------------------------------------------------------
// Executable section writers
// ------------------------------------------------------------------

/// Write a question section at the cursor.
fn write_questions(buffer: &mut ByteBuffer, qs: &Vec<DnsQuestion>) -> (r: Result<(), DnsError>)
    requires
        old(buffer).wf(),
    ensures
        final(buffer).wf(),
        final(buffer).position >= old(buffer).position,
        old(buffer).position <= FRAME_SIZE ==> final(buffer).buffer@.subrange(
            0,
            old(buffer).position as int,
        ) == old(buffer).buffer@.subrange(0, old(buffer).position as int),
        old(buffer).position + questions_bytes(qviews(qs@)).len() <= FRAME_SIZE ==> {
            &&& r is Ok
            &&& final(buffer).buffer@ == old(buffer).buffer@.subrange(
                0,
                old(buffer).position as int,
            ) + questions_bytes(qviews(qs@)) + old(buffer).buffer@.subrange(
                old(buffer).position + questions_bytes(qviews(qs@)).len(),
                FRAME_SIZE as int,
            )
            &&& final(buffer).position == old(buffer).position + questions_bytes(
                qviews(qs@),
            ).len()
        },
        old(buffer).position <= FRAME_SIZE && old(buffer).position + questions_bytes(
            qviews(qs@),
        ).len() > FRAME_SIZE ==> r == Err::<(), DnsError>(DnsError::BufferOverflow),
{
    let ghost b0 = buffer.buffer@;
    let ghost p0 = buffer.position as int;
    let ghost total = questions_bytes(qviews(qs@));
    let mut i: usize = 0;
    let mut failed = false;
    let ghost mut written: Seq<u8> = Seq::empty();
    proof {
        assert(qs@.subrange(0, 0) =~= Seq::<DnsQuestion>::empty());
        assert(qviews(Seq::<DnsQuestion>::empty()) =~= Seq::<(Seq<char>, QueryType)>::empty());
        assert(questions_bytes(Seq::<(Seq<char>, QueryType)>::empty()) =~= Seq::<u8>::empty());
        if p0 <= FRAME_SIZE {
            assert(buffer.buffer@ =~= b0.subrange(0, p0) + Seq::<u8>::empty() + b0.subrange(
                p0,
                FRAME_SIZE as int,
            ));
        }
    }
    while i < qs.len()
        invariant_except_break
            !failed,
            written == questions_bytes(qviews(qs@.subrange(0, i as int))),
            buffer.position == p0 + written.len(),
            p0 <= FRAME_SIZE ==> p0 + written.len() <= FRAME_SIZE,
            p0 <= FRAME_SIZE ==> buffer.buffer@ =~= b0.subrange(0, p0) + written + b0.subrange(
                p0 + written.len(),
                FRAME_SIZE as int,
            ),
            p0 > FRAME_SIZE ==> i == 0 && buffer.buffer@ == b0,
        invariant
            buffer.wf(),
            b0.len() == FRAME_SIZE,
            i <= qs@.len(),
            total == questions_bytes(qviews(qs@)),
        ensures
            buffer.wf(),
            buffer.position >= p0,
            p0 <= FRAME_SIZE ==> buffer.buffer@.subrange(0, p0) == b0.subrange(0, p0),
            !failed ==> i == qs@.len() && written == questions_bytes(
                qviews(qs@.subrange(0, i as int)),
            ) && buffer.position == p0 + written.len(),
            !failed && p0 <= FRAME_SIZE ==> p0 + written.len() <= FRAME_SIZE && buffer.buffer@
                =~= b0.subrange(0, p0) + written + b0.subrange(
                p0 + written.len(),
                FRAME_SIZE as int,
            ),
            !failed && p0 > FRAME_SIZE ==> qs@.len() == 0 && buffer.buffer@ == b0
                && buffer.position == p0,
            failed ==> p0 + total.len() > FRAME_SIZE,
        decreases qs@.len() - i,
    {
        let ghost w = written;
        let q = &qs[i];
        proof {
            assert(qs@.subrange(0, i + 1) =~= qs@.subrange(0, i as int).push(qs@[i as int]));
            assert(qviews(qs@.subrange(0, i + 1)) =~~= qviews(qs@.subrange(0, i as int)).push(
                qview(qs@[i as int]),
            ));
            lemma_questions_bytes_concat(
                qviews(qs@.subrange(0, i as int)),
                seq![qview(qs@[i as int])],
            );
            assert(qviews(qs@.subrange(0, i as int)).push(qview(qs@[i as int])) =~= qviews(
                qs@.subrange(0, i as int),
            ) + seq![qview(qs@[i as int])]);
            assert(seq![qview(qs@[i as int])].drop_first() =~= Seq::<(
                Seq<char>,
                QueryType,
            )>::empty());
            assert(questions_bytes(Seq::<(Seq<char>, QueryType)>::empty()) =~= Seq::<u8>::empty());
            assert(questions_bytes(seq![qview(qs@[i as int])]) =~= question_bytes(
                qs@[i as int].name@,
                qs@[i as int].qtype,
            ));
            // if the whole run would overflow, so does the full section
            assert(qs@ =~= qs@.subrange(0, i as int) + qs@.subrange(i as int, qs@.len() as int));
            assert(qviews(qs@) =~~= qviews(qs@.subrange(0, i as int)) + qviews(
                qs@.subrange(i as int, qs@.len() as int),
            ));
            lemma_questions_bytes_concat(
                qviews(qs@.subrange(0, i as int)),
                qviews(qs@.subrange(i as int, qs@.len() as int)),
            );
            assert(qviews(qs@.subrange(i as int, qs@.len() as int))[0] == qview(qs@[i as int]));
        }
        let ghost mid = buffer.buffer@;
        let ghost qb = question_bytes(qs@[i as int].name@, qs@[i as int].qtype);
        match q.write(buffer) {
            Ok(_) => {},
            Err(e) => {
                failed = true;
                proof {
                    if p0 <= FRAME_SIZE {
                        assert(buffer.buffer@.subrange(0, p0) =~= b0.subrange(0, p0));
                    }
                }
                break ;
            },
        }
        proof {
            written = w + qb;
            if p0 <= FRAME_SIZE {
                assert(buffer.buffer@ =~= mid.subrange(0, p0 + w.len()) + qb + mid.subrange(
                    p0 + w.len() + qb.len(),
                    FRAME_SIZE as int,
                ));
                assert(mid.subrange(0, p0 + w.len()) =~= b0.subrange(0, p0) + w);
                assert(mid.subrange(p0 + w.len() + qb.len(), FRAME_SIZE as int) =~= b0.subrange(
                    p0 + w.len() + qb.len(),
                    FRAME_SIZE as int,
                ));
                assert(buffer.buffer@ =~= b0.subrange(0, p0) + written + b0.subrange(
                    p0 + written.len(),
                    FRAME_SIZE as int,
                ));
            }
        }
        i = i + 1;
    }
    proof {
        if !failed {
            assert(qs@.subrange(0, qs@.len() as int) =~= qs@);
            assert(written == total);
        }
    }
    if failed {
        return Err(DnsError::BufferOverflow);
    }
    Ok(())
}

/// Write a record section at the cursor.
fn write_records(buffer: &mut ByteBuffer, rs: &Vec<DnsRecord>) -> (r: Result<(), DnsError>)
    requires
        old(buffer).wf(),
        forall|j: int| 0 <= j < rs@.len() ==> (#[trigger] rs@[j]).wf(),
    ensures
        final(buffer).wf(),
        final(buffer).position >= old(buffer).position,
        old(buffer).position <= FRAME_SIZE ==> final(buffer).buffer@.subrange(
            0,
            old(buffer).position as int,
        ) == old(buffer).buffer@.subrange(0, old(buffer).position as int),
        old(buffer).position + records_bytes(rviews(rs@)).len() <= FRAME_SIZE ==> {
            &&& r is Ok
            &&& final(buffer).buffer@ == old(buffer).buffer@.subrange(
                0,
                old(buffer).position as int,
            ) + records_bytes(rviews(rs@)) + old(buffer).buffer@.subrange(
                old(buffer).position + records_bytes(rviews(rs@)).len(),
                FRAME_SIZE as int,
            )
            &&& final(buffer).position == old(buffer).position + records_bytes(rviews(rs@)).len()
        },
        old(buffer).position <= FRAME_SIZE && old(buffer).position + records_bytes(
            rviews(rs@),
        ).len() > FRAME_SIZE ==> r == Err::<(), DnsError>(DnsError::BufferOverflow),
{
    let ghost b0 = buffer.buffer@;
    let ghost p0 = buffer.position as int;
    let ghost total = records_bytes(rviews(rs@));
    let mut i: usize = 0;
    let mut failed = false;
    let ghost mut written: Seq<u8> = Seq::empty();
    proof {
        assert(rs@.subrange(0, 0) =~= Seq::<DnsRecord>::empty());
        assert(rviews(Seq::<DnsRecord>::empty()) =~= Seq::<RecordV>::empty());
        assert(records_bytes(Seq::<RecordV>::empty()) =~= Seq::<u8>::empty());
        if p0 <= FRAME_SIZE {
            assert(buffer.buffer@ =~= b0.subrange(0, p0) + Seq::<u8>::empty() + b0.subrange(
                p0,
                FRAME_SIZE as int,
            ));
        }
    }
    while i < rs.len()
        invariant_except_break
            !failed,
            written == records_bytes(rviews(rs@.subrange(0, i as int))),
            buffer.position == p0 + written.len(),
            p0 <= FRAME_SIZE ==> p0 + written.len() <= FRAME_SIZE,
            p0 <= FRAME_SIZE ==> buffer.buffer@ =~= b0.subrange(0, p0) + written + b0.subrange(
                p0 + written.len(),
                FRAME_SIZE as int,
            ),
            p0 > FRAME_SIZE ==> buffer.buffer@ == b0 && written == Seq::<u8>::empty(),
        invariant
            buffer.wf(),
            b0.len() == FRAME_SIZE,
            i <= rs@.len(),
            total == records_bytes(rviews(rs@)),
            forall|j: int| 0 <= j < rs@.len() ==> (#[trigger] rs@[j]).wf(),
        ensures
            buffer.wf(),
            buffer.position >= p0,
            p0 <= FRAME_SIZE ==> buffer.buffer@.subrange(0, p0) == b0.subrange(0, p0),
            !failed ==> i == rs@.len() && written == records_bytes(
                rviews(rs@.subrange(0, i as int)),
            ) && buffer.position == p0 + written.len(),
            !failed && p0 <= FRAME_SIZE ==> p0 + written.len() <= FRAME_SIZE && buffer.buffer@
                =~= b0.subrange(0, p0) + written + b0.subrange(
                p0 + written.len(),
                FRAME_SIZE as int,
            ),
            !failed && p0 > FRAME_SIZE ==> buffer.buffer@ == b0 && buffer.position == p0,
            failed ==> p0 + total.len() > FRAME_SIZE,
        decreases rs@.len() - i,
    {
        let ghost w = written;
        let rec = &rs[i];
        proof {
            assert(rs@.subrange(0, i + 1) =~= rs@.subrange(0, i as int).push(rs@[i as int]));
            assert(rviews(rs@.subrange(0, i + 1)) =~~= rviews(rs@.subrange(0, i as int)).push(
                rs@[i as int]@,
            ));
            lemma_records_bytes_concat(rviews(rs@.subrange(0, i as int)), seq![rs@[i as int]@]);
            assert(rviews(rs@.subrange(0, i as int)).push(rs@[i as int]@) =~= rviews(
                rs@.subrange(0, i as int),
            ) + seq![rs@[i as int]@]);
            assert(seq![rs@[i as int]@].drop_first() =~= Seq::<RecordV>::empty());
            assert(records_bytes(Seq::<RecordV>::empty()) =~= Seq::<u8>::empty());
            assert(records_bytes(seq![rs@[i as int]@]) =~= record_bytes(rs@[i as int]@));
            assert(rs@ =~= rs@.subrange(0, i as int) + rs@.subrange(i as int, rs@.len() as int));
            assert(rviews(rs@) =~~= rviews(rs@.subrange(0, i as int)) + rviews(
                rs@.subrange(i as int, rs@.len() as int),
            ));
            lemma_records_bytes_concat(
                rviews(rs@.subrange(0, i as int)),
                rviews(rs@.subrange(i as int, rs@.len() as int)),
            );
            assert(rviews(rs@.subrange(i as int, rs@.len() as int))[0] == rs@[i as int]@);
        }
        let ghost mid = buffer.buffer@;
        let ghost qb = record_bytes(rs@[i as int]@);
        match rec.write(buffer) {
            Ok(_) => {},
            Err(e) => {
                failed = true;
                proof {
                    if p0 <= FRAME_SIZE {
                        assert(buffer.buffer@.subrange(0, p0) =~= b0.subrange(0, p0));
                    }
                }
                break ;
            },
        }
        proof {
            written = w + qb;
            if p0 <= FRAME_SIZE {
                if rs@[i as int]@ is Unknown {
                    assert(qb =~= Seq::<u8>::empty());
                    assert(buffer.buffer@ =~= b0.subrange(0, p0) + written + b0.subrange(
                        p0 + written.len(),
                        FRAME_SIZE as int,
                    ));
                } else {
                    assert(buffer.buffer@ =~= mid.subrange(0, p0 + w.len()) + qb + mid.subrange(
                        p0 + w.len() + qb.len(),
                        FRAME_SIZE as int,
                    ));
                    assert(mid.subrange(0, p0 + w.len()) =~= b0.subrange(0, p0) + w);
                    assert(mid.subrange(p0 + w.len() + qb.len(), FRAME_SIZE as int)
                        =~= b0.subrange(p0 + w.len() + qb.len(), FRAME_SIZE as int));
                    assert(buffer.buffer@ =~= b0.subrange(0, p0) + written + b0.subrange(
                        p0 + written.len(),
                        FRAME_SIZE as int,
                    ));
                }
            }
        }
        i = i + 1;
    }
    proof {
        if !failed {
            assert(rs@.subrange(0, rs@.len() as int) =~= rs@);
            assert(written == total);
        }
    }
    if failed {
        return Err(DnsError::BufferOverflow);
    }
    Ok(())
}

impl DnsPacket {
    /// An empty packet with a cleared header.
    pub fn new() -> (r: DnsPacket)
        ensures
            r.header == DnsHeader::spec_new(),
            r.questions@.len() == 0,
            r.answers@.len() == 0,
            r.authorities@.len() == 0,
            r.resources@.len() == 0,
            r.wf(),
    {
        DnsPacket {
            header: DnsHeader::new(),
            questions: Vec::new(),
            answers: Vec::new(),
            authorities: Vec::new(),
            resources: Vec::new(),
        }
    }

    /// Decode the packet at the cursor: the header, then each section as
    /// announced by the header's counts.
    pub fn from_buffer(buffer: &mut ByteBuffer) -> (r: Result<DnsPacket, DnsError>)
        requires
            old(buffer).wf(),
        ensures
            final(buffer).wf(),
            final(buffer).buffer@ == old(buffer).buffer@,
            match decode_packet_at(old(buffer).buffer@, old(buffer).position as int) {
                PacketDecode::Done { packet, end } => {
                    &&& r is Ok
                    &&& r->Ok_0@ == packet
                    &&& r->Ok_0.wf()
                    &&& final(buffer).position == end
                },
                PacketDecode::Fail { err } => r == Err::<DnsPacket, DnsError>(err),
            },
    {
        let mut packet = DnsPacket::new();
        packet.header.read(buffer)?;

        let questions = read_questions(buffer, packet.header.questions)?;
        packet.questions = questions;
        let answers = read_records(buffer, packet.header.answers)?;
        packet.answers = answers;
        let authorities = read_records(buffer, packet.header.authoritative_entries)?;
        packet.authorities = authorities;
        let resources = read_records(buffer, packet.header.resource_entries)?;
        packet.resources = resources;

        Ok(packet)
    }

    /// Encode this packet at the cursor: header first, then every section
    /// in order.  The header's counts are taken as they stand; callers set
    /// them before encoding.
    #[verifier::rlimit(100)]
    pub fn write(&self, buffer: &mut ByteBuffer) -> (r: Result<(), DnsError>)
        requires
            old(buffer).wf(),
            self.wf(),
        ensures
            final(buffer).wf(),
            final(buffer).position >= old(buffer).position,
            old(buffer).position <= FRAME_SIZE ==> final(buffer).buffer@.subrange(
                0,
                old(buffer).position as int,
            ) == old(buffer).buffer@.subrange(0, old(buffer).position as int),
            old(buffer).position + packet_bytes(self@).len() <= FRAME_SIZE ==> {
                &&& r is Ok
                &&& final(buffer).buffer@ == old(buffer).buffer@.subrange(
                    0,
                    old(buffer).position as int,
                ) + packet_bytes(self@) + old(buffer).buffer@.subrange(
                    old(buffer).position + packet_bytes(self@).len(),
                    FRAME_SIZE as int,
                )
                &&& final(buffer).position == old(buffer).position + packet_bytes(self@).len()
            },
            old(buffer).position <= FRAME_SIZE && old(buffer).position + packet_bytes(
                self@,
            ).len() > FRAME_SIZE ==> r == Err::<(), DnsError>(DnsError::BufferOverflow),
    {
        let ghost bb = buffer.buffer@;
        let ghost p0 = buffer.position as int;
        let ghost pb = packet_bytes(self@);
        let ghost hb = self.header.header_bytes();
        let ghost qsb = questions_bytes(qviews(self.questions@));
        let ghost ab = records_bytes(rviews(self.answers@));
        let ghost ub = records_bytes(rviews(self.authorities@));
        let ghost rsb = records_bytes(rviews(self.resources@));
        let ghost fits = p0 + pb.len() <= FRAME_SIZE;
        self.header.write(buffer)?;
        proof {
            if fits {
                assert(buffer.buffer@ =~= bb.subrange(0, p0) + hb + bb.subrange(
                    p0 + hb.len(),
                    FRAME_SIZE as int,
                ));
            }
        }
        let ghost m1 = buffer.buffer@;
        write_questions(buffer, &self.questions)?;
        proof {
            if fits {
                assert(m1.subrange(0, p0 + hb.len()) =~= bb.subrange(0, p0) + hb);
                assert(m1.subrange(p0 + hb.len() + qsb.len(), FRAME_SIZE as int) =~= bb.subrange(
                    p0 + hb.len() + qsb.len(),
                    FRAME_SIZE as int,
                ));
                assert(buffer.buffer@ =~= bb.subrange(0, p0) + (hb + qsb) + bb.subrange(
                    p0 + (hb + qsb).len(),
                    FRAME_SIZE as int,
                ));
            }
        }
        let ghost m2 = buffer.buffer@;
        write_records(buffer, &self.answers)?;
        proof {
            if fits {
                assert(m2.subrange(0, p0 + (hb + qsb).len()) =~= bb.subrange(0, p0) + (hb + qsb));
                assert(m2.subrange(p0 + (hb + qsb).len() + ab.len(), FRAME_SIZE as int)
                    =~= bb.subrange(p0 + (hb + qsb).len() + ab.len(), FRAME_SIZE as int));
                assert(buffer.buffer@ =~= bb.subrange(0, p0) + (hb + qsb + ab) + bb.subrange(
                    p0 + (hb + qsb + ab).len(),
                    FRAME_SIZE as int,
                ));
            }
        }
        let ghost m3 = buffer.buffer@;
        write_records(buffer, &self.authorities)?;
        proof {
            if fits {
                assert(m3.subrange(0, p0 + (hb + qsb + ab).len()) =~= bb.subrange(0, p0) + (hb
                    + qsb + ab));
                assert(m3.subrange(p0 + (hb + qsb + ab).len() + ub.len(), FRAME_SIZE as int)
                    =~= bb.subrange(p0 + (hb + qsb + ab).len() + ub.len(), FRAME_SIZE as int));
                assert(buffer.buffer@ =~= bb.subrange(0, p0) + (hb + qsb + ab + ub) + bb.subrange(
                    p0 + (hb + qsb + ab + ub).len(),
                    FRAME_SIZE as int,
                ));
            }
        }
        let ghost m4 = buffer.buffer@;
        write_records(buffer, &self.resources)?;
        proof {
            if fits {
                assert(m4.subrange(0, p0 + (hb + qsb + ab + ub).len()) =~= bb.subrange(0, p0) + (hb
                    + qsb + ab + ub));
                assert(m4.subrange(p0 + (hb + qsb + ab + ub).len() + rsb.len(), FRAME_SIZE as int)
                    =~= bb.subrange(
                    p0 + (hb + qsb + ab + ub).len() + rsb.len(),
                    FRAME_SIZE as int,
                ));
                assert(buffer.buffer@ =~= bb.subrange(0, p0) + (hb + qsb + ab + ub + rsb)
                    + bb.subrange(p0 + (hb + qsb + ab + ub + rsb).len(), FRAME_SIZE as int));
                assert(hb + qsb + ab + ub + rsb =~= pb);
            }
            if p0 <= FRAME_SIZE {
                assert(buffer.buffer@.subrange(0, p0) =~= bb.subrange(0, p0));
            }
        }
        Ok(())
    }

    /// The whole 512-byte frame this packet encodes to, zero-padded.
    pub fn write_to_bytes(&self) -> (r: Result<Vec<u8>, DnsError>)
        requires
            self.wf(),
        ensures
            packet_bytes(self@).len() <= FRAME_SIZE ==> {
                &&& r is Ok
                &&& r->Ok_0@ =~= packet_bytes(self@) + Seq::new(
                    (FRAME_SIZE - packet_bytes(self@).len()) as nat,
                    |i: int| 0u8,
                )
            },
            packet_bytes(self@).len() > FRAME_SIZE ==> r == Err::<Vec<u8>, DnsError>(
                DnsError::BufferOverflow,
            ),
    {
        let mut buffer = ByteBuffer::new();
        self.write(&mut buffer)?;
        let ghost pb = packet_bytes(self@);
        proof {
            assert(buffer.buffer@ =~= pb + Seq::new((FRAME_SIZE - pb.len()) as nat, |i: int| 0u8));
        }
        Ok(buffer.buffer)
    }
}

// ------------------------------------------------------------------
// Navigation helpers
// ------------------------------------------------------------------

/// The address of the first A record in a run.
pub open spec fn first_a_addr(rs: Seq<RecordV>) -> Option<u32>
    decreases rs.len(),
{
    if rs.len() == 0 {
        None
    } else {
        match rs[0] {
            RecordV::A { addr, .. } => Some(addr),
            _ => first_a_addr(rs.drop_first()),
        }
    }
}

/// Whether `d` is a suffix of `q`.
pub open spec fn name_ends_with(q: Seq<char>, d: Seq<char>) -> bool {
    d.len() <= q.len() && q.skip(q.len() - d.len()) == d
}

/// The (domain, host) pairs of the NS records whose domain is a suffix of
/// `qname`, in section order.
pub open spec fn ns_matches(rs: Seq<RecordV>, qname: Seq<char>) -> Seq<(Seq<char>, Seq<char>)>
    decreases rs.len(),
{
    if rs.len() == 0 {
        Seq::empty()
    } else {
        let rest = ns_matches(rs.drop_first(), qname);
        match rs[0] {
            RecordV::Ns { domain, ns, .. } => if name_ends_with(qname, domain) {
                seq![(domain, ns)] + rest
            } else {
                rest
            },
            _ => rest,
        }
    }
}

/// The address of the first A record in `rs` whose domain is `name`.
pub open spec fn first_a_for(rs: Seq<RecordV>, name: Seq<char>) -> Option<u32>
    decreases rs.len(),
{
    if rs.len() == 0 {
        None
    } else {
        match rs[0] {
            RecordV::A { domain, addr, .. } => if domain == name {
                Some(addr)
            } else {
                first_a_for(rs.drop_first(), name)
            },
            _ => first_a_for(rs.drop_first(), name),
        }
    }
}

/// The glue address of the first matched NS pair that has one.
pub open spec fn first_glue(pairs: Seq<(Seq<char>, Seq<char>)>, resources: Seq<RecordV>) -> Option<
    u32,
>
    decreases pairs.len(),
{
    if pairs.len() == 0 {
        None
    } else {
        match first_a_for(resources, pairs[0].1) {
            Some(addr) => Some(addr),
            None => first_glue(pairs.drop_first(), resources),
        }
    }
}

/// Whether `hay` ends with the characters of `needle`.
fn str_ends_with(hay: &str, needle: &str) -> (r: bool)
    ensures
        r == name_ends_with(hay@, needle@),
{
    let hn = hay.unicode_len();
    let nn = needle.unicode_len();
    if nn > hn {
        return false;
    }
    let off = hn - nn;
    let mut i: usize = 0;
    while i < nn
        invariant
            nn <= hn,
            off == hn - nn,
            hn == hay@.len(),
            nn == needle@.len(),
            i <= nn,
            forall|j: int| 0 <= j < i ==> hay@[off + j] == needle@[j],
        decreases nn - i,
    {
        let hc = hay.get_char(off + i);
        let nc = needle.get_char(i);
        if hc != nc {
            proof {
                assert(hay@.skip(off as int)[i as int] != needle@[i as int]);
            }
            return false;
        }
        i = i + 1;
    }
    proof {
        assert(hay@.skip(off as int) =~= needle@);
    }
    true
}

impl DnsPacket {
    /// The address of the first A record among the answers, if any.
    pub fn get_random_a(&self) -> (r: Option<u32>)
        ensures
            r == first_a_addr(rviews(self.answers@)),
    {
        let mut i: usize = 0;
        proof {
            assert(rviews(self.answers@).skip(0) =~= rviews(self.answers@));
        }
        while i < self.answers.len()
            invariant
                i <= self.answers@.len(),
                first_a_addr(rviews(self.answers@)) == first_a_addr(
                    rviews(self.answers@).skip(i as int),
                ),
            decreases self.answers@.len() - i,
        {
            match &self.answers[i] {
                DnsRecord::A { addr, .. } => {
                    proof {
                        assert(rviews(self.answers@).skip(i as int)[0] == self.answers@[i as int]@);
                    }
                    return Some(*addr);
                },
                _ => {},
            }
            proof {
                assert(rviews(self.answers@).skip(i as int)[0] == self.answers@[i as int]@);
                assert(rviews(self.answers@).skip(i as int).drop_first() =~= rviews(
                    self.answers@,
                ).skip(i + 1));
            }
            i = i + 1;
        }
        proof {
            assert(rviews(self.answers@).skip(self.answers@.len() as int) =~= Seq::<
                RecordV,
            >::empty());
        }
        None
    }

    /// The (domain, host) pairs of the authority NS records whose domain is
    /// a suffix of `qname`, in section order.
    pub fn get_ns(&self, qname: &str) -> (r: Vec<(String, String)>)
        ensures
            r@.map_values(|p: (String, String)| (p.0@, p.1@)) == ns_matches(
                rviews(self.authorities@),
                qname@,
            ),
    {
        let mut out: Vec<(String, String)> = Vec::new();
        let mut i: usize = 0;
        proof {
            assert(out@.map_values(|p: (String, String)| (p.0@, p.1@)) =~= Seq::<
                (Seq<char>, Seq<char>),
            >::empty());
            assert(rviews(self.authorities@).skip(0) =~= rviews(self.authorities@));
            assert(Seq::<(Seq<char>, Seq<char>)>::empty() + ns_matches(
                rviews(self.authorities@),
                qname@,
            ) =~= ns_matches(rviews(self.authorities@), qname@));
        }
        while i < self.authorities.len()
            invariant
                i <= self.authorities@.len(),
                ns_matches(rviews(self.authorities@), qname@) == out@.map_values(
                    |p: (String, String)| (p.0@, p.1@),
                ) + ns_matches(rviews(self.authorities@).skip(i as int), qname@),
            decreases self.authorities@.len() - i,
        {
            let ghost acc = out@.map_values(|p: (String, String)| (p.0@, p.1@));
            proof {
                assert(rviews(self.authorities@).skip(i as int)[0]
                    == self.authorities@[i as int]@);
                assert(rviews(self.authorities@).skip(i as int).drop_first() =~= rviews(
                    self.authorities@,
                ).skip(i + 1));
            }
            match &self.authorities[i] {
                DnsRecord::NS { domain, ns, .. } => {
                    if str_ends_with(qname, domain.as_str()) {
                        let pair = (domain.clone(), ns.clone());
                        out.push(pair);
                        proof {
                            assert(out@.map_values(|p: (String, String)| (p.0@, p.1@))
                                =~~= acc.push((domain@, ns@)));
                            assert(acc.push((domain@, ns@)) =~= acc + seq![(domain@, ns@)]);
                            assert(acc + (seq![(domain@, ns@)] + ns_matches(
                                rviews(self.authorities@).skip(i + 1),
                                qname@,
                            )) =~= (acc + seq![(domain@, ns@)]) + ns_matches(
                                rviews(self.authorities@).skip(i + 1),
                                qname@,
                            ));
                        }
                    }
                },
                _ => {},
            }
            i = i + 1;
        }
        proof {
            assert(rviews(self.authorities@).skip(self.authorities@.len() as int) =~= Seq::<
                RecordV,
            >::empty());
            assert(out@.map_values(|p: (String, String)| (p.0@, p.1@)) + Seq::<
                (Seq<char>, Seq<char>),
            >::empty() =~= out@.map_values(|p: (String, String)| (p.0@, p.1@)));
        }
        out
    }

    /// The first matched NS host that has a glue A record in the additional
    /// section, as its address.
    pub fn get_resolved_ns(&self, qname: &str) -> (r: Option<u32>)
        ensures
            r == first_glue(ns_matches(rviews(self.authorities@), qname@), rviews(self.resources@)),
    {
        let pairs = self.get_ns(qname);
        let ghost pv = pairs@.map_values(|p: (String, String)| (p.0@, p.1@));
        let mut i: usize = 0;
        proof {
            assert(pv.skip(0) =~= pv);
        }
        while i < pairs.len()
            invariant
                i <= pairs@.len(),
                pv == pairs@.map_values(|p: (String, String)| (p.0@, p.1@)),
                pv == ns_matches(rviews(self.authorities@), qname@),
                first_glue(pv, rviews(self.resources@)) == first_glue(
                    pv.skip(i as int),
                    rviews(self.resources@),
                ),
            decreases pairs@.len() - i,
        {
            proof {
                assert(pv.skip(i as int)[0] == pv[i as int]);
                assert(pv.skip(i as int).drop_first() =~= pv.skip(i + 1));
                assert(pv[i as int] == (pairs@[i as int].0@, pairs@[i as int].1@));
            }
            match self.first_a_in_resources(&pairs[i].1) {
                Some(addr) => {
                    return Some(addr);
                },
                None => {},
            }
            i = i + 1;
        }
        proof {
            assert(pv.skip(pv.len() as int) =~= Seq::<(Seq<char>, Seq<char>)>::empty());
        }
        None
    }

    /// The address of the first A record in the additional section whose
    /// domain equals `name`.
    fn first_a_in_resources(&self, name: &String) -> (r: Option<u32>)
        ensures
            r == first_a_for(rviews(self.resources@), name@),
    {
        let mut i: usize = 0;
        proof {
            assert(rviews(self.resources@).skip(0) =~= rviews(self.resources@));
        }
        while i < self.resources.len()
            invariant
                i <= self.resources@.len(),
                first_a_for(rviews(self.resources@), name@) == first_a_for(
                    rviews(self.resources@).skip(i as int),
                    name@,
                ),
            decreases self.resources@.len() - i,
        {
            proof {
                assert(rviews(self.resources@).skip(i as int)[0] == self.resources@[i as int]@);
                assert(rviews(self.resources@).skip(i as int).drop_first() =~= rviews(
                    self.resources@,
                ).skip(i + 1));
            }
            match &self.resources[i] {
                DnsRecord::A { domain, addr, .. } => {
                    if domain.eq(name) {
                        return Some(*addr);
                    }
                },
                _ => {},
            }
            i = i + 1;
        }
        proof {
            assert(rviews(self.resources@).skip(self.resources@.len() as int) =~= Seq::<
                RecordV,
            >::empty());
        }
        None
    }

    /// The host of the first matched NS pair, when no glue was found.
    pub fn get_unresolved_ns(&self, qname: &str) -> (r: Option<String>)
        ensures
            match r {
                Some(ns) => ns_matches(rviews(self.authorities@), qname@).len() > 0 && ns@
                    == ns_matches(rviews(self.authorities@), qname@)[0].1,
                None => ns_matches(rviews(self.authorities@), qname@).len() == 0,
            },
    {
        let pairs = self.get_ns(qname);
        if pairs.len() > 0 {
            let (_, ns) = &pairs[0];
            proof {
                assert(pairs@.map_values(|p: (String, String)| (p.0@, p.1@))[0] == (
                    pairs@[0].0@,
                    pairs@[0].1@,
                ));
            }
            Some(ns.clone())
        } else {
            None
        }
    }
}

} // verus!
