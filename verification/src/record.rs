//! Resource records: the six supported shapes and their wire codec.

use vstd::prelude::*;

use crate::byte_buffer::{
    u16_bytes, u16_of_bytes, u32_bytes, u32_of_bytes, ByteBuffer, DnsError, FRAME_SIZE,
};
use crate::qname::{decode_qname_at, join_labels, lower_name, qname_bytes, qname_wf, QnameDecode};

verus! {

/// One resource record.  IPv4 addresses are held as the 32-bit value read
/// from the wire, IPv6 addresses as their 16 octets.  `UNKNOWN` keeps the
/// raw type and length of a record the codec does not interpret.
#[derive(Debug, Clone, PartialEq, Eq)]
pub enum DnsRecord {
    UNKNOWN { domain: String, qtype: u16, data_len: u16, ttl: u32 },
    A { domain: String, addr: u32, ttl: u32 },
    NS { domain: String, ns: String, ttl: u32 },
    CNAME { domain: String, cname: String, ttl: u32 },
    MX { domain: String, preference: u16, exchange: String, ttl: u32 },
    AAAA { domain: String, addr: Vec<u8>, ttl: u32 },
}

/// The mathematical image of a record: names as character sequences,
/// addresses as plain values.
pub enum RecordV {
    Unknown { domain: Seq<char>, qtype: u16, data_len: u16, ttl: u32 },
    A { domain: Seq<char>, addr: u32, ttl: u32 },
    Ns { domain: Seq<char>, ns: Seq<char>, ttl: u32 },
    Cname { domain: Seq<char>, cname: Seq<char>, ttl: u32 },
    Mx { domain: Seq<char>, preference: u16, exchange: Seq<char>, ttl: u32 },
    Aaaa { domain: Seq<char>, addr: Seq<u8>, ttl: u32 },
}

impl View for DnsRecord {
    type V = RecordV;

    open spec fn view(&self) -> RecordV {
        match self {
            DnsRecord::UNKNOWN { domain, qtype, data_len, ttl } => RecordV::Unknown {
                domain: domain@,
                qtype: *qtype,
                data_len: *data_len,
                ttl: *ttl,
            },
            DnsRecord::A { domain, addr, ttl } => RecordV::A {
                domain: domain@,
                addr: *addr,
                ttl: *ttl,
            },
            DnsRecord::NS { domain, ns, ttl } => RecordV::Ns {
                domain: domain@,
                ns: ns@,
                ttl: *ttl,
            },
            DnsRecord::CNAME { domain, cname, ttl } => RecordV::Cname {
                domain: domain@,
                cname: cname@,
                ttl: *ttl,
            },
            DnsRecord::MX { domain, preference, exchange, ttl } => RecordV::Mx {
                domain: domain@,
                preference: *preference,
                exchange: exchange@,
                ttl: *ttl,
            },
            DnsRecord::AAAA { domain, addr, ttl } => RecordV::Aaaa {
                domain: domain@,
                addr: addr@,
                ttl: *ttl,
            },
        }
    }
}

impl DnsRecord {
    /// An IPv6 record carries exactly 16 octets.
    pub open spec fn wf(&self) -> bool {
        match self {
            DnsRecord::AAAA { domain, addr, ttl } => addr@.len() == 16,
            _ => true,
        }
    }

    /// The record's time to live, whatever its shape.
    pub fn ttl(&self) -> (r: u32)
        ensures
            r == record_ttl(self@),
    {
        match self {
            DnsRecord::UNKNOWN { ttl, .. } => *ttl,
            DnsRecord::A { ttl, .. } => *ttl,
            DnsRecord::NS { ttl, .. } => *ttl,
            DnsRecord::CNAME { ttl, .. } => *ttl,
            DnsRecord::MX { ttl, .. } => *ttl,
            DnsRecord::AAAA { ttl, .. } => *ttl,
        }
    }
}

/// The record's time to live, whatever its shape.
pub open spec fn record_ttl(r: RecordV) -> u32 {
    match r {
        RecordV::Unknown { ttl, .. } => ttl,
        RecordV::A { ttl, .. } => ttl,
        RecordV::Ns { ttl, .. } => ttl,
        RecordV::Cname { ttl, .. } => ttl,
        RecordV::Mx { ttl, .. } => ttl,
        RecordV::Aaaa { ttl, .. } => ttl,
    }
}

/// The wire form of a record: name, type, class 1, TTL, RDLENGTH, RDATA.
/// An `UNKNOWN` record is not written at all.
pub open spec fn record_bytes(r: RecordV) -> Seq<u8> {
    match r {
        RecordV::Unknown { .. } => Seq::<u8>::empty(),
        RecordV::A { domain, addr, ttl } => qname_bytes(domain) + u16_bytes(1) + u16_bytes(1)
            + u32_bytes(ttl) + u16_bytes(4) + u32_bytes(addr),
        RecordV::Ns { domain, ns, ttl } => qname_bytes(domain) + u16_bytes(2) + u16_bytes(1)
            + u32_bytes(ttl) + u16_bytes(qname_bytes(ns).len() as u16) + qname_bytes(ns),
        RecordV::Cname { domain, cname, ttl } => qname_bytes(domain) + u16_bytes(5) + u16_bytes(1)
            + u32_bytes(ttl) + u16_bytes(qname_bytes(cname).len() as u16) + qname_bytes(cname),
        RecordV::Mx { domain, preference, exchange, ttl } => qname_bytes(domain) + u16_bytes(15)
            + u16_bytes(1) + u32_bytes(ttl) + u16_bytes((2 + qname_bytes(exchange).len()) as u16)
            + u16_bytes(preference) + qname_bytes(exchange),
        RecordV::Aaaa { domain, addr, ttl } => qname_bytes(domain) + u16_bytes(28) + u16_bytes(1)
            + u32_bytes(ttl) + u16_bytes(16) + addr,
    }
}

/// The outcome of decoding a record at `pos`.
pub enum RecordDecode {
    Done { rec: RecordV, end: int },
    Fail { err: DnsError },
}

/// The decode of the record at `pos`.  The class word is skipped; an
/// unrecognized type yields `Unknown` and the cursor advances past its
/// `data_len` bytes of RDATA, so the record that follows parses cleanly.
pub open spec fn decode_record_at(buf: Seq<u8>, pos: int) -> RecordDecode {
    match decode_qname_at(buf, pos, 0, None::<int>) {
        QnameDecode::Done { labels, end } => {
            let domain = join_labels(labels);
            if end + 10 <= 512 {
                let qtype = u16_of_bytes(buf[end], buf[end + 1]);
                let ttl = u32_of_bytes(buf[end + 4], buf[end + 5], buf[end + 6], buf[end + 7]);
                let data_len = u16_of_bytes(buf[end + 8], buf[end + 9]);
                let p = end + 10;
                if qtype == 1 {
                    if p + 4 <= 512 {
                        RecordDecode::Done {
                            rec: RecordV::A {
                                domain,
                                addr: u32_of_bytes(buf[p], buf[p + 1], buf[p + 2], buf[p + 3]),
                                ttl,
                            },
                            end: p + 4,
                        }
                    } else {
                        RecordDecode::Fail { err: DnsError::BufferOverflow }
                    }
                } else if qtype == 2 {
                    match decode_qname_at(buf, p, 0, None::<int>) {
                        QnameDecode::Done { labels: ls2, end: e2 } => RecordDecode::Done {
                            rec: RecordV::Ns { domain, ns: join_labels(ls2), ttl },
                            end: e2,
                        },
                        QnameDecode::Fail { err } => RecordDecode::Fail { err },
                    }
                } else if qtype == 5 {
                    match decode_qname_at(buf, p, 0, None::<int>) {
                        QnameDecode::Done { labels: ls2, end: e2 } => RecordDecode::Done {
                            rec: RecordV::Cname { domain, cname: join_labels(ls2), ttl },
                            end: e2,
                        },
                        QnameDecode::Fail { err } => RecordDecode::Fail { err },
                    }
                } else if qtype == 15 {
                    if p + 2 <= 512 {
                        match decode_qname_at(buf, p + 2, 0, None::<int>) {
                            QnameDecode::Done { labels: ls2, end: e2 } => RecordDecode::Done {
                                rec: RecordV::Mx {
                                    domain,
                                    preference: u16_of_bytes(buf[p], buf[p + 1]),
                                    exchange: join_labels(ls2),
                                    ttl,
                                },
                                end: e2,
                            },
                            QnameDecode::Fail { err } => RecordDecode::Fail { err },
                        }
                    } else {
                        RecordDecode::Fail { err: DnsError::BufferOverflow }
                    }
                } else if qtype == 28 {
                    if p + 16 <= 512 {
                        RecordDecode::Done {
                            rec: RecordV::Aaaa { domain, addr: buf.subrange(p, p + 16), ttl },
                            end: p + 16,
                        }
                    } else {
                        RecordDecode::Fail { err: DnsError::BufferOverflow }
                    }
                } else {
                    if p + data_len <= 512 {
                        RecordDecode::Done {
                            rec: RecordV::Unknown { domain, qtype, data_len, ttl },
                            end: p + data_len,
                        }
                    } else {
                        RecordDecode::Fail { err: DnsError::BufferOverflow }
                    }
                }
            } else {
                RecordDecode::Fail { err: DnsError::BufferOverflow }
            }
        },
        QnameDecode::Fail { err } => RecordDecode::Fail { err },
    }
}

/// A record the codec round-trips: a known type, well-formed names, and a
/// full 16-octet address on an IPv6 record.
pub open spec fn rt_record_wf(r: RecordV) -> bool {
    match r {
        RecordV::Unknown { .. } => false,
        RecordV::A { domain, .. } => qname_wf(domain),
        RecordV::Ns { domain, ns, .. } => qname_wf(domain) && qname_wf(ns),
        RecordV::Cname { domain, cname, .. } => qname_wf(domain) && qname_wf(cname),
        RecordV::Mx { domain, exchange, .. } => qname_wf(domain) && qname_wf(exchange),
        RecordV::Aaaa { domain, addr, .. } => qname_wf(domain) && addr.len() == 16,
    }
}

/// A record with every name lower-cased, as decoding yields it.
pub open spec fn lower_record(r: RecordV) -> RecordV {
    match r {
        RecordV::Unknown { domain, qtype, data_len, ttl } => RecordV::Unknown {
            domain: lower_name(domain),
            qtype,
            data_len,
            ttl,
        },
        RecordV::A { domain, addr, ttl } => RecordV::A { domain: lower_name(domain), addr, ttl },
        RecordV::Ns { domain, ns, ttl } => RecordV::Ns {
            domain: lower_name(domain),
            ns: lower_name(ns),
            ttl,
        },
        RecordV::Cname { domain, cname, ttl } => RecordV::Cname {
            domain: lower_name(domain),
            cname: lower_name(cname),
            ttl,
        },
        RecordV::Mx { domain, preference, exchange, ttl } => RecordV::Mx {
            domain: lower_name(domain),
            preference,
            exchange: lower_name(exchange),
            ttl,
        },
        RecordV::Aaaa { domain, addr, ttl } => RecordV::Aaaa {
            domain: lower_name(domain),
            addr,
            ttl,
        },
    }
}

/// The bytes at `pos` agree with `w`, index by index.
proof fn lemma_bytes_at(buf: Seq<u8>, pos: int, w: Seq<u8>)
    requires
        buf.len() == 512,
        0 <= pos,
        pos + w.len() <= 512,
        buf.subrange(pos, pos + w.len()) == w,
    ensures
        forall|j: int| 0 <= j < w.len() ==> buf[pos + j] == w[j],
{
    assert forall|j: int| 0 <= j < w.len() implies buf[pos + j] == w[j] by {
        assert(buf.subrange(pos, pos + w.len() as int)[j] == buf[pos + j]);
    }
}

/// A slice of `w` read back out of the frame.
proof fn lemma_sub_at(buf: Seq<u8>, pos: int, w: Seq<u8>, a: int, b: int)
    requires
        buf.len() == 512,
        0 <= pos,
        pos + w.len() <= 512,
        buf.subrange(pos, pos + w.len()) == w,
        0 <= a <= b <= w.len(),
    ensures
        buf.subrange(pos + a, pos + b) == w.subrange(a, b),
{
    lemma_bytes_at(buf, pos, w);
    assert(buf.subrange(pos + a, pos + b) =~= w.subrange(a, b));
}

/// Round trip of an A record.
#[verifier::rlimit(100)]
proof fn lemma_a_round_trip(buf: Seq<u8>, pos: int, domain: Seq<char>, addr: u32, ttl: u32)
    requires
        buf.len() == 512,
        0 <= pos,
        pos + record_bytes(RecordV::A { domain, addr, ttl }).len() <= 512,
        buf.subrange(pos, pos + record_bytes(RecordV::A { domain, addr, ttl }).len())
            == record_bytes(RecordV::A { domain, addr, ttl }),
        qname_wf(domain),
    ensures
        decode_record_at(buf, pos) == (RecordDecode::Done {
            rec: RecordV::A { domain: lower_name(domain), addr, ttl },
            end: pos + record_bytes(RecordV::A { domain, addr, ttl }).len(),
        }),
{
    let w = record_bytes(RecordV::A { domain, addr, ttl });
    lemma_bytes_at(buf, pos, w);
    let qb = qname_bytes(domain);
    let qd = qb.len() as int;
    lemma_sub_at(buf, pos, w, 0, qd);
    assert(w.subrange(0, qd) =~= qb);
    crate::qname::lemma_qname_round_trip(buf, pos, domain);
    let end = pos + qd;
    crate::byte_buffer::lemma_u16_round_trip(1);
    assert(buf[end] == w[qd] && buf[end + 1] == w[qd + 1]);
    assert(w[qd] == u16_bytes(1)[0] && w[qd + 1] == u16_bytes(1)[1]);
    crate::byte_buffer::lemma_u32_round_trip(ttl);
    assert(w[qd + 4] == u32_bytes(ttl)[0] && w[qd + 5] == u32_bytes(ttl)[1] && w[qd + 6]
        == u32_bytes(ttl)[2] && w[qd + 7] == u32_bytes(ttl)[3]);
    crate::byte_buffer::lemma_u32_round_trip(addr);
    assert(w[qd + 10] == u32_bytes(addr)[0] && w[qd + 11] == u32_bytes(addr)[1] && w[qd + 12]
        == u32_bytes(addr)[2] && w[qd + 13] == u32_bytes(addr)[3]);
}

/// Round trip of a record whose RDATA is one name (NS or CNAME).
#[verifier::rlimit(100)]
proof fn lemma_named_round_trip(buf: Seq<u8>, pos: int, r: RecordV)
    requires
        buf.len() == 512,
        0 <= pos,
        pos + record_bytes(r).len() <= 512,
        buf.subrange(pos, pos + record_bytes(r).len()) == record_bytes(r),
        rt_record_wf(r),
        r is Ns || r is Cname,
    ensures
        decode_record_at(buf, pos) == (RecordDecode::Done {
            rec: lower_record(r),
            end: pos + record_bytes(r).len(),
        }),
{
    let w = record_bytes(r);
    lemma_bytes_at(buf, pos, w);
    match r {
        RecordV::Ns { domain, ns, ttl } => {
            let qb = qname_bytes(domain);
            let qd = qb.len() as int;
            let tb = qname_bytes(ns);
            lemma_sub_at(buf, pos, w, 0, qd);
            assert(w.subrange(0, qd) =~= qb);
            crate::qname::lemma_qname_round_trip(buf, pos, domain);
            let end = pos + qd;
            crate::byte_buffer::lemma_u16_round_trip(2);
            assert(buf[end] == w[qd] && buf[end + 1] == w[qd + 1]);
            assert(w[qd] == u16_bytes(2)[0] && w[qd + 1] == u16_bytes(2)[1]);
            crate::byte_buffer::lemma_u32_round_trip(ttl);
            assert(w[qd + 4] == u32_bytes(ttl)[0] && w[qd + 5] == u32_bytes(ttl)[1] && w[qd + 6]
                == u32_bytes(ttl)[2] && w[qd + 7] == u32_bytes(ttl)[3]);
            lemma_sub_at(buf, pos, w, qd + 10, qd + 10 + tb.len());
            assert(w.subrange(qd + 10, qd + 10 + tb.len()) =~= tb);
            crate::qname::lemma_qname_round_trip(buf, end + 10, ns);
        },
        RecordV::Cname { domain, cname, ttl } => {
            let qb = qname_bytes(domain);
            let qd = qb.len() as int;
            let tb = qname_bytes(cname);
            lemma_sub_at(buf, pos, w, 0, qd);
            assert(w.subrange(0, qd) =~= qb);
            crate::qname::lemma_qname_round_trip(buf, pos, domain);
            let end = pos + qd;
            crate::byte_buffer::lemma_u16_round_trip(5);
            assert(buf[end] == w[qd] && buf[end + 1] == w[qd + 1]);
            assert(w[qd] == u16_bytes(5)[0] && w[qd + 1] == u16_bytes(5)[1]);
            crate::byte_buffer::lemma_u32_round_trip(ttl);
            assert(w[qd + 4] == u32_bytes(ttl)[0] && w[qd + 5] == u32_bytes(ttl)[1] && w[qd + 6]
                == u32_bytes(ttl)[2] && w[qd + 7] == u32_bytes(ttl)[3]);
            lemma_sub_at(buf, pos, w, qd + 10, qd + 10 + tb.len());
            assert(w.subrange(qd + 10, qd + 10 + tb.len()) =~= tb);
            crate::qname::lemma_qname_round_trip(buf, end + 10, cname);
        },
        _ => {},
    }
}

/// Round trip of a mail-exchange record.
#[verifier::rlimit(100)]
proof fn lemma_mx_round_trip(
    buf: Seq<u8>,
    pos: int,
    domain: Seq<char>,
    preference: u16,
    exchange: Seq<char>,
    ttl: u32,
)
    requires
        buf.len() == 512,
        0 <= pos,
        pos + record_bytes(RecordV::Mx { domain, preference, exchange, ttl }).len() <= 512,
        buf.subrange(
            pos,
            pos + record_bytes(RecordV::Mx { domain, preference, exchange, ttl }).len(),
        ) == record_bytes(RecordV::Mx { domain, preference, exchange, ttl }),
        qname_wf(domain),
        qname_wf(exchange),
    ensures
        decode_record_at(buf, pos) == (RecordDecode::Done {
            rec: RecordV::Mx {
                domain: lower_name(domain),
                preference,
                exchange: lower_name(exchange),
                ttl,
            },
            end: pos + record_bytes(RecordV::Mx { domain, preference, exchange, ttl }).len(),
        }),
{
    let w = record_bytes(RecordV::Mx { domain, preference, exchange, ttl });
    lemma_bytes_at(buf, pos, w);
    let qb = qname_bytes(domain);
    let qd = qb.len() as int;
    let tb = qname_bytes(exchange);
    lemma_sub_at(buf, pos, w, 0, qd);
    assert(w.subrange(0, qd) =~= qb);
    crate::qname::lemma_qname_round_trip(buf, pos, domain);
    let end = pos + qd;
    crate::byte_buffer::lemma_u16_round_trip(15);
    assert(buf[end] == w[qd] && buf[end + 1] == w[qd + 1]);
    assert(w[qd] == u16_bytes(15)[0] && w[qd + 1] == u16_bytes(15)[1]);
    crate::byte_buffer::lemma_u32_round_trip(ttl);
    assert(w[qd + 4] == u32_bytes(ttl)[0] && w[qd + 5] == u32_bytes(ttl)[1] && w[qd + 6]
        == u32_bytes(ttl)[2] && w[qd + 7] == u32_bytes(ttl)[3]);
    crate::byte_buffer::lemma_u16_round_trip(preference);
    assert(w[qd + 10] == u16_bytes(preference)[0] && w[qd + 11] == u16_bytes(preference)[1]);
    lemma_sub_at(buf, pos, w, qd + 12, qd + 12 + tb.len());
    assert(w.subrange(qd + 12, qd + 12 + tb.len()) =~= tb);
    crate::qname::lemma_qname_round_trip(buf, end + 12, exchange);
}

/// Round trip of an AAAA record.
#[verifier::rlimit(100)]
proof fn lemma_aaaa_round_trip(buf: Seq<u8>, pos: int, domain: Seq<char>, addr: Seq<u8>, ttl: u32)
    requires
        buf.len() == 512,
        0 <= pos,
        pos + record_bytes(RecordV::Aaaa { domain, addr, ttl }).len() <= 512,
        buf.subrange(pos, pos + record_bytes(RecordV::Aaaa { domain, addr, ttl }).len())
            == record_bytes(RecordV::Aaaa { domain, addr, ttl }),
        qname_wf(domain),
        addr.len() == 16,
    ensures
        decode_record_at(buf, pos) == (RecordDecode::Done {
            rec: RecordV::Aaaa { domain: lower_name(domain), addr, ttl },
            end: pos + record_bytes(RecordV::Aaaa { domain, addr, ttl }).len(),
        }),
{
    let w = record_bytes(RecordV::Aaaa { domain, addr, ttl });
    lemma_bytes_at(buf, pos, w);
    let qb = qname_bytes(domain);
    let qd = qb.len() as int;
    lemma_sub_at(buf, pos, w, 0, qd);
    assert(w.subrange(0, qd) =~= qb);
    crate::qname::lemma_qname_round_trip(buf, pos, domain);
    let end = pos + qd;
    crate::byte_buffer::lemma_u16_round_trip(28);
    assert(buf[end] == w[qd] && buf[end + 1] == w[qd + 1]);
    assert(w[qd] == u16_bytes(28)[0] && w[qd + 1] == u16_bytes(28)[1]);
    crate::byte_buffer::lemma_u32_round_trip(ttl);
    assert(w[qd + 4] == u32_bytes(ttl)[0] && w[qd + 5] == u32_bytes(ttl)[1] && w[qd + 6]
        == u32_bytes(ttl)[2] && w[qd + 7] == u32_bytes(ttl)[3]);
    lemma_sub_at(buf, pos, w, qd + 10, qd + 10 + 16);
    assert(w.subrange(qd + 10, qd + 26) =~= addr);
}

/// Record round trip: a well-formed record written at `pos` decodes to its
/// lower-cased self, consuming exactly its encoding.
pub proof fn lemma_record_round_trip(buf: Seq<u8>, pos: int, r: RecordV)
    requires
        buf.len() == 512,
        0 <= pos,
        pos + record_bytes(r).len() <= 512,
        buf.subrange(pos, pos + record_bytes(r).len()) == record_bytes(r),
        rt_record_wf(r),
    ensures
        decode_record_at(buf, pos) == (RecordDecode::Done {
            rec: lower_record(r),
            end: pos + record_bytes(r).len(),
        }),
{
    match r {
        RecordV::Unknown { .. } => {},
        RecordV::A { domain, addr, ttl } => {
            lemma_a_round_trip(buf, pos, domain, addr, ttl);
        },
        RecordV::Ns { .. } => {
            lemma_named_round_trip(buf, pos, r);
        },
        RecordV::Cname { .. } => {
            lemma_named_round_trip(buf, pos, r);
        },
        RecordV::Mx { domain, preference, exchange, ttl } => {
            lemma_mx_round_trip(buf, pos, domain, preference, exchange, ttl);
        },
        RecordV::Aaaa { domain, addr, ttl } => {
            lemma_aaaa_round_trip(buf, pos, domain, addr, ttl);
        },
    }
}

impl DnsRecord {
    /// Decode the record at the cursor.
    pub fn read(buffer: &mut ByteBuffer) -> (r: Result<DnsRecord, DnsError>)
        requires
            old(buffer).wf(),
        ensures
            final(buffer).wf(),
            final(buffer).buffer@ == old(buffer).buffer@,
            match decode_record_at(old(buffer).buffer@, old(buffer).position as int) {
                RecordDecode::Done { rec, end } => {
                    &&& r is Ok
                    &&& r->Ok_0@ == rec
                    &&& r->Ok_0.wf()
                    &&& final(buffer).position == end
                },
                RecordDecode::Fail { err } => r == Err::<DnsRecord, DnsError>(err),
            },
    {
        let mut domain = String::new();
        buffer.read_qname(&mut domain)?;
        let qtype = buffer.read_u16()?;
        let _ = buffer.read_u16()?;
        let ttl = buffer.read_u32()?;
        let data_len = buffer.read_u16()?;

        match qtype {
            1 => {
                let addr = buffer.read_u32()?;
                Ok(DnsRecord::A { domain, addr, ttl })
            },
            2 => {
                let mut ns = String::new();
                buffer.read_qname(&mut ns)?;
                Ok(DnsRecord::NS { domain, ns, ttl })
            },
            5 => {
                let mut cname = String::new();
                buffer.read_qname(&mut cname)?;
                Ok(DnsRecord::CNAME { domain, cname, ttl })
            },
            15 => {
                let preference = buffer.read_u16()?;
                let mut exchange = String::new();
                buffer.read_qname(&mut exchange)?;
                Ok(DnsRecord::MX { domain, preference, exchange, ttl })
            },
            28 => {
                if buffer.position() > FRAME_SIZE - 16 {
                    return Err(DnsError::BufferOverflow);
                }
                let ghost pstart = buffer.position as int;
                let ghost bsnap = buffer.buffer@;
                let mut addr: Vec<u8> = Vec::new();
                let mut i: usize = 0;
                while i < 16
                    invariant
                        buffer.wf(),
                        buffer.buffer@ == bsnap,
                        i <= 16,
                        0 <= pstart,
                        pstart + 16 <= FRAME_SIZE,
                        buffer.position == pstart + i,
                        addr@ == buffer.buffer@.subrange(pstart, pstart + i),
                    decreases 16 - i,
                {
                    let ghost pre = buffer.buffer@;
                    let b = match buffer.read() {
                        Ok(v) => v,
                        Err(e) => {
                            proof {
                                assert(false);
                            }
                            return Err(e);
                        },
                    };
                    addr.push(b);
                    proof {
                        assert(buffer.buffer@.subrange(pstart, pstart + i + 1)
                            =~= buffer.buffer@.subrange(pstart, pstart + i).push(
                            buffer.buffer@[pstart + i],
                        ));
                    }
                    i = i + 1;
                }
                Ok(DnsRecord::AAAA { domain, addr, ttl })
            },
            _ => {
                if data_len as usize > FRAME_SIZE - buffer.position() {
                    return Err(DnsError::BufferOverflow);
                }
                buffer.step(data_len as usize)?;
                Ok(DnsRecord::UNKNOWN { domain, qtype, data_len, ttl })
            },
        }
    }

    /// Encode this record at the cursor.  Fixed-size RDATA writes its
    /// length directly; name-valued RDATA reserves the length word and
    /// back-patches it once the name is written.  `UNKNOWN` records are
    /// skipped.
    pub fn write(&self, buffer: &mut ByteBuffer) -> (r: Result<(), DnsError>)
        requires
            old(buffer).wf(),
            self.wf(),
        ensures
            final(buffer).wf(),
            final(buffer).position >= old(buffer).position,
            old(buffer).position <= FRAME_SIZE ==> final(buffer).buffer@.subrange(
                0,
                old(buffer).position as int,
            ) == old(buffer).buffer@.subrange(0, old(buffer).position as int),
            self is UNKNOWN ==> r is Ok && final(buffer).buffer@ == old(buffer).buffer@
                && final(buffer).position == old(buffer).position,
            !(self is UNKNOWN) && old(buffer).position + record_bytes(self@).len() <= FRAME_SIZE
                ==> {
                &&& r is Ok
                &&& final(buffer).buffer@ == old(buffer).buffer@.subrange(
                    0,
                    old(buffer).position as int,
                ) + record_bytes(self@) + old(buffer).buffer@.subrange(
                    old(buffer).position + record_bytes(self@).len(),
                    FRAME_SIZE as int,
                )
                &&& final(buffer).position == old(buffer).position + record_bytes(self@).len()
            },
            !(self is UNKNOWN) && old(buffer).position + record_bytes(self@).len() > FRAME_SIZE
                ==> r == Err::<(), DnsError>(DnsError::BufferOverflow),
    {
        match self {
            DnsRecord::UNKNOWN { .. } => Ok(()),
            DnsRecord::A { domain, addr, ttl } => write_a(buffer, domain.as_str(), *addr, *ttl),
            DnsRecord::NS { domain, ns, ttl } => write_named(
                buffer,
                2,
                domain.as_str(),
                ns.as_str(),
                *ttl,
            ),
            DnsRecord::CNAME { domain, cname, ttl } => write_named(
                buffer,
                5,
                domain.as_str(),
                cname.as_str(),
                *ttl,
            ),
            DnsRecord::MX { domain, preference, exchange, ttl } => write_mx(
                buffer,
                domain.as_str(),
                *preference,
                exchange.as_str(),
                *ttl,
            ),
            DnsRecord::AAAA { domain, addr, ttl } => write_aaaa(buffer, domain.as_str(), addr, *ttl),
        }
    }
}

/// The wire form of a record whose RDATA is a fixed 32-bit address.
pub open spec fn a_record_bytes(domain: Seq<char>, addr: u32, ttl: u32) -> Seq<u8> {
    qname_bytes(domain) + u16_bytes(1) + u16_bytes(1) + u32_bytes(ttl) + u16_bytes(4) + u32_bytes(
        addr,
    )
}

/// The wire form of a record whose RDATA is a single name.
pub open spec fn named_record_bytes(code: u16, domain: Seq<char>, target: Seq<char>, ttl: u32) -> Seq<
    u8,
> {
    qname_bytes(domain) + u16_bytes(code) + u16_bytes(1) + u32_bytes(ttl) + u16_bytes(
        qname_bytes(target).len() as u16,
    ) + qname_bytes(target)
}

/// The wire form of a mail-exchange record.
pub open spec fn mx_record_bytes(
    domain: Seq<char>,
    preference: u16,
    exchange: Seq<char>,
    ttl: u32,
) -> Seq<u8> {
    qname_bytes(domain) + u16_bytes(15) + u16_bytes(1) + u32_bytes(ttl) + u16_bytes(
        (2 + qname_bytes(exchange).len()) as u16,
    ) + u16_bytes(preference) + qname_bytes(exchange)
}

/// The wire form of a record whose RDATA is a fixed 16-octet address.
pub open spec fn aaaa_record_bytes(domain: Seq<char>, addr: Seq<u8>, ttl: u32) -> Seq<u8> {
    qname_bytes(domain) + u16_bytes(28) + u16_bytes(1) + u32_bytes(ttl) + u16_bytes(16) + addr
}

/// Write an A record.
#[verifier::rlimit(100)]
fn write_a(buffer: &mut ByteBuffer, domain: &str, addr: u32, ttl: u32) -> (r: Result<(), DnsError>)
    requires
        old(buffer).wf(),
    ensures
        final(buffer).wf(),
        final(buffer).position >= old(buffer).position,
        old(buffer).position <= FRAME_SIZE ==> final(buffer).buffer@.subrange(
            0,
            old(buffer).position as int,
        ) == old(buffer).buffer@.subrange(0, old(buffer).position as int),
        old(buffer).position + a_record_bytes(domain@, addr, ttl).len() <= FRAME_SIZE ==> {
            &&& r is Ok
            &&& final(buffer).buffer@ == old(buffer).buffer@.subrange(
                0,
                old(buffer).position as int,
            ) + a_record_bytes(domain@, addr, ttl) + old(buffer).buffer@.subrange(
                old(buffer).position + a_record_bytes(domain@, addr, ttl).len(),
                FRAME_SIZE as int,
            )
            &&& final(buffer).position == old(buffer).position + a_record_bytes(
                domain@,
                addr,
                ttl,
            ).len()
        },
        old(buffer).position + a_record_bytes(domain@, addr, ttl).len() > FRAME_SIZE ==> r
            == Err::<(), DnsError>(DnsError::BufferOverflow),
{
    let ghost bb = buffer.buffer@;
    let ghost p0 = buffer.position as int;
    let ghost rb = a_record_bytes(domain@, addr, ttl);
    buffer.write_qname(domain)?;
    buffer.write_u16(1)?;
    buffer.write_u16(1)?;
    buffer.write_u32(ttl)?;
    buffer.write_u16(4)?;
    buffer.write_u32(addr)?;
    proof {
        if p0 + rb.len() <= FRAME_SIZE {
            assert(buffer.buffer@ =~= bb.subrange(0, p0) + rb + bb.subrange(
                p0 + rb.len(),
                FRAME_SIZE as int,
            ));
        }
        if p0 <= FRAME_SIZE {
            assert(buffer.buffer@.subrange(0, p0) =~= bb.subrange(0, p0));
        }
    }
    Ok(())
}

/// Write a record whose RDATA is one name, back-patching RDLENGTH.
#[verifier::rlimit(100)]
fn write_named(buffer: &mut ByteBuffer, code: u16, domain: &str, target: &str, ttl: u32) -> (r:
    Result<(), DnsError>)
    requires
        old(buffer).wf(),
    ensures
        final(buffer).wf(),
        final(buffer).position >= old(buffer).position,
        old(buffer).position <= FRAME_SIZE ==> final(buffer).buffer@.subrange(
            0,
            old(buffer).position as int,
        ) == old(buffer).buffer@.subrange(0, old(buffer).position as int),
        old(buffer).position + (named_record_bytes(code, domain@, target@, ttl)).len() <= FRAME_SIZE ==> {
            &&& r is Ok
            &&& final(buffer).buffer@ == old(buffer).buffer@.subrange(
                0,
                old(buffer).position as int,
            ) + (named_record_bytes(code, domain@, target@, ttl)) + old(buffer).buffer@.subrange(
                old(buffer).position + (named_record_bytes(code, domain@, target@, ttl)).len(),
                FRAME_SIZE as int,
            )
            &&& final(buffer).position == old(buffer).position + (named_record_bytes(code, domain@, target@, ttl)).len()
        },
        old(buffer).position + (named_record_bytes(code, domain@, target@, ttl)).len() > FRAME_SIZE ==> r == Err::<(), DnsError>(
            DnsError::BufferOverflow,
        ),
{
    let ghost bb = buffer.buffer@;
    let ghost p0 = buffer.position as int;
    let ghost rb = named_record_bytes(code, domain@, target@, ttl);
    buffer.write_qname(domain)?;
    buffer.write_u16(code)?;
    buffer.write_u16(1)?;
    buffer.write_u32(ttl)?;
    let start = buffer.position();
    buffer.write_u16(0)?;
    buffer.write_qname(target)?;
    let len = buffer.position() - (start + 2);
    buffer.set_u16(start, len as u16)?;
    proof {
        if p0 + rb.len() <= FRAME_SIZE {
            assert(buffer.buffer@ =~= bb.subrange(0, p0) + rb + bb.subrange(
                p0 + rb.len(),
                FRAME_SIZE as int,
            ));
        }
        if p0 <= FRAME_SIZE {
            assert(buffer.buffer@.subrange(0, p0) =~= bb.subrange(0, p0));
        }
    }
    Ok(())
}

/// Write a mail-exchange record, back-patching RDLENGTH.
#[verifier::rlimit(100)]
fn write_mx(buffer: &mut ByteBuffer, domain: &str, preference: u16, exchange: &str, ttl: u32) -> (r:
    Result<(), DnsError>)
    requires
        old(buffer).wf(),
    ensures
        final(buffer).wf(),
        final(buffer).position >= old(buffer).position,
        old(buffer).position <= FRAME_SIZE ==> final(buffer).buffer@.subrange(
            0,
            old(buffer).position as int,
        ) == old(buffer).buffer@.subrange(0, old(buffer).position as int),
        old(buffer).position + (mx_record_bytes(domain@, preference, exchange@, ttl)).len() <= FRAME_SIZE ==> {
            &&& r is Ok
            &&& final(buffer).buffer@ == old(buffer).buffer@.subrange(
                0,
                old(buffer).position as int,
            ) + (mx_record_bytes(domain@, preference, exchange@, ttl)) + old(buffer).buffer@.subrange(
                old(buffer).position + (mx_record_bytes(domain@, preference, exchange@, ttl)).len(),
                FRAME_SIZE as int,
            )
            &&& final(buffer).position == old(buffer).position + (mx_record_bytes(domain@, preference, exchange@, ttl)).len()
        },
        old(buffer).position + (mx_record_bytes(domain@, preference, exchange@, ttl)).len() > FRAME_SIZE ==> r == Err::<(), DnsError>(
            DnsError::BufferOverflow,
        ),
{
    let ghost bb = buffer.buffer@;
    let ghost p0 = buffer.position as int;
    let ghost rb = mx_record_bytes(domain@, preference, exchange@, ttl);
    buffer.write_qname(domain)?;
    buffer.write_u16(15)?;
    buffer.write_u16(1)?;
    buffer.write_u32(ttl)?;
    let start = buffer.position();
    buffer.write_u16(0)?;
    buffer.write_u16(preference)?;
    buffer.write_qname(exchange)?;
    let len = buffer.position() - (start + 2);
    buffer.set_u16(start, len as u16)?;
    proof {
        if p0 + rb.len() <= FRAME_SIZE {
            assert(buffer.buffer@ =~= bb.subrange(0, p0) + rb + bb.subrange(
                p0 + rb.len(),
                FRAME_SIZE as int,
            ));
        }
        if p0 <= FRAME_SIZE {
            assert(buffer.buffer@.subrange(0, p0) =~= bb.subrange(0, p0));
        }
    }
    Ok(())
}

/// Write an AAAA record: RDLENGTH 16 then the 16 octets.
#[verifier::rlimit(100)]
fn write_aaaa(buffer: &mut ByteBuffer, domain: &str, addr: &Vec<u8>, ttl: u32) -> (r: Result<
    (),
    DnsError,
>)
    requires
        old(buffer).wf(),
        addr@.len() == 16,
    ensures
        final(buffer).wf(),
        final(buffer).position >= old(buffer).position,
        old(buffer).position <= FRAME_SIZE ==> final(buffer).buffer@.subrange(
            0,
            old(buffer).position as int,
        ) == old(buffer).buffer@.subrange(0, old(buffer).position as int),
        old(buffer).position + (aaaa_record_bytes(domain@, addr@, ttl)).len() <= FRAME_SIZE ==> {
            &&& r is Ok
            &&& final(buffer).buffer@ == old(buffer).buffer@.subrange(
                0,
                old(buffer).position as int,
            ) + (aaaa_record_bytes(domain@, addr@, ttl)) + old(buffer).buffer@.subrange(
                old(buffer).position + (aaaa_record_bytes(domain@, addr@, ttl)).len(),
                FRAME_SIZE as int,
            )
            &&& final(buffer).position == old(buffer).position + (aaaa_record_bytes(domain@, addr@, ttl)).len()
        },
        old(buffer).position + (aaaa_record_bytes(domain@, addr@, ttl)).len() > FRAME_SIZE ==> r == Err::<(), DnsError>(
            DnsError::BufferOverflow,
        ),
{
    let ghost bb = buffer.buffer@;
    let ghost p0 = buffer.position as int;
    let ghost rb = aaaa_record_bytes(domain@, addr@, ttl);
    buffer.write_qname(domain)?;
    buffer.write_u16(28)?;
    buffer.write_u16(1)?;
    buffer.write_u32(ttl)?;
    buffer.write_u16(16)?;
    if buffer.position() > FRAME_SIZE - 16 {
        return Err(DnsError::BufferOverflow);
    }
    let ghost pdata = buffer.position as int;
    let ghost bdata = buffer.buffer@;
    let mut i: usize = 0;
    while i < addr.len()
        invariant
            buffer.wf(),
            bdata.len() == FRAME_SIZE,
            i <= addr@.len(),
            addr@.len() == 16,
            0 <= pdata,
            pdata + 16 <= FRAME_SIZE,
            buffer.position == pdata + i,
            buffer.buffer@ =~= bdata.subrange(0, pdata) + addr@.subrange(0, i as int)
                + bdata.subrange(pdata + i, FRAME_SIZE as int),
        decreases addr@.len() - i,
    {
        let b = addr[i];
        match buffer.write_u8(b) {
            Ok(_) => {},
            Err(e) => {
                proof {
                    assert(false);
                }
                return Err(e);
            },
        }
        proof {
            assert(addr@.subrange(0, i + 1) =~= addr@.subrange(0, i as int).push(addr@[i as int]));
        }
        i = i + 1;
    }
    proof {
        assert(addr@.subrange(0, addr@.len() as int) =~= addr@);
        if p0 + rb.len() <= FRAME_SIZE {
            assert(buffer.buffer@ =~= bb.subrange(0, p0) + rb + bb.subrange(
                p0 + rb.len(),
                FRAME_SIZE as int,
            ));
        }
        if p0 <= FRAME_SIZE {
            assert(buffer.buffer@.subrange(0, p0) =~= bb.subrange(0, p0));
        }
    }
    Ok(())
}

} // verus!
