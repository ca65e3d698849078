//! The decision logic of the recursive resolver and the query handler:
//! cache fingerprints, the outbound query frame, the referral decision
//! taken on each upstream response, and response assembly.

use vstd::prelude::*;

use crate::byte_buffer::{ByteBuffer, DnsError, FRAME_SIZE};
use crate::header::DnsHeader;
use crate::packet::{
    first_glue, ns_matches, packet_bytes, qviews, rviews, DnsPacket, PacketV,
};
use crate::qname::ascii_string;
use crate::query_type::{qtype_num, QueryType};
use crate::question::DnsQuestion;
use crate::record::record_ttl;
use crate::result_code::ResultCode;

verus! {

/// The fixed id the resolver stamps on its outbound queries.
pub const QUERY_ID: u16 = 6666;

/// The cache time to live used when a response carries no answer.
pub const DEFAULT_TTL: u32 = 60;

// ------------------------------------------------------------------
// Decimal rendering and parsing
// ------------------------------------------------------------------

/// The character of one decimal digit.
pub open spec fn digit_char(d: nat) -> char {
    ((48 + d) as u8) as char
}

/// The decimal rendering of a number, most significant digit first.
pub open spec fn dec_str(n: nat) -> Seq<char>
    decreases n,
{
    if n < 10 {
        seq![digit_char(n)]
    } else {
        dec_str(n / 10).push(digit_char(n % 10))
    }
}

/// The characters of collected digit bytes, last byte first.
pub open spec fn rev_chars(ds: Seq<u8>) -> Seq<char>
    decreases ds.len(),
{
    if ds.len() == 0 {
        Seq::empty()
    } else {
        seq![ds.last() as char] + rev_chars(ds.drop_last())
    }
}

/// The decimal rendering of a `u16`.
fn u16_dec_string(v: u16) -> (r: String)
    ensures
        r@ == dec_str(v as nat),
{
    let mut digits: Vec<u8> = Vec::new();
    let mut x = v;
    loop
        invariant_except_break
            (digits@.len() == 0 && x == v) || (x > 0 && dec_str(v as nat) == dec_str(x as nat)
                + rev_chars(digits@)),
            forall|j: int| 0 <= j < digits@.len() ==> 48 <= #[trigger] digits@[j] <= 57,
        ensures
            dec_str(v as nat) == rev_chars(digits@),
            forall|j: int| 0 <= j < digits@.len() ==> 48 <= #[trigger] digits@[j] <= 57,
        decreases x,
    {
        let ghost dpre = digits@;
        let d = (x % 10) as u8 + 48;
        digits.push(d);
        proof {
            assert(digits@.drop_last() =~= dpre);
            assert(rev_chars(digits@) == seq![d as char] + rev_chars(dpre));
            assert(d as char == digit_char((x as nat) % 10));
        }
        let ghost xpre = x;
        x = x / 10;
        if x == 0 {
            proof {
                if dpre.len() == 0 {
                    assert(dec_str(v as nat) =~= rev_chars(digits@));
                } else {
                    assert(dec_str(xpre as nat) =~= seq![digit_char(xpre as nat)]);
                    assert(dec_str(v as nat) =~= rev_chars(digits@));
                }
            }
            break ;
        }
        proof {
            assert(dec_str(xpre as nat) == dec_str((xpre as nat) / 10).push(
                digit_char((xpre as nat) % 10),
            ));
            assert(dec_str((xpre as nat) / 10).push(digit_char((xpre as nat) % 10)) =~= dec_str(
                (xpre as nat) / 10,
            ) + seq![digit_char((xpre as nat) % 10)]);
            if dpre.len() == 0 {
                assert(dec_str(v as nat) =~= dec_str(x as nat) + rev_chars(digits@));
            } else {
                assert(dec_str(x as nat) + (seq![digit_char((xpre as nat) % 10)] + rev_chars(
                    dpre,
                )) =~= dec_str(x as nat) + rev_chars(digits@));
            }
        }
    }
    let mut out_bytes: Vec<u8> = Vec::new();
    let n = digits.len();
    let mut k: usize = 0;
    proof {
        assert(out_bytes@.map_values(|b: u8| b as char) =~= Seq::<char>::empty());
    }
    while k < n
        invariant
            n == digits@.len(),
            n >= 1,
            k <= n,
            forall|j: int| 0 <= j < digits@.len() ==> 48 <= #[trigger] digits@[j] <= 57,
            dec_str(v as nat) == rev_chars(digits@),
            out_bytes@.len() == k,
            forall|j: int| 0 <= j < k ==> #[trigger] out_bytes@[j] == digits@[n - 1 - j],
        decreases n - k,
    {
        let b = digits[n - 1 - k];
        out_bytes.push(b);
        k = k + 1;
    }
    proof {
        lemma_rev_chars_index(digits@);
        assert(out_bytes@.map_values(|b: u8| b as char) =~= rev_chars(digits@));
    }
    ascii_string(&out_bytes)
}

/// `rev_chars` reverses: element `k` is the byte `len - 1 - k`.
proof fn lemma_rev_chars_index(ds: Seq<u8>)
    ensures
        rev_chars(ds).len() == ds.len(),
        forall|k: int| 0 <= k < ds.len() ==> #[trigger] rev_chars(ds)[k] == ds[ds.len() - 1
            - k] as char,
    decreases ds.len(),
{
    if ds.len() > 0 {
        lemma_rev_chars_index(ds.drop_last());
        assert forall|k: int| 0 <= k < ds.len() implies #[trigger] rev_chars(ds)[k] == ds[ds.len()
            - 1 - k] as char by {
            if k == 0 {
            } else {
                assert(rev_chars(ds)[k] == rev_chars(ds.drop_last())[k - 1]);
                assert(ds.drop_last()[ds.len() - 1 - k] == ds[ds.len() - 1 - k]);
            }
        }
    }
}

/// Whether a character sequence is one or more decimal digits.
pub open spec fn is_digits(s: Seq<char>) -> bool {
    s.len() >= 1 && forall|i: int| 0 <= i < s.len() ==> 48 <= (#[trigger] s[i]) as int <= 57
}

/// The value of a run of decimal digits.
pub open spec fn digits_value(s: Seq<char>) -> nat
    decreases s.len(),
{
    if s.len() == 0 {
        0
    } else {
        digits_value(s.drop_last()) * 10 + ((s.last() as int - 48) as nat)
    }
}

/// A digit prefix never values more than the whole run.
proof fn lemma_digits_value_prefix(s: Seq<char>, i: int)
    requires
        0 <= i <= s.len(),
        forall|j: int| 0 <= j < s.len() ==> 48 <= (#[trigger] s[j]) as int <= 57,
    ensures
        digits_value(s.take(i)) <= digits_value(s),
    decreases s.len() - i,
{
    if i < s.len() {
        assert(s.take(i + 1).drop_last() =~= s.take(i));
        assert(digits_value(s.take(i + 1)) == digits_value(s.take(i)) * 10 + ((s[i] as int
            - 48) as nat));
        assert(digits_value(s.take(i)) * 10 >= digits_value(s.take(i))) by (nonlinear_arith);
        lemma_digits_value_prefix(s, i + 1);
        assert(s.take(s.len() as int) =~= s);
    } else {
        assert(s.take(i) =~= s);
    }
}

// ------------------------------------------------------------------
// Cache fingerprints
// ------------------------------------------------------------------

/// The cache key of a question: the name, a dash, and the numeric type.
pub open spec fn fingerprint_of(name: Seq<char>, qtype: QueryType) -> Seq<char> {
    name + seq!['-'] + dec_str(qtype_num(qtype) as nat)
}

/// Build the cache key of a question.
pub fn fingerprint(name: &str, qtype: QueryType) -> (r: String)
    ensures
        r@ == fingerprint_of(name@, qtype),
{
    let mut out = name.to_owned();
    out.append("-");
    let num = u16_dec_string(qtype.to_num());
    out.append(num.as_str());
    proof {
        reveal_strlit("-");
        assert("-"@ =~= seq!['-']);
        assert(out@ =~= fingerprint_of(name@, qtype));
    }
    out
}

/// The name part of a fingerprint: everything before the first dash, or
/// the whole key when it has none.
pub open spec fn before_first_dash(s: Seq<char>) -> Seq<char>
    decreases s.len(),
{
    if s.len() == 0 {
        s
    } else if s[0] == '-' {
        Seq::empty()
    } else {
        seq![s[0]] + before_first_dash(s.drop_first())
    }
}

/// The type part of a fingerprint: everything after the last dash, or the
/// whole key when it has none.
pub open spec fn after_last_dash(s: Seq<char>) -> Seq<char>
    decreases s.len(),
{
    if s.len() == 0 {
        s
    } else if s.last() == '-' {
        Seq::empty()
    } else {
        after_last_dash(s.drop_last()).push(s.last())
    }
}

/// What parsing a fingerprint yields: the name before the first dash and
/// the digits after the last dash as a 16-bit type code, or nothing when
/// the digits are missing, malformed or too large.
pub open spec fn parse_fingerprint_of(s: Seq<char>) -> Option<(Seq<char>, u16)> {
    let num = after_last_dash(s);
    if is_digits(num) && digits_value(num) <= 0xffff {
        Some((before_first_dash(s), digits_value(num) as u16))
    } else {
        None
    }
}

/// The index of the first dash, or the length when there is none.
fn find_first_dash(key: &str) -> (r: usize)
    ensures
        r <= key@.len(),
        before_first_dash(key@) == key@.subrange(0, r as int),
        forall|j: int| 0 <= j < r ==> key@[j] != '-',
        r < key@.len() ==> key@[r as int] == '-',
{
    let n = key.unicode_len();
    let mut i: usize = 0;
    proof {
        assert(key@.skip(0) =~= key@);
        assert(Seq::<char>::empty() + before_first_dash(key@) =~= before_first_dash(key@));
        assert(key@.subrange(0, 0) =~= Seq::<char>::empty());
    }
    while i < n
        invariant
            n == key@.len(),
            i <= n,
            forall|j: int| 0 <= j < i ==> key@[j] != '-',
            before_first_dash(key@) == key@.subrange(0, i as int) + before_first_dash(
                key@.skip(i as int),
            ),
        decreases n - i,
    {
        let c = key.get_char(i);
        proof {
            assert(key@.skip(i as int)[0] == key@[i as int]);
            assert(key@.skip(i as int).drop_first() =~= key@.skip(i + 1));
        }
        if c == '-' {
            proof {
                assert(before_first_dash(key@.skip(i as int)) =~= Seq::<char>::empty());
                assert(before_first_dash(key@) =~= key@.subrange(0, i as int));
            }
            return i;
        }
        proof {
            assert(key@.subrange(0, i as int) + (seq![key@[i as int]] + before_first_dash(
                key@.skip(i + 1),
            )) =~= key@.subrange(0, i + 1) + before_first_dash(key@.skip(i + 1)));
        }
        i = i + 1;
    }
    proof {
        assert(key@.skip(n as int) =~= Seq::<char>::empty());
        assert(key@.subrange(0, n as int) =~= key@);
        assert(before_first_dash(key@) =~= key@);
    }
    n
}

/// One past the index of the last dash, or zero when there is none.
fn find_after_last_dash(key: &str) -> (r: usize)
    ensures
        r <= key@.len(),
        after_last_dash(key@) == key@.subrange(r as int, key@.len() as int),
        forall|j: int| r <= j < key@.len() ==> key@[j] != '-',
        r > 0 ==> key@[r - 1] == '-',
{
    let n = key.unicode_len();
    let mut i: usize = n;
    proof {
        assert(key@.take(n as int) =~= key@);
        assert(key@.subrange(n as int, n as int) =~= Seq::<char>::empty());
    }
    while i > 0
        invariant
            n == key@.len(),
            i <= n,
            forall|j: int| i <= j < n ==> key@[j] != '-',
            after_last_dash(key@) == after_last_dash(key@.take(i as int)) + key@.subrange(
                i as int,
                n as int,
            ),
        decreases i,
    {
        let c = key.get_char(i - 1);
        proof {
            assert(key@.take(i as int).last() == key@[i - 1]);
            assert(key@.take(i as int).drop_last() =~= key@.take(i - 1));
        }
        if c == '-' {
            proof {
                assert(after_last_dash(key@.take(i as int)) =~= Seq::<char>::empty());
                assert(after_last_dash(key@) =~= key@.subrange(i as int, n as int));
            }
            return i;
        }
        proof {
            assert(after_last_dash(key@.take(i as int)) == after_last_dash(key@.take(i - 1)).push(
                key@[i - 1],
            ));
            assert(after_last_dash(key@.take(i - 1)).push(key@[i - 1]) + key@.subrange(
                i as int,
                n as int,
            ) =~= after_last_dash(key@.take(i - 1)) + key@.subrange(i - 1, n as int));
        }
        i = i - 1;
    }
    proof {
        assert(key@.take(0) =~= Seq::<char>::empty());
        assert(after_last_dash(Seq::<char>::empty()) + key@.subrange(0, n as int) =~= key@.subrange(
            0,
            n as int,
        ));
    }
    0
}

/// Split a fingerprint back into its name and numeric type.
pub fn parse_fingerprint(key: &str) -> (r: Option<(String, u16)>)
    ensures
        match parse_fingerprint_of(key@) {
            Some((name, qt)) => r matches Some(p) && p.0@ == name && p.1 == qt,
            None => r is None,
        },
{
    let n = key.unicode_len();
    let dash = find_first_dash(key);
    let name = key.substring_char(0, dash).to_owned();
    let start = find_after_last_dash(key);
    let ghost num = after_last_dash(key@);
    if start >= n {
        proof {
            assert(num.len() == 0);
        }
        return None;
    }
    let mut value: u32 = 0;
    let mut i: usize = start;
    proof {
        assert(num =~= key@.subrange(start as int, n as int));
        assert(num.take(0) =~= Seq::<char>::empty());
    }
    while i < n
        invariant
            n == key@.len(),
            start <= i <= n,
            num == after_last_dash(key@),
            num == key@.subrange(start as int, n as int),
            forall|j: int| 0 <= j < i - start ==> 48 <= (#[trigger] num[j]) as int <= 57,
            value == digits_value(num.take(i - start)),
            value <= 0xffff,
        decreases n - i,
    {
        let c = key.get_char(i);
        let cu = c as u32;
        proof {
            assert(num[i - start] == key@[i as int]);
        }
        if cu < 48 || cu > 57 {
            return None;
        }
        proof {
            assert(num.take(i - start + 1).drop_last() =~= num.take(i - start));
            assert(num.take(i - start + 1).last() == num[i - start]);
        }
        value = value * 10 + (cu - 48);
        if value > 0xffff {
            proof {
                let t = i - start + 1;
                assert(digits_value(num.take(t)) > 0xffff);
                if is_digits(num) {
                    lemma_digits_value_prefix(num, t);
                }
            }
            return None;
        }
        i = i + 1;
    }
    proof {
        assert(num.take(n - start) =~= num);
        assert(is_digits(num));
    }
    Some((name, value as u16))
}

// ------------------------------------------------------------------
// The outbound query
// ------------------------------------------------------------------

/// The query packet the resolver sends: the fixed id, recursion desired,
/// and a single question.
pub open spec fn query_packet_of(qname: Seq<char>, qtype: QueryType) -> PacketV {
    PacketV {
        header: DnsHeader {
            id: QUERY_ID,
            recursion_desired: true,
            questions: 1,
            ..DnsHeader::spec_new()
        },
        questions: seq![(qname, qtype)],
        answers: Seq::empty(),
        authorities: Seq::empty(),
        resources: Seq::empty(),
    }
}

/// The exact datagram of one upstream query, or an overflow error when
/// the name is too long for the frame.
pub fn build_query(qname: &str, qtype: QueryType) -> (r: Result<Vec<u8>, DnsError>)
    ensures
        packet_bytes(query_packet_of(qname@, qtype)).len() <= FRAME_SIZE ==> {
            &&& r is Ok
            &&& r->Ok_0@ == packet_bytes(query_packet_of(qname@, qtype))
        },
        packet_bytes(query_packet_of(qname@, qtype)).len() > FRAME_SIZE ==> r == Err::<
            Vec<u8>,
            DnsError,
        >(DnsError::BufferOverflow),
{
    let mut packet = DnsPacket::new();
    packet.header.id = QUERY_ID;
    packet.header.questions = 1;
    packet.header.recursion_desired = true;
    packet.questions.push(DnsQuestion::new(qname.to_owned(), qtype));

    proof {
        assert(qviews(packet.questions@) =~~= seq![(qname@, qtype)]);
        assert(rviews(packet.answers@) =~= Seq::<crate::record::RecordV>::empty());
        assert(rviews(packet.authorities@) =~= Seq::<crate::record::RecordV>::empty());
        assert(rviews(packet.resources@) =~= Seq::<crate::record::RecordV>::empty());
        assert(packet@ == query_packet_of(qname@, qtype));
    }
    let mut buffer = ByteBuffer::new();
    packet.write(&mut buffer)?;
    let position = buffer.position();
    let mut bytes = buffer.buffer;
    bytes.truncate(position);
    proof {
        assert(bytes@ =~= packet_bytes(query_packet_of(qname@, qtype)));
    }
    Ok(bytes)
}

// ------------------------------------------------------------------
// The referral decision
// ------------------------------------------------------------------

/// What the resolver does with one upstream response.
pub enum ResolveStep {
    /// Return the response to the caller as it stands.
    Finish,
    /// Ask the server at this address next.
    NextServer(u32),
    /// Resolve this name server's name, then ask it.
    ResolveNs(String),
}

/// Whether a response settles the query: an answered `NOERROR` or an
/// unanswered `NXDOMAIN`.
pub open spec fn is_settled(p: PacketV) -> bool {
    (p.answers.len() > 0 && p.header.rescode == ResultCode::NOERROR) || (p.answers.len() == 0
        && p.header.rescode == ResultCode::NXDOMAIN)
}

/// Decide the next move from one upstream response: finish on a settled
/// answer, follow a glued referral, resolve an unglued name server, and
/// give up (finishing with the response) when nothing points on.
pub fn resolve_step(res: &DnsPacket, qname: &str) -> (r: ResolveStep)
    ensures
        is_settled(res@) ==> r is Finish,
        !is_settled(res@) ==> match first_glue(
            ns_matches(rviews(res.authorities@), qname@),
            rviews(res.resources@),
        ) {
            Some(addr) => r == ResolveStep::NextServer(addr),
            None => {
                let pairs = ns_matches(rviews(res.authorities@), qname@);
                if pairs.len() > 0 {
                    r matches ResolveStep::ResolveNs(ns) && ns@ == pairs[0].1
                } else {
                    r is Finish
                }
            },
        },
{
    let answered = res.answers.len() > 0;
    if answered && matches!(res.header.rescode, ResultCode::NOERROR) {
        return ResolveStep::Finish;
    }
    if !answered && matches!(res.header.rescode, ResultCode::NXDOMAIN) {
        return ResolveStep::Finish;
    }
    match res.get_resolved_ns(qname) {
        Some(addr) => ResolveStep::NextServer(addr),
        None => match res.get_unresolved_ns(qname) {
            Some(ns) => ResolveStep::ResolveNs(ns),
            None => ResolveStep::Finish,
        },
    }
}

// ------------------------------------------------------------------
// Response assembly
// ------------------------------------------------------------------

/// The cache time to live of a response: its first answer's TTL, or the
/// default when it has no answer.
pub fn cache_ttl(p: &DnsPacket) -> (r: u32)
    ensures
        p.answers@.len() > 0 ==> r == record_ttl(p.answers@[0]@),
        p.answers@.len() == 0 ==> r == DEFAULT_TTL,
{
    if p.answers.len() > 0 {
        self_ttl(&p.answers[0])
    } else {
        DEFAULT_TTL
    }
}

/// The record's time to live.
fn self_ttl(r: &crate::record::DnsRecord) -> (t: u32)
    ensures
        t == record_ttl(r@),
{
    r.ttl()
}

/// Build the reply to one request per the handler's rules: the caller's
/// id with recursion flags and the response bit set; `FORMERR` when the
/// request carried no question; `SERVFAIL` when resolution failed; else
/// the resolved outcome's code and sections, with the question echoed and
/// every section count set to the section's length.
pub fn build_response(id: u16, question: Option<DnsQuestion>, lookup: Option<DnsPacket>) -> (r:
    DnsPacket)
    requires
        match lookup {
            Some(p) => p.wf() && p.answers@.len() <= 0xffff && p.authorities@.len() <= 0xffff
                && p.resources@.len() <= 0xffff,
            None => true,
        },
    ensures
        r.wf(),
        r.header.id == id,
        r.header.recursion_desired,
        r.header.recursion_available,
        r.header.response,
        question is None ==> r.header.rescode == ResultCode::FORMERR && r.questions@.len() == 0
            && r.answers@.len() == 0 && r.authorities@.len() == 0 && r.resources@.len() == 0
            && r.header.questions == 0 && r.header.answers == 0
            && r.header.authoritative_entries == 0 && r.header.resource_entries == 0,
        question is Some && lookup is None ==> r.header.rescode == ResultCode::SERVFAIL
            && r.questions@.len() == 0 && r.answers@.len() == 0 && r.authorities@.len() == 0
            && r.resources@.len() == 0 && r.header.questions == 0 && r.header.answers == 0
            && r.header.authoritative_entries == 0 && r.header.resource_entries == 0,
        question matches Some(q) ==> lookup matches Some(p) ==> {
            &&& r.header.rescode == p.header.rescode
            &&& r.questions@ == seq![q]
            &&& r.answers@ == p.answers@
            &&& r.authorities@ == p.authorities@
            &&& r.resources@ == p.resources@
            &&& r.header.questions == 1
            &&& r.header.answers == p.answers@.len()
            &&& r.header.authoritative_entries == p.authorities@.len()
            &&& r.header.resource_entries == p.resources@.len()
        },
{
    let mut response = DnsPacket::new();
    response.header.id = id;
    response.header.recursion_desired = true;
    response.header.recursion_available = true;
    response.header.response = true;

    match question {
        None => {
            response.header.rescode = ResultCode::FORMERR;
        },
        Some(q) => match lookup {
            None => {
                response.header.rescode = ResultCode::SERVFAIL;
            },
            Some(p) => {
                response.header.rescode = p.header.rescode;
                response.questions.push(q);
                response.answers = p.answers;
                response.authorities = p.authorities;
                response.resources = p.resources;
                response.header.questions = 1;
                response.header.answers = response.answers.len() as u16;
                response.header.authoritative_entries = response.authorities.len() as u16;
                response.header.resource_entries = response.resources.len() as u16;
                proof {
                    assert(response.questions@ =~= seq![q]);
                }
            },
        },
    }
    response
}

} // verus!
