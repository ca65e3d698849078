use dns_resolver::byte_buffer::ByteBuffer;
use dns_resolver::packet::DnsPacket;
use dns_resolver::query_type::QueryType;
use dns_resolver::question::DnsQuestion;
use dns_resolver::record::DnsRecord;
use dns_resolver::resolver::{
    build_query, build_response, cache_ttl, fingerprint, parse_fingerprint, resolve_step,
    ResolveStep,
};
use dns_resolver::result_code::ResultCode;

#[test]
fn test_fingerprint_format() {
    assert_eq!(fingerprint("example.com", QueryType::A), "example.com-1");
    assert_eq!(fingerprint("example.com", QueryType::AAAA), "example.com-28");
    assert_eq!(fingerprint("mail.org", QueryType::MX), "mail.org-15");
    assert_eq!(fingerprint("x", QueryType::UNKNOWN(12345)), "x-12345");
}

#[test]
fn test_parse_fingerprint_round_trip() {
    let key = fingerprint("example.com", QueryType::A);
    let (name, qt) = parse_fingerprint(&key).unwrap();
    assert_eq!(name, "example.com");
    assert_eq!(qt, 1);
}

#[test]
fn test_parse_fingerprint_rejects_malformed() {
    assert!(parse_fingerprint("example.com-").is_none());
    assert!(parse_fingerprint("example.com-abc").is_none());
    assert!(parse_fingerprint("example.com-99999").is_none());
    assert_eq!(
        parse_fingerprint("a-b.com-28"),
        Some(("a".to_string(), 28))
    );
}

#[test]
fn test_build_query_frame() {
    let bytes = build_query("example.com", QueryType::A).unwrap();

    let mut expected = ByteBuffer::new();
    let mut packet = DnsPacket::new();
    packet.header.id = 6666;
    packet.header.questions = 1;
    packet.header.recursion_desired = true;
    packet
        .questions
        .push(DnsQuestion::new("example.com".to_string(), QueryType::A));
    packet.write(&mut expected).unwrap();

    assert_eq!(bytes.len(), expected.position);
    assert_eq!(&bytes[..], &expected.buffer[..expected.position]);
}

#[test]
fn test_resolve_step_finishes_on_answer() {
    let mut res = DnsPacket::new();
    res.answers.push(DnsRecord::A {
        domain: "example.com".to_string(),
        addr: 0x7f000001,
        ttl: 60,
    });
    res.header.rescode = ResultCode::NOERROR;
    assert!(matches!(
        resolve_step(&res, "example.com"),
        ResolveStep::Finish
    ));
}

#[test]
fn test_resolve_step_follows_glue() {
    let mut res = DnsPacket::new();
    res.header.rescode = ResultCode::NOERROR;
    res.authorities.push(DnsRecord::NS {
        domain: "example.com".to_string(),
        ns: "ns1.example.com".to_string(),
        ttl: 3600,
    });
    res.resources.push(DnsRecord::A {
        domain: "ns1.example.com".to_string(),
        addr: 0x01020304,
        ttl: 3600,
    });
    assert!(matches!(
        resolve_step(&res, "sub.example.com"),
        ResolveStep::NextServer(0x01020304)
    ));
}

#[test]
fn test_resolve_step_resolves_unglued_ns() {
    let mut res = DnsPacket::new();
    res.header.rescode = ResultCode::NOERROR;
    res.authorities.push(DnsRecord::NS {
        domain: "example.com".to_string(),
        ns: "ns1.example.com".to_string(),
        ttl: 3600,
    });
    match resolve_step(&res, "sub.example.com") {
        ResolveStep::ResolveNs(ns) => assert_eq!(ns, "ns1.example.com"),
        _ => panic!("expected a name-server resolution step"),
    }
}

#[test]
fn test_build_response_formerr_on_empty_question() {
    let response = build_response(4711, None, None);
    assert_eq!(response.header.id, 4711);
    assert_eq!(response.header.rescode, ResultCode::FORMERR);
    assert!(response.header.response);
    assert!(response.header.recursion_desired);
    assert!(response.header.recursion_available);
    assert!(response.questions.is_empty());
}

#[test]
fn test_build_response_servfail_on_lookup_failure() {
    let q = DnsQuestion::new("example.com".to_string(), QueryType::A);
    let response = build_response(7, Some(q), None);
    assert_eq!(response.header.rescode, ResultCode::SERVFAIL);
    assert_eq!(response.header.id, 7);
    assert!(response.answers.is_empty());
}

#[test]
fn test_build_response_copies_resolved_sections() {
    let q = DnsQuestion::new("example.com".to_string(), QueryType::A);
    let mut resolved = DnsPacket::new();
    resolved.header.rescode = ResultCode::NOERROR;
    resolved.answers.push(DnsRecord::A {
        domain: "example.com".to_string(),
        addr: 0x7f000001,
        ttl: 3600,
    });
    let response = build_response(7, Some(q.clone()), Some(resolved));
    assert_eq!(response.header.rescode, ResultCode::NOERROR);
    assert_eq!(response.questions, vec![q]);
    assert_eq!(response.header.questions, 1);
    assert_eq!(response.header.answers, 1);
    assert_eq!(response.answers.len(), 1);
}

#[test]
fn test_cache_ttl_first_answer_or_default() {
    let mut p = DnsPacket::new();
    assert_eq!(cache_ttl(&p), 60);
    p.answers.push(DnsRecord::A {
        domain: "example.com".to_string(),
        addr: 0x7f000001,
        ttl: 3600,
    });
    assert_eq!(cache_ttl(&p), 3600);
}
