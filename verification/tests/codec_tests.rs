use dns_resolver::byte_buffer::{ByteBuffer, DnsError};
use dns_resolver::header::DnsHeader;
use dns_resolver::packet::DnsPacket;
use dns_resolver::query_type::QueryType;
use dns_resolver::question::DnsQuestion;
use dns_resolver::record::DnsRecord;

#[test]
fn test_read_write_header() {
    let mut header = DnsHeader::new();
    header.id = 6666;
    header.recursion_desired = true;
    header.questions = 1;

    let mut buffer = ByteBuffer::new();
    header.write(&mut buffer).unwrap();

    let mut read_header = DnsHeader::new();
    buffer.seek(0).unwrap();
    read_header.read(&mut buffer).unwrap();

    assert_eq!(header.id, read_header.id);
    assert_eq!(header.recursion_desired, read_header.recursion_desired);
    assert_eq!(header.questions, read_header.questions);
}

#[test]
fn test_header_round_trips_exactly() {
    let mut header = DnsHeader::new();
    header.id = 6666;
    header.recursion_desired = true;
    header.questions = 1;

    let mut buffer = ByteBuffer::new();
    header.write(&mut buffer).unwrap();

    let mut read_header = DnsHeader::new();
    buffer.seek(0).unwrap();
    read_header.read(&mut buffer).unwrap();
    assert_eq!(read_header, header);
}

#[test]
fn test_new_dns_question() {
    let name = "example.com".to_string();
    let qtype = QueryType::A;
    let question = DnsQuestion::new(name.clone(), qtype);

    assert_eq!(question.name, name);
    assert_eq!(question.qtype, qtype);
}

#[test]
fn test_read_dns_question() {
    let mut buffer = ByteBuffer::new();
    buffer.write_qname("example.com").unwrap();
    buffer.write_u16(QueryType::A.to_num()).unwrap();
    buffer.write_u16(1).unwrap();
    buffer.seek(0).unwrap();

    let mut question = DnsQuestion::new(String::new(), QueryType::UNKNOWN(0));
    question.read(&mut buffer).unwrap();

    assert_eq!(question.name, "example.com");
    assert_eq!(question.qtype, QueryType::A);
}

#[test]
fn test_write_dns_question() {
    let question = DnsQuestion::new("example.com".to_string(), QueryType::A);
    let mut buffer = ByteBuffer::new();
    question.write(&mut buffer).unwrap();

    buffer.seek(0).unwrap();
    let mut name = String::new();
    buffer.read_qname(&mut name).unwrap();
    assert_eq!(name, "example.com");
    assert_eq!(buffer.read_u16().unwrap(), QueryType::A.to_num());
    assert_eq!(buffer.read_u16().unwrap(), 1);
}

#[test]
fn test_read_a_record() {
    let mut buffer = ByteBuffer::new();
    let addr: u32 = 0x7f000001; // 127.0.0.1
    buffer.write_qname("example.com").unwrap();
    buffer.write_u16(1).unwrap();
    buffer.write_u16(1).unwrap();
    buffer.write_u32(3600).unwrap();
    buffer.write_u16(4).unwrap();
    buffer.write_u32(addr).unwrap();
    buffer.seek(0).unwrap();

    let record = DnsRecord::read(&mut buffer).unwrap();
    assert_eq!(
        record,
        DnsRecord::A {
            domain: "example.com".to_string(),
            addr,
            ttl: 3600
        }
    );
}

#[test]
fn test_read_ns_record() {
    let mut buffer = ByteBuffer::new();
    buffer.write_qname("example.com").unwrap();
    buffer.write_u16(2).unwrap();
    buffer.write_u16(1).unwrap();
    buffer.write_u32(3600).unwrap();
    buffer.write_u16(13).unwrap();
    buffer.write_qname("ns1.example.com").unwrap();
    buffer.seek(0).unwrap();

    let record = DnsRecord::read(&mut buffer).unwrap();
    assert_eq!(
        record,
        DnsRecord::NS {
            domain: "example.com".to_string(),
            ns: "ns1.example.com".to_string(),
            ttl: 3600
        }
    );
}

#[test]
fn test_read_cname_record() {
    let mut buffer = ByteBuffer::new();
    buffer.write_qname("example.com").unwrap();
    buffer.write_u16(5).unwrap();
    buffer.write_u16(1).unwrap();
    buffer.write_u32(3600).unwrap();
    buffer.write_u16(13).unwrap();
    buffer.write_qname("cname.example.com").unwrap();
    buffer.seek(0).unwrap();

    let record = DnsRecord::read(&mut buffer).unwrap();
    assert_eq!(
        record,
        DnsRecord::CNAME {
            domain: "example.com".to_string(),
            cname: "cname.example.com".to_string(),
            ttl: 3600
        }
    );
}

#[test]
fn test_read_mx_record() {
    let mut buffer = ByteBuffer::new();
    buffer.write_qname("example.com").unwrap();
    buffer.write_u16(15).unwrap();
    buffer.write_u16(1).unwrap();
    buffer.write_u32(3600).unwrap();
    buffer.write_u16(15).unwrap();
    buffer.write_u16(10).unwrap();
    buffer.write_qname("mx.example.com").unwrap();
    buffer.seek(0).unwrap();

    let record = DnsRecord::read(&mut buffer).unwrap();
    assert_eq!(
        record,
        DnsRecord::MX {
            domain: "example.com".to_string(),
            preference: 10,
            exchange: "mx.example.com".to_string(),
            ttl: 3600
        }
    );
}

#[test]
fn test_read_aaaa_record() {
    let mut buffer = ByteBuffer::new();
    let addr: Vec<u8> = vec![0x20, 0x01, 0x0d, 0xb8, 0, 0, 0, 0, 0, 0, 0, 0, 0, 0, 0, 0x01];
    buffer.write_qname("example.com").unwrap();
    buffer.write_u16(28).unwrap();
    buffer.write_u16(1).unwrap();
    buffer.write_u32(3600).unwrap();
    buffer.write_u16(16).unwrap();
    buffer.write_u8(0x20).unwrap();
    buffer.write_u8(0x01).unwrap();
    buffer.write_u8(0x0d).unwrap();
    buffer.write_u8(0xb8).unwrap();
    buffer.write_u8(0x00).unwrap();
    buffer.write_u8(0x00).unwrap();
    buffer.write_u8(0x00).unwrap();
    buffer.write_u8(0x00).unwrap();
    buffer.write_u8(0x00).unwrap();
    buffer.write_u8(0x00).unwrap();
    buffer.write_u8(0x00).unwrap();
    buffer.write_u8(0x00).unwrap();
    buffer.write_u8(0x00).unwrap();
    buffer.write_u8(0x00).unwrap();
    buffer.write_u8(0x00).unwrap();
    buffer.write_u8(0x01).unwrap();
    buffer.seek(0).unwrap();

    let record = DnsRecord::read(&mut buffer).unwrap();
    assert_eq!(
        record,
        DnsRecord::AAAA {
            domain: "example.com".to_string(),
            addr,
            ttl: 3600
        }
    );
}

#[test]
fn test_write_a_record() {
    let mut buffer = ByteBuffer::new();
    let record = DnsRecord::A {
        domain: "example.com".to_string(),
        addr: 0x7f000001,
        ttl: 3600,
    };
    record.write(&mut buffer).unwrap();
    buffer.seek(0).unwrap();

    let mut str = String::new();
    buffer.read_qname(&mut str).unwrap();
    assert_eq!(str, "example.com");
    assert_eq!(buffer.read_u16().unwrap(), 1);
    assert_eq!(buffer.read_u16().unwrap(), 1);
    assert_eq!(buffer.read_u32().unwrap(), 3600);
    assert_eq!(buffer.read_u16().unwrap(), 4);
    assert_eq!(buffer.read_u32().unwrap(), 0x7f000001);
}

#[test]
fn test_write_ns_record() {
    let record = DnsRecord::NS {
        domain: "example.com".to_string(),
        ns: "ns.example.com".to_string(),
        ttl: 3600,
    };
    let mut buffer = ByteBuffer::new();
    record.write(&mut buffer).unwrap();

    buffer.seek(0).unwrap();
    let mut domain = String::new();
    buffer.read_qname(&mut domain).unwrap();
    assert_eq!(domain, "example.com");
    assert_eq!(buffer.read_u16().unwrap(), 2); // QueryType::NS
    assert_eq!(buffer.read_u16().unwrap(), 1); // Class
    assert_eq!(buffer.read_u32().unwrap(), 3600); // TTL
    let data_len = buffer.read_u16().unwrap();
    assert!(data_len > 0); // Ensure data length is set correctly
    let mut ns = String::new();
    buffer.read_qname(&mut ns).unwrap();
    assert_eq!(ns, "ns.example.com");
}

#[test]
fn test_write_cname_record() {
    let record = DnsRecord::CNAME {
        domain: "example.com".to_string(),
        cname: "cname.example.com".to_string(),
        ttl: 3600,
    };
    let mut buffer = ByteBuffer::new();
    record.write(&mut buffer).unwrap();

    buffer.seek(0).unwrap();
    let mut domain = String::new();
    buffer.read_qname(&mut domain).unwrap();
    assert_eq!(domain, "example.com");
    assert_eq!(buffer.read_u16().unwrap(), 5); // QueryType::CNAME
    assert_eq!(buffer.read_u16().unwrap(), 1); // Class
    assert_eq!(buffer.read_u32().unwrap(), 3600); // TTL
    let data_len = buffer.read_u16().unwrap();
    assert!(data_len > 0); // Ensure data length is set correctly
    let mut cname = String::new();
    buffer.read_qname(&mut cname).unwrap();
    assert_eq!(cname, "cname.example.com");
}

#[test]
fn test_write_mx_record() {
    let record = DnsRecord::MX {
        domain: "example.com".to_string(),
        preference: 10,
        exchange: "mx.example.com".to_string(),
        ttl: 3600,
    };
    let mut buffer = ByteBuffer::new();
    record.write(&mut buffer).unwrap();

    buffer.seek(0).unwrap();
    let mut domain = String::new();
    buffer.read_qname(&mut domain).unwrap();
    assert_eq!(domain, "example.com");
    assert_eq!(buffer.read_u16().unwrap(), 15); // QueryType::MX
    assert_eq!(buffer.read_u16().unwrap(), 1); // Class
    assert_eq!(buffer.read_u32().unwrap(), 3600); // TTL
    let data_len = buffer.read_u16().unwrap();
    assert!(data_len > 0); // Ensure data length is set correctly
    assert_eq!(buffer.read_u16().unwrap(), 10); // Preference
    let mut exchange = String::new();
    buffer.read_qname(&mut exchange).unwrap();
    assert_eq!(exchange, "mx.example.com");
}

#[test]
fn test_mx_rdlength_is_two_plus_name() {
    let record = DnsRecord::MX {
        domain: "example.com".to_string(),
        preference: 10,
        exchange: "mx.example.com".to_string(),
        ttl: 3600,
    };
    let mut buffer = ByteBuffer::new();
    record.write(&mut buffer).unwrap();

    buffer.seek(0).unwrap();
    let mut domain = String::new();
    buffer.read_qname(&mut domain).unwrap();
    let _ = buffer.read_u16().unwrap();
    let _ = buffer.read_u16().unwrap();
    let _ = buffer.read_u32().unwrap();
    let data_len = buffer.read_u16().unwrap();
    // "mx.example.com" encodes as 2+1 + 7+1 + 3+1 + 1 = 16 bytes
    assert_eq!(data_len, 2 + 16);
}

#[test]
fn test_write_aaaa_record() {
    let record = DnsRecord::AAAA {
        domain: "example.com".to_string(),
        addr: vec![0x20, 0x01, 0x0d, 0xb8, 0, 0, 0, 0, 0, 0, 0, 0, 0, 0, 0, 0x01],
        ttl: 3600,
    };
    let mut buffer = ByteBuffer::new();
    record.write(&mut buffer).unwrap();

    buffer.seek(0).unwrap();
    let mut domain = String::new();
    buffer.read_qname(&mut domain).unwrap();
    assert_eq!(domain, "example.com");
    assert_eq!(buffer.read_u16().unwrap(), 28); // QueryType::AAAA
    assert_eq!(buffer.read_u16().unwrap(), 1); // Class
    assert_eq!(buffer.read_u32().unwrap(), 3600); // TTL
    let data_len = buffer.read_u16().unwrap();
    assert_eq!(data_len, 16); // Ensure data length is set correctly
    let mut addr = [0u8; 16];
    for i in 0..16 {
        addr[i] = buffer.read().unwrap();
    }
    assert_eq!(addr, [0x20, 0x01, 0x0d, 0xb8, 0, 0, 0, 0, 0, 0, 0, 0, 0, 0, 0, 0x01]);
}

#[test]
fn test_a_record_round_trips() {
    let record = DnsRecord::A {
        domain: "example.com".to_string(),
        addr: 0x7f000001,
        ttl: 3600,
    };
    let mut buffer = ByteBuffer::new();
    record.write(&mut buffer).unwrap();
    buffer.seek(0).unwrap();
    let decoded = DnsRecord::read(&mut buffer).unwrap();
    assert_eq!(decoded, record);
}

#[test]
fn test_new_dns_packet() {
    let packet = DnsPacket::new();
    assert_eq!(packet.header, DnsHeader::new());
    assert!(packet.questions.is_empty());
    assert!(packet.answers.is_empty());
    assert!(packet.authorities.is_empty());
    assert!(packet.resources.is_empty());
}

#[test]
fn test_from_buffer() {
    let mut buffer = ByteBuffer::new();
    let header = DnsHeader::new();
    header.write(&mut buffer).unwrap();

    let question = DnsQuestion::new("example.com".to_string(), QueryType::A);
    question.write(&mut buffer).unwrap();

    let answer = DnsRecord::A {
        domain: "example.com".to_string(),
        addr: 0x7f000001, // 127.0.0.1
        ttl: 3600,
    };
    answer.write(&mut buffer).unwrap();

    buffer.seek(0).unwrap();

    let mut packet = DnsPacket::new();
    packet.header = header;
    packet.header.questions = 1;
    packet.header.answers = 1;
    packet.questions.push(question);
    packet.answers.push(answer);

    let deserialized_packet = DnsPacket::from_buffer(&mut buffer).unwrap();
    for (i, q) in deserialized_packet.questions.iter().enumerate() {
        assert_eq!(q, &packet.questions[i]);
    }
    for (i, a) in deserialized_packet.answers.iter().enumerate() {
        assert_eq!(a, &packet.answers[i]);
    }
}

#[test]
fn test_write_dns_packet() {
    let mut buffer = ByteBuffer::new();

    let mut packet = DnsPacket::new();
    packet.header.questions = 1;
    packet.header.answers = 1;

    let question = DnsQuestion::new("example.com".to_string(), QueryType::A);
    packet.questions.push(question.clone());

    let answer = DnsRecord::A {
        domain: "example.com".to_string(),
        addr: 0x7f000001, // 127.0.0.1
        ttl: 3600,
    };
    packet.answers.push(answer.clone());

    packet.write(&mut buffer).unwrap();

    buffer.seek(0).unwrap();

    let deserialized_packet = DnsPacket::from_buffer(&mut buffer).unwrap();
    assert_eq!(deserialized_packet.header.questions, packet.header.questions);
    assert_eq!(deserialized_packet.header.answers, packet.header.answers);
    assert_eq!(deserialized_packet.questions, packet.questions);
    assert_eq!(deserialized_packet.answers, packet.answers);
}

#[test]
fn test_resolved_ns_uses_glue() {
    let mut packet = DnsPacket::new();
    packet.authorities.push(DnsRecord::NS {
        domain: "example.com".to_string(),
        ns: "ns1.example.com".to_string(),
        ttl: 3600,
    });
    packet.resources.push(DnsRecord::A {
        domain: "ns1.example.com".to_string(),
        addr: 0x01020304, // 1.2.3.4
        ttl: 3600,
    });
    assert_eq!(packet.get_resolved_ns("sub.example.com"), Some(0x01020304));
    assert_eq!(
        packet.get_unresolved_ns("sub.example.com"),
        Some("ns1.example.com".to_string())
    );
    assert_eq!(packet.get_resolved_ns("other.org"), None);
}

#[test]
fn test_full_packet_round_trips_all_shapes() {
    let mut packet = DnsPacket::new();
    packet.header.id = 77;
    packet.header.questions = 1;
    packet.header.answers = 2;
    packet.header.authoritative_entries = 1;
    packet.header.resource_entries = 2;
    packet
        .questions
        .push(DnsQuestion::new("example.com".to_string(), QueryType::MX));
    packet.answers.push(DnsRecord::MX {
        domain: "example.com".to_string(),
        preference: 10,
        exchange: "mx.example.com".to_string(),
        ttl: 300,
    });
    packet.answers.push(DnsRecord::CNAME {
        domain: "www.example.com".to_string(),
        cname: "example.com".to_string(),
        ttl: 300,
    });
    packet.authorities.push(DnsRecord::NS {
        domain: "example.com".to_string(),
        ns: "ns1.example.com".to_string(),
        ttl: 600,
    });
    packet.resources.push(DnsRecord::A {
        domain: "ns1.example.com".to_string(),
        addr: 0x01020304,
        ttl: 600,
    });
    packet.resources.push(DnsRecord::AAAA {
        domain: "ns1.example.com".to_string(),
        addr: vec![0x20, 0x01, 0x0d, 0xb8, 0, 0, 0, 0, 0, 0, 0, 0, 0, 0, 0, 2],
        ttl: 600,
    });

    let mut buffer = ByteBuffer::new();
    packet.write(&mut buffer).unwrap();
    buffer.seek(0).unwrap();
    let decoded = DnsPacket::from_buffer(&mut buffer).unwrap();
    assert_eq!(decoded, packet);
}

#[test]
fn test_unknown_record_skips_its_rdata() {
    let mut buffer = ByteBuffer::new();
    // an unrecognized type (41) with 5 bytes of RDATA, then an A record
    buffer.write_qname("example.com").unwrap();
    buffer.write_u16(41).unwrap();
    buffer.write_u16(1).unwrap();
    buffer.write_u32(0).unwrap();
    buffer.write_u16(5).unwrap();
    for b in [9, 9, 9, 9, 9] {
        buffer.write_u8(b).unwrap();
    }
    let follower = DnsRecord::A {
        domain: "next.example.com".to_string(),
        addr: 0x7f000001,
        ttl: 60,
    };
    follower.write(&mut buffer).unwrap();
    buffer.seek(0).unwrap();

    let first = DnsRecord::read(&mut buffer).unwrap();
    assert_eq!(
        first,
        DnsRecord::UNKNOWN {
            domain: "example.com".to_string(),
            qtype: 41,
            data_len: 5,
            ttl: 0
        }
    );
    // the cursor has moved past the RDATA, so the next record parses cleanly
    let second = DnsRecord::read(&mut buffer).unwrap();
    assert_eq!(second, follower);
}

#[test]
fn test_unknown_record_rdata_past_frame_overflows() {
    let mut buffer = ByteBuffer::new();
    buffer.write_qname("example.com").unwrap();
    buffer.write_u16(41).unwrap();
    buffer.write_u16(1).unwrap();
    buffer.write_u32(0).unwrap();
    buffer.write_u16(1000).unwrap(); // RDATA longer than the frame
    buffer.seek(0).unwrap();
    assert_eq!(DnsRecord::read(&mut buffer), Err(DnsError::BufferOverflow));
}
