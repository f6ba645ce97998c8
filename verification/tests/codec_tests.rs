use dns::buffer::{BytePacketBuffer, DnsError};
use dns::dnsheader::DNSHeader;
use dns::dnspacket::DNSPacket;
use dns::dnsquestion::DNSQuestion;
use dns::dnsrecord::{DNSRecord, Ipv4, Ipv6};
use dns::querytype::QueryType;
use dns::resultcode::ResultCode;

fn name(s: &str) -> Vec<u8> {
    s.as_bytes().to_vec()
}

#[test]
fn buffer_primitives_roundtrip() {
    let mut b = BytePacketBuffer::new();
    b.write_u8(0xAB).unwrap();
    b.write_u16(0x1234).unwrap();
    b.write_u32(0xDEADBEEF).unwrap();
    assert_eq!(b.pos, 7);
    b.seek(0).unwrap();
    assert_eq!(b.read_u8().unwrap(), 0xAB);
    assert_eq!(b.read_u16().unwrap(), 0x1234);
    assert_eq!(b.read_u32().unwrap(), 0xDEADBEEF);
}

#[test]
fn buffer_end_of_buffer() {
    let mut b = BytePacketBuffer::new();
    b.seek(510).unwrap();
    assert_eq!(b.read_u32(), Err(DnsError::EndOfBuffer));
    b.seek(511).unwrap();
    assert_eq!(b.read_u16(), Err(DnsError::EndOfBuffer));
    b.seek(512).unwrap();
    assert_eq!(b.read_u8(), Err(DnsError::EndOfBuffer));
    assert_eq!(b.seek(513), Err(DnsError::EndOfBuffer));
    assert_eq!(b.write_u16(7), Err(DnsError::EndOfBuffer));
    assert_eq!(b.get(512), Err(DnsError::EndOfBuffer));
    assert_eq!(b.get_range(500, 13), Err(DnsError::EndOfBuffer));
    assert_eq!(b.step(1), Err(DnsError::EndOfBuffer));
}

#[test]
fn qname_plain_roundtrip() {
    let mut b = BytePacketBuffer::new();
    b.write_qname(&name("www.example.com")).unwrap();
    assert_eq!(b.pos, 17);
    let bytes = b.get_range(0, 17).unwrap();
    assert_eq!(
        bytes,
        vec![
            3, b'w', b'w', b'w', 7, b'e', b'x', b'a', b'm', b'p', b'l', b'e', 3,
            b'c', b'o', b'm', 0
        ]
    );
    b.seek(0).unwrap();
    let back = b.read_qname().unwrap();
    assert_eq!(back, name("www.example.com"));
    assert_eq!(b.pos, 17);
}

#[test]
fn qname_root_roundtrip() {
    let mut b = BytePacketBuffer::new();
    b.write_qname(&name("")).unwrap();
    assert_eq!(b.pos, 1);
    b.seek(0).unwrap();
    let back = b.read_qname().unwrap();
    assert_eq!(back, name(""));
}

#[test]
fn qname_long_label_rejected() {
    let mut b = BytePacketBuffer::new();
    let long = vec![b'a'; 64];
    assert_eq!(b.write_qname(&long), Err(DnsError::MalformedName));
}

#[test]
fn qname_decompression() {
    // Label sequence "3www7example3com0" at offset 2, and at offset 19 a name
    // that is just a pointer back to it.
    let mut data = vec![0u8; 2];
    data.extend_from_slice(&[
        3, b'w', b'w', b'w', 7, b'e', b'x', b'a', b'm', b'p', b'l', b'e', 3, b'c',
        b'o', b'm', 0,
    ]);
    data.extend_from_slice(&[0xC0, 0x02]);
    let mut b = BytePacketBuffer::from_bytes(&data);
    b.seek(19).unwrap();
    let decoded = b.read_qname().unwrap();
    assert_eq!(decoded, name("www.example.com"));
    assert_eq!(b.pos, 21);
}

#[test]
fn qname_pointer_loop_fails() {
    // Two pointers pointing at each other must fail after a bounded number of
    // jumps instead of hanging.
    let data = vec![0xC0, 0x02, 0xC0, 0x00];
    let mut b = BytePacketBuffer::from_bytes(&data);
    assert_eq!(b.read_qname(), Err(DnsError::MalformedName));
}

#[test]
fn qname_stray_length_bits_rejected() {
    let data = vec![0x40, b'a', 0];
    let mut b = BytePacketBuffer::from_bytes(&data);
    assert_eq!(b.read_qname(), Err(DnsError::MalformedName));
}

#[test]
fn header_bit_packing() {
    // Flags bytes 0b10000001 and 0b00000011: response + recursion_desired,
    // response code NXDOMAIN.
    let data = vec![0x12, 0x34, 0b1000_0001, 0b0000_0011, 0, 0, 0, 0, 0, 0, 0, 0];
    let mut b = BytePacketBuffer::from_bytes(&data);
    let mut h = DNSHeader::new();
    h.read(&mut b).unwrap();
    assert_eq!(h.id, 0x1234);
    assert!(h.recursion_desired);
    assert!(h.response);
    assert!(!h.truncated);
    assert!(!h.auth_ansr);
    assert_eq!(h.op_code, 0);
    assert_eq!(h.res_code, ResultCode::NXDOMAIN);
    assert!(!h.checking && !h.authed_data && !h.z && !h.recursion_available);

    let mut out = BytePacketBuffer::new();
    h.write(&mut out).unwrap();
    let bytes = out.get_range(0, 12).unwrap();
    assert_eq!(bytes, data);
}

#[test]
fn header_reserved_bit_roundtrips() {
    let data = vec![0, 1, 0, 0b0100_0000, 0, 0, 0, 0, 0, 0, 0, 0];
    let mut b = BytePacketBuffer::from_bytes(&data);
    let mut h = DNSHeader::new();
    h.read(&mut b).unwrap();
    assert!(h.z);
    let mut out = BytePacketBuffer::new();
    h.write(&mut out).unwrap();
    assert_eq!(out.get_range(0, 12).unwrap(), data);
}

#[test]
fn result_code_wire_codes() {
    assert_eq!(ResultCode::from_num(0), ResultCode::NOERROR);
    assert_eq!(ResultCode::from_num(1), ResultCode::FORMERR);
    assert_eq!(ResultCode::from_num(2), ResultCode::SERVFAIL);
    assert_eq!(ResultCode::from_num(3), ResultCode::NXDOMAIN);
    assert_eq!(ResultCode::from_num(4), ResultCode::NOTIMP);
    assert_eq!(ResultCode::from_num(5), ResultCode::REFUSED);
    assert_eq!(ResultCode::from_num(9), ResultCode::UNKNOWN(9));
    assert_eq!(ResultCode::UNKNOWN(9).to_num(), 9);
    assert_eq!(ResultCode::REFUSED.to_num(), 5);
}

#[test]
fn query_type_wire_codes() {
    assert_eq!(QueryType::from_num(1), QueryType::A);
    assert_eq!(QueryType::from_num(2), QueryType::NS);
    assert_eq!(QueryType::from_num(5), QueryType::CNAME);
    assert_eq!(QueryType::from_num(15), QueryType::MX);
    assert_eq!(QueryType::from_num(28), QueryType::AAAA);
    assert_eq!(QueryType::from_num(99), QueryType::UNKNOWN(99));
    assert_eq!(QueryType::UNKNOWN(99).to_num(), 99);
    assert_eq!(QueryType::AAAA.to_num(), 28);
}

#[test]
fn question_roundtrip() {
    let q = DNSQuestion::new(name("example.com"), QueryType::MX);
    let mut b = BytePacketBuffer::new();
    q.write(&mut b).unwrap();
    b.seek(0).unwrap();
    let mut back = DNSQuestion::new(Vec::new(), QueryType::UNKNOWN(0));
    back.read(&mut b).unwrap();
    assert_eq!(back, q);
}

#[test]
fn unknown_rdata_skipped_exactly() {
    // An rdata block of 5 bytes under an unrecognized type code is skipped
    // exactly, so the next record decodes cleanly from a multi-record buffer.
    let mut data = Vec::new();
    data.extend_from_slice(&[1, b'a', 0]); // name "a"
    data.extend_from_slice(&[0, 200]); // type 200: unrecognized
    data.extend_from_slice(&[0, 1]); // class
    data.extend_from_slice(&[0, 0, 0, 60]); // ttl
    data.extend_from_slice(&[0, 5]); // rdata length 5
    data.extend_from_slice(&[9, 9, 9, 9, 9]); // skipped payload
    data.extend_from_slice(&[1, b'b', 0]); // name "b"
    data.extend_from_slice(&[0, 1]); // type A
    data.extend_from_slice(&[0, 1]); // class
    data.extend_from_slice(&[0, 0, 0, 9]); // ttl
    data.extend_from_slice(&[0, 4]); // rdata length
    data.extend_from_slice(&[10, 0, 0, 7]); // address
    let mut b = BytePacketBuffer::from_bytes(&data);
    let first = DNSRecord::read(&mut b).unwrap();
    assert_eq!(
        first,
        DNSRecord::UNKNOWN { domain: name("a"), qtype: 200, data_len: 5, ttl: 60 }
    );
    assert_eq!(b.pos, 18);
    let second = DNSRecord::read(&mut b).unwrap();
    assert_eq!(
        second,
        DNSRecord::A {
            domain: name("b"),
            addr: Ipv4 { o0: 10, o1: 0, o2: 0, o3: 7 },
            ttl: 9
        }
    );
}

#[test]
fn record_variants_roundtrip() {
    let records = vec![
        DNSRecord::A {
            domain: name("a.example.com"),
            addr: Ipv4 { o0: 1, o1: 2, o2: 3, o3: 4 },
            ttl: 300,
        },
        DNSRecord::NS { domain: name("example.com"), host: name("ns1.example.com"), ttl: 60 },
        DNSRecord::CNAME { domain: name("www.example.com"), host: name("example.com"), ttl: 5 },
        DNSRecord::MX {
            domain: name("example.com"),
            priority: 10,
            host: name("mail.example.com"),
            ttl: 77,
        },
        DNSRecord::AAAA {
            domain: name("six.example.com"),
            addr: Ipv6 {
                g0: 0x2001, g1: 0xdb8, g2: 0, g3: 0, g4: 0, g5: 0, g6: 0, g7: 1,
            },
            ttl: 1,
        },
    ];
    for rec in records {
        let mut b = BytePacketBuffer::new();
        rec.write(&mut b).unwrap();
        b.seek(0).unwrap();
        let back = DNSRecord::read(&mut b).unwrap();
        assert_eq!(back, rec);
    }
}

#[test]
fn packet_roundtrip() {
    let mut p = DNSPacket::new();
    p.header.id = 4711;
    p.header.recursion_desired = true;
    p.header.response = true;
    p.questions.push(DNSQuestion::new(name("www.example.com"), QueryType::A));
    p.answers.push(DNSRecord::A {
        domain: name("www.example.com"),
        addr: Ipv4 { o0: 93, o1: 184, o2: 216, o3: 34 },
        ttl: 3600,
    });
    p.authorities.push(DNSRecord::NS {
        domain: name("example.com"),
        host: name("ns1.example.com"),
        ttl: 600,
    });
    p.resources.push(DNSRecord::A {
        domain: name("ns1.example.com"),
        addr: Ipv4 { o0: 10, o1: 1, o2: 2, o3: 3 },
        ttl: 600,
    });

    let mut b = BytePacketBuffer::new();
    p.write(&mut b).unwrap();
    let wire = b.get_range(0, b.pos).unwrap();
    let mut back_buf = BytePacketBuffer::from_bytes(&wire);
    let back = DNSPacket::read(&mut back_buf).unwrap();

    // Encode syncs the header counts from the section lengths, so the decoded
    // packet equals the packet as it stands after writing.
    assert_eq!(back.header.question, 1);
    assert_eq!(back.header.answer, 1);
    assert_eq!(back.header.auth_entries, 1);
    assert_eq!(back.header.res_entries, 1);
    assert_eq!(back, p);
}

#[test]
fn packet_with_empty_question_count_decodes() {
    let mut p = DNSPacket::new();
    p.header.id = 1;
    let mut b = BytePacketBuffer::new();
    p.write(&mut b).unwrap();
    let wire = b.get_range(0, b.pos).unwrap();
    let mut back_buf = BytePacketBuffer::from_bytes(&wire);
    let back = DNSPacket::read(&mut back_buf).unwrap();
    assert_eq!(back.questions.len(), 0);
    assert_eq!(back.header.question, 0);
}

#[test]
fn ns_record_exact_wire_bytes() {
    // The rdata length field is patched after the payload is written: for an
    // NS record it must equal the encoded host name's byte count.
    let rec = DNSRecord::NS { domain: name("com"), host: name("ns.com"), ttl: 7 };
    let mut b = BytePacketBuffer::new();
    rec.write(&mut b).unwrap();
    let bytes = b.get_range(0, b.pos).unwrap();
    assert_eq!(
        bytes,
        vec![
            3, b'c', b'o', b'm', 0, // owner name
            0, 2, // type NS
            0, 1, // class
            0, 0, 0, 7, // ttl
            0, 8, // rdata length: encoded host is 8 bytes
            2, b'n', b's', 3, b'c', b'o', b'm', 0, // host name
        ]
    );
}

#[test]
fn random_access_set_and_get() {
    let mut b = BytePacketBuffer::new();
    b.set(100, 42).unwrap();
    b.set_u16(200, 0xBEEF).unwrap();
    assert_eq!(b.get(100).unwrap(), 42);
    assert_eq!(b.get(200).unwrap(), 0xBE);
    assert_eq!(b.get(201).unwrap(), 0xEF);
    assert_eq!(b.pos, 0);
    assert_eq!(b.set(512, 1), Err(DnsError::EndOfBuffer));
    assert_eq!(b.set_u16(511, 1), Err(DnsError::EndOfBuffer));
}

#[test]
fn glue_lookup_helpers() {
    let mut p = DNSPacket::new();
    p.authorities.push(DNSRecord::NS {
        domain: name("com"),
        host: name("ns1.isp.com"),
        ttl: 60,
    });
    p.authorities.push(DNSRecord::NS {
        domain: name("org"),
        host: name("ns2.isp.com"),
        ttl: 60,
    });
    p.resources.push(DNSRecord::A {
        domain: name("ns1.isp.com"),
        addr: Ipv4 { o0: 10, o1: 0, o2: 0, o3: 1 },
        ttl: 60,
    });
    let pairs = p.get_ns(&name("example.com"));
    assert_eq!(pairs.len(), 1);
    assert_eq!(pairs[0].0, name("com"));
    assert_eq!(pairs[0].1, name("ns1.isp.com"));
    assert_eq!(
        p.get_resolved_ns(&name("example.com")),
        Some(Ipv4 { o0: 10, o1: 0, o2: 0, o3: 1 })
    );
    assert_eq!(p.get_unresolved_ns(&name("example.com")), Some(name("ns1.isp.com")));
    assert_eq!(p.get_resolved_ns(&name("example.org")), None);
    assert_eq!(p.get_random_a(), None);
}
