use dns::dnspacket::DNSPacket;
use dns::dnsquestion::DNSQuestion;
use dns::dnsrecord::{DNSRecord, Ipv4};
use dns::querytype::QueryType;
use dns::resolver::{build_reply, ResolveAction, Resolver};
use dns::resultcode::ResultCode;

fn name(s: &str) -> Vec<u8> {
    s.as_bytes().to_vec()
}

fn referral_with_glue() -> DNSPacket {
    let mut p = DNSPacket::new();
    p.header.response = true;
    p.authorities.push(DNSRecord::NS {
        domain: name("com"),
        host: name("ns1.isp.com"),
        ttl: 60,
    });
    p.resources.push(DNSRecord::A {
        domain: name("ns1.isp.com"),
        addr: Ipv4 { o0: 10, o1: 0, o2: 0, o3: 1 },
        ttl: 60,
    });
    p
}

fn answer_packet(domain: &str, addr: Ipv4) -> DNSPacket {
    let mut p = DNSPacket::new();
    p.header.response = true;
    p.answers.push(DNSRecord::A { domain: name(domain), addr, ttl: 60 });
    p
}

#[test]
fn resolver_follows_glue_referral() {
    // A referral with authority NS records and a glue A record makes the
    // resolver switch to the glue address and re-query; a NOERROR response
    // with a non-empty answer section then terminates it.
    let (mut resolver, first) = Resolver::start(name("example.com"), QueryType::A);
    match first {
        ResolveAction::Query { server, qname, qtype } => {
            assert_eq!(server, Ipv4 { o0: 198, o1: 41, o2: 0, o3: 4 });
            assert_eq!(qname, name("example.com"));
            assert_eq!(qtype, QueryType::A);
        }
        _ => panic!("expected an initial query"),
    }

    let step = resolver.resolve_step(referral_with_glue());
    match step {
        ResolveAction::Query { server, qname, qtype } => {
            assert_eq!(server, Ipv4 { o0: 10, o1: 0, o2: 0, o3: 1 });
            assert_eq!(qname, name("example.com"));
            assert_eq!(qtype, QueryType::A);
        }
        _ => panic!("expected a re-query at the glue address"),
    }

    let terminal = answer_packet("example.com", Ipv4 { o0: 93, o1: 184, o2: 216, o3: 34 });
    let done = resolver.resolve_step(terminal.clone());
    match done {
        ResolveAction::Done(p) => {
            assert_eq!(p.answers, terminal.answers);
            assert_eq!(p.header.res_code, ResultCode::NOERROR);
        }
        _ => panic!("expected resolution to finish"),
    }
}

#[test]
fn resolver_resolves_glueless_ns_itself() {
    // An NS record without a matching additional A record makes the resolver
    // issue a nested A query for that host, then use its first returned
    // address as the next hop for the outer question.
    let (mut resolver, _) = Resolver::start(name("example.com"), QueryType::A);

    let mut referral = DNSPacket::new();
    referral.header.response = true;
    referral.authorities.push(DNSRecord::NS {
        domain: name("com"),
        host: name("ns1.isp.com"),
        ttl: 60,
    });
    let step = resolver.resolve_step(referral);
    match step {
        ResolveAction::Query { server, qname, qtype } => {
            assert_eq!(server, Ipv4 { o0: 198, o1: 41, o2: 0, o3: 4 });
            assert_eq!(qname, name("ns1.isp.com"));
            assert_eq!(qtype, QueryType::A);
        }
        _ => panic!("expected a nested query for the name server's address"),
    }

    let nested = answer_packet("ns1.isp.com", Ipv4 { o0: 9, o1: 9, o2: 9, o3: 9 });
    let step = resolver.resolve_step(nested);
    match step {
        ResolveAction::Query { server, qname, qtype } => {
            assert_eq!(server, Ipv4 { o0: 9, o1: 9, o2: 9, o3: 9 });
            assert_eq!(qname, name("example.com"));
            assert_eq!(qtype, QueryType::A);
        }
        _ => panic!("expected the outer question to retry at the new hop"),
    }
}

#[test]
fn resolver_glueless_ns_without_address_returns_referral() {
    // When the nested lookup yields no address, the resolver hands back the
    // referral response it had saved.
    let (mut resolver, _) = Resolver::start(name("example.com"), QueryType::A);
    let mut referral = DNSPacket::new();
    referral.header.response = true;
    referral.header.id = 77;
    referral.authorities.push(DNSRecord::NS {
        domain: name("com"),
        host: name("ns1.isp.com"),
        ttl: 60,
    });
    let _ = resolver.resolve_step(referral.clone());

    let mut empty_terminal = DNSPacket::new();
    empty_terminal.header.res_code = ResultCode::NXDOMAIN;
    let step = resolver.resolve_step(empty_terminal);
    match step {
        ResolveAction::Done(p) => {
            assert_eq!(p.header.id, 77);
            assert_eq!(p.authorities, referral.authorities);
        }
        _ => panic!("expected the saved referral back"),
    }
}

#[test]
fn nxdomain_short_circuits() {
    // NXDOMAIN terminates resolution immediately, even with non-empty
    // authority data that could otherwise be followed.
    let (mut resolver, _) = Resolver::start(name("nope.example"), QueryType::A);
    let mut response = referral_with_glue();
    response.header.res_code = ResultCode::NXDOMAIN;
    let step = resolver.resolve_step(response);
    match step {
        ResolveAction::Done(p) => {
            assert_eq!(p.header.res_code, ResultCode::NXDOMAIN);
        }
        _ => panic!("expected NXDOMAIN to end resolution at once"),
    }
}

#[test]
fn dead_end_response_is_returned_as_is() {
    // No answer, no error, and no usable NS record: the resolver cannot make
    // progress and returns what the last server said.
    let (mut resolver, _) = Resolver::start(name("example.com"), QueryType::A);
    let mut response = DNSPacket::new();
    response.header.response = true;
    response.header.id = 5;
    let step = resolver.resolve_step(response);
    match step {
        ResolveAction::Done(p) => assert_eq!(p.header.id, 5),
        _ => panic!("expected the dead-end response back"),
    }
}

#[test]
fn depth_cap_fails_instead_of_recursing() {
    // A chain of glue-less referrals cannot push past the depth cap: the
    // resolver gives up with Failed, which the caller answers as SERVFAIL.
    let (mut resolver, _) = Resolver::start(name("example.com"), QueryType::A);
    let mut last = ResolveAction::Failed;
    for _ in 0..20 {
        let mut referral = DNSPacket::new();
        referral.header.response = true;
        referral.authorities.push(DNSRecord::NS {
            domain: name("com"),
            host: name("ns1.isp.com"),
            ttl: 60,
        });
        last = resolver.resolve_step(referral);
        match last {
            ResolveAction::Query { .. } => {}
            _ => break,
        }
    }
    assert!(matches!(last, ResolveAction::Failed));
}

#[test]
fn no_question_request_gets_formerr() {
    // A request decoded with question_count=0 is answered with FORMERR.
    let mut outgoing = DNSPacket::new();
    outgoing.header.id = 321;
    let mut wire = dns::buffer::BytePacketBuffer::new();
    outgoing.write(&mut wire).unwrap();
    let bytes = wire.get_range(0, wire.pos).unwrap();
    let mut incoming = dns::buffer::BytePacketBuffer::from_bytes(&bytes);
    let request = DNSPacket::read(&mut incoming).unwrap();
    assert_eq!(request.questions.len(), 0);
    let reply = build_reply(&request, None);
    assert_eq!(reply.header.res_code, ResultCode::FORMERR);
    assert_eq!(reply.header.id, 321);
    assert!(reply.header.response);
    assert!(reply.header.recursion_desired);
    assert!(reply.header.recursion_available);
    assert_eq!(reply.questions.len(), 0);
}

#[test]
fn failed_resolution_gets_servfail() {
    let mut request = DNSPacket::new();
    request.header.id = 5;
    request.questions.push(DNSQuestion::new(name("example.com"), QueryType::A));
    let reply = build_reply(&request, None);
    assert_eq!(reply.header.res_code, ResultCode::SERVFAIL);
    assert_eq!(reply.header.id, 5);
}

#[test]
fn successful_resolution_copies_sections() {
    let mut request = DNSPacket::new();
    request.header.id = 99;
    request.questions.push(DNSQuestion::new(name("example.com"), QueryType::A));
    let mut result = answer_packet("example.com", Ipv4 { o0: 1, o1: 1, o2: 1, o3: 1 });
    result.header.res_code = ResultCode::NOERROR;
    result.authorities.push(DNSRecord::NS {
        domain: name("com"),
        host: name("ns1.isp.com"),
        ttl: 1,
    });
    let reply = build_reply(&request, Some(result.clone()));
    assert_eq!(reply.header.id, 99);
    assert_eq!(reply.header.res_code, ResultCode::NOERROR);
    assert_eq!(reply.questions.len(), 1);
    assert_eq!(reply.questions[0].name, name("example.com"));
    assert_eq!(reply.answers, result.answers);
    assert_eq!(reply.authorities, result.authorities);
    assert_eq!(reply.resources, result.resources);
}
