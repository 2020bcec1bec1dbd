use dns_resolver::buffer::BytePacketBuffer;
use dns_resolver::dns::{DnsPacket, DnsQuestion, DnsRecord, QueryType, ResultCode};
use dns_resolver::resolver::{
    build_lookup_query, chased_server, resolve_step, synthesize_timeout_response, ResolveDecision,
    LOOKUP_ID, ROOT_SERVER,
};
use dns_resolver::server::{DnsServer, QueryAction};

fn name(s: &str) -> Vec<u8> {
    s.as_bytes().to_vec()
}

fn response_with(rescode: ResultCode) -> DnsPacket {
    let mut packet = DnsPacket::new();
    packet.header.id = LOOKUP_ID;
    packet.header.response = true;
    packet.header.rescode = rescode;
    packet
}

#[test]
fn root_server_is_the_fixed_ipv4_address() {
    assert_eq!(ROOT_SERVER.to_be_bytes(), [198, 41, 0, 4]);
}

#[test]
fn answered_noerror_response_is_accepted() {
    let mut response = response_with(ResultCode::NOERROR);
    response.answers.push(DnsRecord::A { domain: name("example.com"), addr: 1, ttl: 60 });
    assert!(matches!(resolve_step(&name("example.com"), &response), ResolveDecision::Accept));
}

#[test]
fn nxdomain_is_terminal() {
    let response = response_with(ResultCode::NXDOMAIN);
    assert!(matches!(resolve_step(&name("example.com"), &response), ResolveDecision::Accept));
}

#[test]
fn glued_ns_supplies_the_next_hop_without_a_nested_lookup() {
    let mut response = response_with(ResultCode::NOERROR);
    response.authorities.push(DnsRecord::NS {
        domain: name("example.com"),
        host: name("ns1.example.com"),
        ttl: 600,
    });
    response.resources.push(DnsRecord::A {
        domain: name("ns1.example.com"),
        addr: 0x0A000001,
        ttl: 600,
    });
    match resolve_step(&name("example.com"), &response) {
        ResolveDecision::NextServer(ip) => assert_eq!(ip.to_be_bytes(), [10, 0, 0, 1]),
        _ => panic!("expected the glue address as the next hop"),
    }
}

#[test]
fn unglued_ns_is_chased_by_name() {
    let mut response = response_with(ResultCode::NOERROR);
    response.authorities.push(DnsRecord::NS {
        domain: name("com"),
        host: name("ns1.example.com"),
        ttl: 600,
    });
    match resolve_step(&name("example.com"), &response) {
        ResolveDecision::ChaseNs(host) => assert_eq!(host, name("ns1.example.com")),
        _ => panic!("expected a nameserver chase"),
    }
}

#[test]
fn ns_candidacy_respects_label_boundaries() {
    // An owner that is only a byte suffix, cut across a label, is no zone
    // of the question name.
    let mut response = response_with(ResultCode::NOERROR);
    response.authorities.push(DnsRecord::NS {
        domain: name("ample.com"),
        host: name("ns1.ample.com"),
        ttl: 600,
    });
    assert!(matches!(resolve_step(&name("example.com"), &response), ResolveDecision::Accept));

    // An enclosing zone, split off at a dot, is.
    let mut response = response_with(ResultCode::NOERROR);
    response.authorities.push(DnsRecord::NS {
        domain: name("example.com"),
        host: name("ns1.example.com"),
        ttl: 600,
    });
    match resolve_step(&name("www.example.com"), &response) {
        ResolveDecision::ChaseNs(host) => assert_eq!(host, name("ns1.example.com")),
        _ => panic!("expected a nameserver chase"),
    }
}

#[test]
fn unrelated_ns_is_no_candidate_and_the_response_is_accepted() {
    let mut response = response_with(ResultCode::NOERROR);
    response.authorities.push(DnsRecord::NS {
        domain: name("other.net"),
        host: name("ns1.other.net"),
        ttl: 600,
    });
    assert!(matches!(resolve_step(&name("example.com"), &response), ResolveDecision::Accept));
}

#[test]
fn chased_server_takes_the_first_a_answer() {
    let mut nested = response_with(ResultCode::NOERROR);
    nested.answers.push(DnsRecord::NS {
        domain: name("x"),
        host: name("y"),
        ttl: 1,
    });
    nested.answers.push(DnsRecord::A { domain: name("x"), addr: 42, ttl: 1 });
    nested.answers.push(DnsRecord::A { domain: name("x"), addr: 43, ttl: 1 });
    assert_eq!(chased_server(&nested), Some(42));
}

#[test]
fn timeout_fallback_is_a_synthesized_nxdomain() {
    let response = synthesize_timeout_response(&name("example.com"), QueryType::A);
    assert_eq!(response.header.rescode, ResultCode::NXDOMAIN);
    assert_eq!(response.header.id, LOOKUP_ID);
    assert!(response.header.response);
    assert!(response.header.recursion_desired);
    assert!(response.header.recursion_available);
    assert_eq!(response.questions.len(), 1);
    assert_eq!(response.questions[0].name, name("example.com"));
    assert!(response.answers.is_empty());
}

#[test]
fn lookup_query_carries_the_question_and_the_fixed_id() {
    let packet = build_lookup_query(&name("example.com"), QueryType::MX);
    assert_eq!(packet.header.id, LOOKUP_ID);
    assert_eq!(packet.header.questions, 1);
    assert!(packet.header.recursion_desired);
    assert!(!packet.header.response);
    assert_eq!(packet.questions.len(), 1);
    assert_eq!(packet.questions[0].qtype, QueryType::MX);
}

fn request_buffer(id: u16, questions: &[(&str, QueryType)]) -> BytePacketBuffer {
    let mut packet = DnsPacket::new();
    packet.header.id = id;
    for (qname, qtype) in questions {
        packet.questions.push(DnsQuestion::new(name(qname), *qtype));
    }
    let mut buffer = BytePacketBuffer::new();
    packet.write(&mut buffer).unwrap();
    buffer.seek(0).unwrap();
    buffer
}

#[test]
fn request_without_question_yields_formerr_with_the_original_id() {
    let server = DnsServer::new();
    let mut buffer = request_buffer(1234, &[]);
    match server.handle_request(&mut buffer).unwrap() {
        QueryAction::Respond(packet) => {
            assert_eq!(packet.header.rescode, ResultCode::FORMERR);
            assert_eq!(packet.header.id, 1234);
            assert!(packet.header.response);
        },
        QueryAction::Resolve { .. } => panic!("no question should resolve nothing"),
    }
}

#[test]
fn uncached_question_asks_for_a_resolution() {
    let server = DnsServer::new();
    let mut buffer = request_buffer(7, &[("example.com", QueryType::A)]);
    match server.handle_request(&mut buffer).unwrap() {
        QueryAction::Resolve { id, question } => {
            assert_eq!(id, 7);
            assert_eq!(question.name, name("example.com"));
            assert_eq!(question.qtype, QueryType::A);
        },
        QueryAction::Respond(_) => panic!("an empty cache cannot answer"),
    }
}

#[test]
fn cached_answers_are_served_without_any_probe() {
    let mut server = DnsServer::new();
    let question = DnsQuestion::new(name("example.com"), QueryType::A);

    // A resolution completed with NOERROR and one answer: the handler
    // builds the response and fills the cache.
    let mut result = response_with(ResultCode::NOERROR);
    let answer = DnsRecord::A { domain: name("example.com"), addr: 0x0A000001, ttl: 300 };
    result.answers.push(answer.clone());
    let first = server.handle_outcome(9, question, Some(result));
    assert_eq!(first.header.rescode, ResultCode::NOERROR);
    assert_eq!(first.header.id, 9);
    assert_eq!(first.answers, vec![answer.clone()]);

    // The same question again: answered from the cache, with identical
    // records, and no resolution is requested.
    let mut buffer = request_buffer(10, &[("example.com", QueryType::A)]);
    match server.handle_request(&mut buffer).unwrap() {
        QueryAction::Respond(packet) => {
            assert_eq!(packet.header.rescode, ResultCode::NOERROR);
            assert_eq!(packet.header.id, 10);
            assert_eq!(packet.answers, vec![answer]);
        },
        QueryAction::Resolve { .. } => panic!("a cached question must not probe the network"),
    }

    // A different type for the same name is not a cache hit.
    let mut buffer = request_buffer(11, &[("example.com", QueryType::MX)]);
    assert!(matches!(
        server.handle_request(&mut buffer).unwrap(),
        QueryAction::Resolve { .. }
    ));
}

#[test]
fn failed_resolution_becomes_servfail_and_fills_no_cache() {
    let mut server = DnsServer::new();
    let question = DnsQuestion::new(name("example.com"), QueryType::A);
    let response = server.handle_outcome(21, question, None);
    assert_eq!(response.header.rescode, ResultCode::SERVFAIL);
    assert_eq!(response.header.id, 21);
    assert!(response.answers.is_empty());

    let mut buffer = request_buffer(22, &[("example.com", QueryType::A)]);
    assert!(matches!(
        server.handle_request(&mut buffer).unwrap(),
        QueryAction::Resolve { .. }
    ));
}

#[test]
fn nxdomain_resolutions_are_not_cached() {
    let mut server = DnsServer::new();
    let question = DnsQuestion::new(name("missing.example.com"), QueryType::A);
    let result = response_with(ResultCode::NXDOMAIN);
    let response = server.handle_outcome(31, question, Some(result));
    assert_eq!(response.header.rescode, ResultCode::NXDOMAIN);

    let mut buffer = request_buffer(32, &[("missing.example.com", QueryType::A)]);
    assert!(matches!(
        server.handle_request(&mut buffer).unwrap(),
        QueryAction::Resolve { .. }
    ));
}

#[test]
fn resolution_with_the_last_question_of_many() {
    let server = DnsServer::new();
    let mut buffer = request_buffer(
        40,
        &[("first.example.com", QueryType::A), ("second.example.com", QueryType::NS)],
    );
    match server.handle_request(&mut buffer).unwrap() {
        QueryAction::Resolve { question, .. } => {
            assert_eq!(question.name, name("second.example.com"));
            assert_eq!(question.qtype, QueryType::NS);
        },
        QueryAction::Respond(_) => panic!("an empty cache cannot answer"),
    }
}

#[test]
fn later_cache_entries_shadow_earlier_ones() {
    let mut server = DnsServer::new();
    let question = DnsQuestion::new(name("example.com"), QueryType::A);

    let mut first = response_with(ResultCode::NOERROR);
    first.answers.push(DnsRecord::A { domain: name("example.com"), addr: 1, ttl: 60 });
    server.handle_outcome(1, question.clone(), Some(first));

    let mut second = response_with(ResultCode::NOERROR);
    let newer = DnsRecord::A { domain: name("example.com"), addr: 2, ttl: 60 };
    second.answers.push(newer.clone());
    server.handle_outcome(2, question, Some(second));

    let mut buffer = request_buffer(3, &[("example.com", QueryType::A)]);
    match server.handle_request(&mut buffer).unwrap() {
        QueryAction::Respond(packet) => assert_eq!(packet.answers, vec![newer]),
        QueryAction::Resolve { .. } => panic!("the question is cached"),
    }
}
