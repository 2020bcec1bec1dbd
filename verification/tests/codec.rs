use dns_resolver::buffer::BytePacketBuffer;
use dns_resolver::dns::{DnsHeader, DnsPacket, DnsQuestion, DnsRecord, QueryType, ResultCode};
use dns_resolver::DnsError;

fn name(s: &str) -> Vec<u8> {
    s.as_bytes().to_vec()
}

#[test]
fn buffer_reads_and_writes_are_bounds_checked() {
    let mut buffer = BytePacketBuffer::new();
    assert_eq!(buffer.seek(512), Ok(()));
    assert_eq!(buffer.read_u16(), Err(DnsError::OutOfBounds));
    assert_eq!(buffer.write_u8(7), Err(DnsError::OutOfBounds));
    assert_eq!(buffer.step(1), Err(DnsError::OutOfBounds));
    assert_eq!(buffer.seek(513), Err(DnsError::OutOfBounds));
    assert_eq!(buffer.get_range(500, 20), Err(DnsError::OutOfBounds));
    assert_eq!(buffer.set_u16(511, 1), Err(DnsError::OutOfBounds));
}

#[test]
fn ranges_ending_exactly_at_capacity_are_allowed() {
    let mut buffer = BytePacketBuffer::new();
    buffer.set_u16(510, 0x0809).unwrap();
    assert_eq!(buffer.get_range(510, 2), Ok(vec![8, 9]));
    assert_eq!(buffer.get_range(510, 3), Err(DnsError::OutOfBounds));

    // A name whose last label byte sits in the final buffer byte decodes.
    let mut buffer = BytePacketBuffer::new();
    buffer.seek(508).unwrap();
    buffer.write_u8(0).unwrap();
    buffer.write_u8(2).unwrap();
    buffer.write_u8(b'o').unwrap();
    buffer.write_u8(b'k').unwrap();
    buffer.seek(509).unwrap();
    let mut out: Vec<u8> = Vec::new();
    // The terminating zero would lie past the end, so the read still
    // fails, but only after the label itself was in bounds.
    assert_eq!(buffer.read_qname(&mut out), Err(DnsError::OutOfBounds));
    assert_eq!(out, b"ok".to_vec());
}

#[test]
fn u16_and_u32_round_trip_big_endian() {
    let mut buffer = BytePacketBuffer::new();
    buffer.write_u16(0xBEEF).unwrap();
    buffer.write_u32(0x01020304).unwrap();
    buffer.seek(0).unwrap();
    assert_eq!(buffer.read_u16(), Ok(0xBEEF));
    assert_eq!(buffer.read_u32(), Ok(0x01020304));
    assert_eq!(buffer.buf[0], 0xBE);
    assert_eq!(buffer.buf[1], 0xEF);
    assert_eq!(buffer.buf[2], 0x01);
    assert_eq!(buffer.buf[5], 0x04);
}

#[test]
fn qname_round_trips_and_lowercases() {
    let mut buffer = BytePacketBuffer::new();
    buffer.write_qname(&name("Example.COM")).unwrap();
    let end = buffer.pos();
    assert_eq!(end, "Example.COM".len() + 2);
    buffer.seek(0).unwrap();
    let mut out: Vec<u8> = Vec::new();
    buffer.read_qname(&mut out).unwrap();
    assert_eq!(out, name("example.com"));
    assert_eq!(buffer.pos(), end);
}

#[test]
fn compressed_name_decodes_like_the_expanded_form() {
    // First name at offset 0: www.example.com in full.
    let mut buffer = BytePacketBuffer::new();
    buffer.write_qname(&name("www.example.com")).unwrap();
    // Second name right after: api + pointer to offset 4, where
    // "example.com" begins inside the first name.
    let second = buffer.pos();
    buffer.write_u8(3).unwrap();
    buffer.write_u8(b'a').unwrap();
    buffer.write_u8(b'p').unwrap();
    buffer.write_u8(b'i').unwrap();
    buffer.write_u8(0xC0).unwrap();
    buffer.write_u8(4).unwrap();
    let after_pointer = buffer.pos();

    let mut expanded = BytePacketBuffer::new();
    expanded.write_qname(&name("api.example.com")).unwrap();
    expanded.seek(0).unwrap();
    let mut want: Vec<u8> = Vec::new();
    expanded.read_qname(&mut want).unwrap();

    buffer.seek(second).unwrap();
    let mut got: Vec<u8> = Vec::new();
    buffer.read_qname(&mut got).unwrap();
    assert_eq!(got, want);
    assert_eq!(got, name("api.example.com"));
    // The cursor moves past the pointer, not to the jump target.
    assert_eq!(buffer.pos(), after_pointer);
}

#[test]
fn self_referential_pointer_fails_with_too_many_jumps() {
    let mut buffer = BytePacketBuffer::new();
    buffer.write_u8(0xC0).unwrap();
    buffer.write_u8(0).unwrap();
    buffer.seek(0).unwrap();
    let mut out: Vec<u8> = Vec::new();
    assert_eq!(buffer.read_qname(&mut out), Err(DnsError::TooManyJumps));
}

#[test]
fn pointer_chain_fails_with_too_many_jumps() {
    // A chain of pointers, each two bytes apart, long enough to exceed the
    // bound of five follows.
    let mut buffer = BytePacketBuffer::new();
    for i in 0..10u8 {
        buffer.write_u8(0xC0).unwrap();
        buffer.write_u8(2 * (i + 1)).unwrap();
    }
    buffer.seek(0).unwrap();
    let mut out: Vec<u8> = Vec::new();
    assert_eq!(buffer.read_qname(&mut out), Err(DnsError::TooManyJumps));
}

#[test]
fn label_of_64_bytes_is_refused_and_63_accepted() {
    let long = vec![b'a'; 64];
    let mut buffer = BytePacketBuffer::new();
    assert_eq!(buffer.write_qname(&long), Err(DnsError::LabelTooLong));

    let edge = vec![b'a'; 63];
    let mut buffer = BytePacketBuffer::new();
    assert_eq!(buffer.write_qname(&edge), Ok(()));
    buffer.seek(0).unwrap();
    let mut out: Vec<u8> = Vec::new();
    buffer.read_qname(&mut out).unwrap();
    assert_eq!(out, edge);
}

#[test]
fn query_encoding_has_the_documented_byte_layout() {
    let mut packet = dns_resolver::resolver::build_lookup_query(&name("example.com"), QueryType::A);
    let mut buffer = BytePacketBuffer::new();
    packet.write(&mut buffer).unwrap();

    // id = 6666.
    assert_eq!(&buffer.buf[0..2], &[0x1A, 0x0A]);
    // flags: response = 0, opcode = 0, recursion desired = 1.
    assert_eq!(&buffer.buf[2..4], &[0x01, 0x00]);
    // QDCOUNT = 1, ANCOUNT = 0, NSCOUNT = 0, ARCOUNT = 0.
    assert_eq!(&buffer.buf[4..12], &[0, 1, 0, 0, 0, 0, 0, 0]);
    // The question name, length-prefixed, zero-terminated.
    let mut qname = vec![7u8];
    qname.extend_from_slice(b"example");
    qname.push(3);
    qname.extend_from_slice(b"com");
    qname.push(0);
    assert_eq!(&buffer.buf[12..12 + qname.len()], &qname[..]);
    // type = A (1), class = IN (1).
    let t = 12 + qname.len();
    assert_eq!(&buffer.buf[t..t + 4], &[0, 1, 0, 1]);
    assert_eq!(buffer.pos(), t + 4);
}

#[test]
fn whole_message_round_trips_through_the_wire_format() {
    let mut packet = DnsPacket::new();
    packet.header.id = 4242;
    packet.header.recursion_desired = true;
    packet.header.recursion_available = true;
    packet.header.response = true;
    packet.header.rescode = ResultCode::NOERROR;
    packet.questions.push(DnsQuestion::new(name("example.com"), QueryType::A));
    packet.answers.push(DnsRecord::A { domain: name("example.com"), addr: 0x0A000001, ttl: 300 });
    packet.answers.push(DnsRecord::AAAA {
        domain: name("example.com"),
        a0: 0x20010DB8,
        a1: 0,
        a2: 0,
        a3: 1,
        ttl: 60,
    });
    packet.answers.push(DnsRecord::MX {
        domain: name("example.com"),
        priority: 10,
        host: name("mail.example.com"),
        ttl: 120,
    });
    packet.authorities.push(DnsRecord::NS {
        domain: name("example.com"),
        host: name("ns1.example.com"),
        ttl: 600,
    });
    packet.authorities.push(DnsRecord::SOA {
        domain: name("example.com"),
        m_name: name("ns1.example.com"),
        r_name: name("admin.example.com"),
        serial: 7,
        refresh: 1200,
        retry: 180,
        expire: 1209600,
        minimum: 60,
        ttl: 900,
    });
    packet.resources.push(DnsRecord::CNAME {
        domain: name("alias.example.com"),
        host: name("example.com"),
        ttl: 30,
    });
    packet.resources.push(DnsRecord::UNKNOWN {
        domain: name("example.com"),
        qtype: 99,
        class: 1,
        data_len: 3,
        ttl: 10,
        data: vec![0xDE, 0xAD, 0x01],
    });

    let mut buffer = BytePacketBuffer::new();
    packet.write(&mut buffer).unwrap();
    buffer.seek(0).unwrap();
    let decoded = DnsPacket::from_buffer(&mut buffer).unwrap();
    assert_eq!(decoded, packet);
}

#[test]
fn header_flag_bytes_decode_field_by_field() {
    let mut buffer = BytePacketBuffer::new();
    buffer.write_u16(0x0102).unwrap();
    // a byte: RD | AA | opcode 2 | response.
    buffer.write_u8(0b1001_0101).unwrap();
    // b byte: rcode 3 | checking disabled | recursion available.
    buffer.write_u8(0b1001_0011).unwrap();
    for _ in 0..4 {
        buffer.write_u16(0).unwrap();
    }
    buffer.seek(0).unwrap();
    let mut header = DnsHeader::new();
    header.read(&mut buffer).unwrap();
    assert_eq!(header.id, 0x0102);
    assert!(header.recursion_desired);
    assert!(!header.truncated_message);
    assert!(header.authoritative_answer);
    assert_eq!(header.opcode, 2);
    assert!(header.response);
    assert_eq!(header.rescode, ResultCode::NXDOMAIN);
    assert!(header.checking_disabled);
    assert!(!header.authed_data);
    assert!(!header.z);
    assert!(header.recursion_available);
}

#[test]
fn truncated_record_fails_as_malformed_record() {
    let mut buffer = BytePacketBuffer::new();
    // Header: ANCOUNT = 1 but nothing after the header decodes as a record:
    // the name runs as a 63-byte label straight into zero padding and then
    // the record preamble lies past the end.
    buffer.write_u16(77).unwrap();
    buffer.write_u16(0).unwrap();
    buffer.write_u16(0).unwrap();
    buffer.write_u16(1).unwrap();
    buffer.write_u16(0).unwrap();
    buffer.write_u16(0).unwrap();
    buffer.seek(510).unwrap();
    buffer.write_u8(63).unwrap();
    buffer.seek(12).unwrap();
    // Name at 12: a pointer to position 510, whose label length 63 runs
    // past the buffer end.
    buffer.write_u8(0xC1).unwrap();
    buffer.write_u8(0xFE).unwrap();
    buffer.seek(0).unwrap();
    assert_eq!(DnsPacket::from_buffer(&mut buffer), Err(DnsError::MalformedRecord));
}

#[test]
fn unknown_result_and_query_codes_survive_their_numbers() {
    assert_eq!(ResultCode::from_num(2), ResultCode::SERVFAIL);
    assert_eq!(ResultCode::from_num(9), ResultCode::UNKNOWN(9));
    assert_eq!(ResultCode::UNKNOWN(9).to_num(), 9);
    assert_eq!(QueryType::from_num(28), QueryType::AAAA);
    assert_eq!(QueryType::from_num(99), QueryType::UNKNOWN(99));
    assert_eq!(QueryType::UNKNOWN(99).to_num(), 99);
}
