//! The DNS message data model: header, question and resource-record types,
//! and their wire-format encode/decode rules on top of the byte buffer.

use vstd::prelude::*;

use crate::buffer::{
    be16, be16_bytes, be32, be32_bytes, join_labels, name_end, parse_name, qname_write,
    split_labels, splice, BytePacketBuffer, CAPACITY,
};
use crate::DnsError;

verus! {

/// The result code carried in a response header, a closed enumeration with
/// a fallback for codes this library does not know.
#[derive(Clone, Copy, Debug, PartialEq, Eq, Structural)]
pub enum ResultCode {
    NOERROR,
    FORMERR,
    SERVFAIL,
    NXDOMAIN,
    NOTIMP,
    REFUSED,
    UNKNOWN(u8),
}

/// The result code that a wire code denotes.
pub open spec fn rescode_of(num: u8) -> ResultCode {
    if num == 0 {
        ResultCode::NOERROR
    } else if num == 1 {
        ResultCode::FORMERR
    } else if num == 2 {
        ResultCode::SERVFAIL
    } else if num == 3 {
        ResultCode::NXDOMAIN
    } else if num == 4 {
        ResultCode::NOTIMP
    } else if num == 5 {
        ResultCode::REFUSED
    } else {
        ResultCode::UNKNOWN(num)
    }
}

/// The wire code of a result code.
pub open spec fn rescode_num(rc: ResultCode) -> u8 {
    match rc {
        ResultCode::NOERROR => 0,
        ResultCode::FORMERR => 1,
        ResultCode::SERVFAIL => 2,
        ResultCode::NXDOMAIN => 3,
        ResultCode::NOTIMP => 4,
        ResultCode::REFUSED => 5,
        ResultCode::UNKNOWN(num) => num,
    }
}

impl ResultCode {
    /// The result code that a wire code denotes.
    pub fn from_num(num: u8) -> (r: ResultCode)
        ensures
            r == rescode_of(num),
    {
        match num {
            0 => ResultCode::NOERROR,
            1 => ResultCode::FORMERR,
            2 => ResultCode::SERVFAIL,
            3 => ResultCode::NXDOMAIN,
            4 => ResultCode::NOTIMP,
            5 => ResultCode::REFUSED,
            _ => ResultCode::UNKNOWN(num),
        }
    }

    /// The wire code of this result code.
    pub fn to_num(&self) -> (r: u8)
        ensures
            r == rescode_num(*self),
    {
        match *self {
            ResultCode::NOERROR => 0,
            ResultCode::FORMERR => 1,
            ResultCode::SERVFAIL => 2,
            ResultCode::NXDOMAIN => 3,
            ResultCode::NOTIMP => 4,
            ResultCode::REFUSED => 5,
            ResultCode::UNKNOWN(num) => num,
        }
    }
}

/// The record types this library understands, with a fallback that carries
/// the raw wire type code.
#[derive(Clone, Copy, Debug, PartialEq, Eq, Hash, Structural)]
pub enum QueryType {
    UNKNOWN(u16),
    A,
    NS,
    CNAME,
    SOA,
    MX,
    AAAA,
}

/// The query type that a wire type code denotes.
pub open spec fn qtype_of(num: u16) -> QueryType {
    if num == 1 {
        QueryType::A
    } else if num == 2 {
        QueryType::NS
    } else if num == 5 {
        QueryType::CNAME
    } else if num == 6 {
        QueryType::SOA
    } else if num == 15 {
        QueryType::MX
    } else if num == 28 {
        QueryType::AAAA
    } else {
        QueryType::UNKNOWN(num)
    }
}

/// The wire type code of a query type.
pub open spec fn qtype_num(qt: QueryType) -> u16 {
    match qt {
        QueryType::UNKNOWN(num) => num,
        QueryType::A => 1,
        QueryType::NS => 2,
        QueryType::CNAME => 5,
        QueryType::SOA => 6,
        QueryType::MX => 15,
        QueryType::AAAA => 28,
    }
}

impl QueryType {
    /// The query type that a wire type code denotes.
    pub fn from_num(num: u16) -> (r: QueryType)
        ensures
            r == qtype_of(num),
    {
        match num {
            1 => QueryType::A,
            2 => QueryType::NS,
            5 => QueryType::CNAME,
            6 => QueryType::SOA,
            15 => QueryType::MX,
            28 => QueryType::AAAA,
            _ => QueryType::UNKNOWN(num),
        }
    }

    /// The wire type code of this query type.
    pub fn to_num(&self) -> (r: u16)
        ensures
            r == qtype_num(*self),
    {
        match *self {
            QueryType::UNKNOWN(num) => num,
            QueryType::A => 1,
            QueryType::NS => 2,
            QueryType::CNAME => 5,
            QueryType::SOA => 6,
            QueryType::MX => 15,
            QueryType::AAAA => 28,
        }
    }
}

/// The fixed 12-byte DNS message header.
#[derive(Clone, Copy, Debug, PartialEq, Eq, Structural)]
pub struct DnsHeader {
    /// Transaction id.
    pub id: u16,
    pub recursion_desired: bool,
    pub truncated_message: bool,
    pub authoritative_answer: bool,
    /// Four-bit operation code.
    pub opcode: u8,
    /// The query/response bit.
    pub response: bool,
    pub rescode: ResultCode,
    pub checking_disabled: bool,
    pub authed_data: bool,
    pub z: bool,
    pub recursion_available: bool,
    /// Question count.
    pub questions: u16,
    /// Answer count.
    pub answers: u16,
    /// Authority count.
    pub authoritative_entries: u16,
    /// Additional count.
    pub resource_entries: u16,
}

/// The header denoted by the 12 bytes at `pos` (meaningful when they fit).
pub open spec fn header_from(buf: Seq<u8>, pos: int) -> DnsHeader {
    let a = buf[pos + 2];
    let b = buf[pos + 3];
    DnsHeader {
        id: be16(buf[pos], buf[pos + 1]),
        recursion_desired: (a & 1) != 0,
        truncated_message: (a & 2) != 0,
        authoritative_answer: (a & 4) != 0,
        opcode: (a >> 3) & 0x0F,
        response: (a & 0x80) != 0,
        rescode: rescode_of(b & 0x0F),
        checking_disabled: (b & 0x10) != 0,
        authed_data: (b & 0x20) != 0,
        z: (b & 0x40) != 0,
        recursion_available: (b & 0x80) != 0,
        questions: be16(buf[pos + 4], buf[pos + 5]),
        answers: be16(buf[pos + 6], buf[pos + 7]),
        authoritative_entries: be16(buf[pos + 8], buf[pos + 9]),
        resource_entries: be16(buf[pos + 10], buf[pos + 11]),
    }
}

/// The first flags byte of a header.
pub open spec fn flags_a(h: DnsHeader) -> u8 {
    ((if h.recursion_desired {
        1u8
    } else {
        0u8
    }) | ((if h.truncated_message {
        1u8
    } else {
        0u8
    }) << 1) | ((if h.authoritative_answer {
        1u8
    } else {
        0u8
    }) << 2) | (h.opcode << 3) | ((if h.response {
        1u8
    } else {
        0u8
    }) << 7)) as u8
}

/// The second flags byte of a header.
pub open spec fn flags_b(h: DnsHeader) -> u8 {
    (rescode_num(h.rescode) | ((if h.checking_disabled {
        1u8
    } else {
        0u8
    }) << 4) | ((if h.authed_data {
        1u8
    } else {
        0u8
    }) << 5) | ((if h.z {
        1u8
    } else {
        0u8
    }) << 6) | ((if h.recursion_available {
        1u8
    } else {
        0u8
    }) << 7)) as u8
}

/// The 12 wire bytes of a header.
pub open spec fn header_bytes(h: DnsHeader) -> Seq<u8> {
    seq![
        (h.id >> 8) as u8,
        (h.id & 0xFF) as u8,
        flags_a(h),
        flags_b(h),
        (h.questions >> 8) as u8,
        (h.questions & 0xFF) as u8,
        (h.answers >> 8) as u8,
        (h.answers & 0xFF) as u8,
        (h.authoritative_entries >> 8) as u8,
        (h.authoritative_entries & 0xFF) as u8,
        (h.resource_entries >> 8) as u8,
        (h.resource_entries & 0xFF) as u8,
    ]
}

impl DnsHeader {
    /// An empty header: id zero, all flags clear, all counts zero.
    pub fn new() -> (r: DnsHeader)
        ensures
            r == DnsHeader::empty_spec(),
    {
        DnsHeader {
            id: 0,
            recursion_desired: false,
            truncated_message: false,
            authoritative_answer: false,
            opcode: 0,
            response: false,
            rescode: ResultCode::NOERROR,
            checking_disabled: false,
            authed_data: false,
            z: false,
            recursion_available: false,
            questions: 0,
            answers: 0,
            authoritative_entries: 0,
            resource_entries: 0,
        }
    }

    /// The value `new` returns.
    pub open spec fn empty_spec() -> DnsHeader {
        DnsHeader {
            id: 0,
            recursion_desired: false,
            truncated_message: false,
            authoritative_answer: false,
            opcode: 0,
            response: false,
            rescode: ResultCode::NOERROR,
            checking_disabled: false,
            authed_data: false,
            z: false,
            recursion_available: false,
            questions: 0,
            answers: 0,
            authoritative_entries: 0,
            resource_entries: 0,
        }
    }

    /// Decodes the 12 header bytes at the cursor into `self`.
    pub fn read(&mut self, buffer: &mut BytePacketBuffer) -> (r: Result<(), DnsError>)
        requires
            old(buffer).wf(),
        ensures
            final(buffer).wf(),
            final(buffer).buf@ == old(buffer).buf@,
            old(buffer).pos + 12 <= CAPACITY ==> r == Ok::<(), DnsError>(()) && *final(self)
                == header_from(old(buffer).buf@, old(buffer).pos as int) && final(buffer).pos
                == old(buffer).pos + 12,
            old(buffer).pos + 12 > CAPACITY ==> r == Err::<(), DnsError>(DnsError::OutOfBounds),
    {
        let id: u16 = buffer.read_u16()?;
        let a: u8 = buffer.read()?;
        let b: u8 = buffer.read()?;
        let questions: u16 = buffer.read_u16()?;
        let answers: u16 = buffer.read_u16()?;
        let authoritative_entries: u16 = buffer.read_u16()?;
        let resource_entries: u16 = buffer.read_u16()?;

        self.id = id;
        self.recursion_desired = (a & 1) != 0;
        self.truncated_message = (a & 2) != 0;
        self.authoritative_answer = (a & 4) != 0;
        self.opcode = (a >> 3) & 0x0F;
        self.response = (a & 0x80) != 0;
        self.rescode = ResultCode::from_num(b & 0x0F);
        self.checking_disabled = (b & 0x10) != 0;
        self.authed_data = (b & 0x20) != 0;
        self.z = (b & 0x40) != 0;
        self.recursion_available = (b & 0x80) != 0;
        self.questions = questions;
        self.answers = answers;
        self.authoritative_entries = authoritative_entries;
        self.resource_entries = resource_entries;

        proof {
            let bb = old(buffer).buf@;
            let p = old(buffer).pos as int;
            assert(id == be16(bb[p], bb[p + 1]));
            assert(a == bb[p + 2]);
            assert(b == bb[p + 3]);
        }
        Ok(())
    }

    /// Encodes this header as its 12 wire bytes at the cursor.
    pub fn write(&self, buffer: &mut BytePacketBuffer) -> (r: Result<(), DnsError>)
        requires
            old(buffer).wf(),
        ensures
            final(buffer).wf(),
            old(buffer).pos + 12 <= CAPACITY ==> r == Ok::<(), DnsError>(()) && final(buffer).buf@
                == splice(old(buffer).buf@, old(buffer).pos as int, header_bytes(*self))
                && final(buffer).pos == old(buffer).pos + 12,
            old(buffer).pos + 12 > CAPACITY ==> r == Err::<(), DnsError>(DnsError::OutOfBounds),
    {
        let ghost buf0 = buffer.buf@;
        let ghost pos0 = buffer.pos as int;
        buffer.write_u16(self.id)?;

        let a: u8 = (if self.recursion_desired {
            1u8
        } else {
            0u8
        }) | ((if self.truncated_message {
            1u8
        } else {
            0u8
        }) << 1) | ((if self.authoritative_answer {
            1u8
        } else {
            0u8
        }) << 2) | (self.opcode << 3) | ((if self.response {
            1u8
        } else {
            0u8
        }) << 7);
        buffer.write_u8(a)?;

        let b: u8 = self.rescode.to_num() | ((if self.checking_disabled {
            1u8
        } else {
            0u8
        }) << 4) | ((if self.authed_data {
            1u8
        } else {
            0u8
        }) << 5) | ((if self.z {
            1u8
        } else {
            0u8
        }) << 6) | ((if self.recursion_available {
            1u8
        } else {
            0u8
        }) << 7);
        buffer.write_u8(b)?;

        buffer.write_u16(self.questions)?;
        buffer.write_u16(self.answers)?;
        buffer.write_u16(self.authoritative_entries)?;
        buffer.write_u16(self.resource_entries)?;

        proof {
            assert(a == flags_a(*self));
            assert(b == flags_b(*self));
            assert(buffer.buf@ =~= splice(buf0, pos0, header_bytes(*self)));
        }
        Ok(())
    }
}


/// A question: a domain name (lowercased on decode) and a query type.
/// Equality over (name, qtype) makes it the cache key.
#[derive(Clone, Debug, PartialEq, Eq, Hash)]
pub struct DnsQuestion {
    pub name: Vec<u8>,
    pub qtype: QueryType,
}

/// The mathematical value of a question.
pub struct QuestionView {
    pub name: Seq<u8>,
    pub qtype: QueryType,
}

impl View for DnsQuestion {
    type V = QuestionView;

    open spec fn view(&self) -> QuestionView {
        QuestionView { name: self.name@, qtype: self.qtype }
    }
}

/// The question denoted by the wire bytes at `pos`, and the cursor after it.
pub open spec fn question_from(buf: Seq<u8>, pos: int) -> Result<(QuestionView, int), DnsError> {
    match parse_name(buf, pos, 0) {
        Err(e) => Err(e),
        Ok(labels) => {
            let p = name_end(buf, pos);
            if p + 4 <= 512 {
                Ok(
                    (
                        QuestionView {
                            name: join_labels(labels),
                            qtype: qtype_of(be16(buf[p], buf[p + 1])),
                        },
                        p + 4,
                    ),
                )
            } else {
                Err(DnsError::OutOfBounds)
            }
        },
    }
}

/// The outcome of writing a question at `pos`: name, type code, then class 1.
pub open spec fn question_write_sp(buf: Seq<u8>, pos: int, q: QuestionView) -> Result<
    (Seq<u8>, int),
    DnsError,
> {
    match qname_write(buf, pos, split_labels(q.name)) {
        Err(e) => Err(e),
        Ok((b1, p1)) => if p1 + 4 <= 512 {
            Ok((splice(b1, p1, be16_bytes(qtype_num(q.qtype)) + be16_bytes(1)), p1 + 4))
        } else {
            Err(DnsError::OutOfBounds)
        },
    }
}

impl DnsQuestion {
    /// A question made of its parts.
    pub fn new(name: Vec<u8>, qtype: QueryType) -> (r: DnsQuestion)
        ensures
            r@.name == name@,
            r@.qtype == qtype,
    {
        DnsQuestion { name, qtype }
    }

    /// Decodes a question at the cursor into `self`, replacing its fields.
    /// The class field is read and ignored.
    pub fn read(&mut self, buffer: &mut BytePacketBuffer) -> (r: Result<(), DnsError>)
        requires
            old(buffer).wf(),
        ensures
            final(buffer).wf(),
            final(buffer).buf@ == old(buffer).buf@,
            match question_from(old(buffer).buf@, old(buffer).pos as int) {
                Ok((q, p)) => r == Ok::<(), DnsError>(()) && final(self)@ == q
                    && final(buffer).pos == p,
                Err(e) => r == Err::<(), DnsError>(e),
            },
    {
        let mut name: Vec<u8> = Vec::new();
        buffer.read_qname(&mut name)?;
        let qt_num: u16 = buffer.read_u16()?;
        let _class_num: u16 = buffer.read_u16()?;
        self.name = name;
        self.qtype = QueryType::from_num(qt_num);
        Ok(())
    }

    /// Encodes this question at the cursor: its name, its type code, class 1.
    pub fn write(&self, buffer: &mut BytePacketBuffer) -> (r: Result<(), DnsError>)
        requires
            old(buffer).wf(),
        ensures
            final(buffer).wf(),
            match question_write_sp(old(buffer).buf@, old(buffer).pos as int, self@) {
                Ok((b, p)) => r == Ok::<(), DnsError>(()) && final(buffer).buf@ == b
                    && final(buffer).pos == p,
                Err(e) => r == Err::<(), DnsError>(e),
            },
    {
        buffer.write_qname(&self.name)?;
        let ghost b1 = buffer.buf@;
        let ghost p1 = buffer.pos as int;
        buffer.write_u16(self.qtype.to_num())?;
        buffer.write_u16(1)?;
        proof {
            assert(buffer.buf@ =~= splice(b1, p1, be16_bytes(qtype_num(self.qtype)) + be16_bytes(
                1,
            )));
        }
        Ok(())
    }
}


/// A resource record: a tagged union over the supported record types, each
/// carrying its owning domain name and time-to-live. Unrecognized types
/// round-trip losslessly as raw bytes.
#[derive(Clone, Debug, PartialEq, Eq)]
pub enum DnsRecord {
    UNKNOWN {
        domain: Vec<u8>,
        qtype: u16,
        class: u16,
        data_len: u16,
        ttl: u32,
        data: Vec<u8>,
    },
    A {
        domain: Vec<u8>,
        addr: u32,
        ttl: u32,
    },
    NS {
        domain: Vec<u8>,
        host: Vec<u8>,
        ttl: u32,
    },
    CNAME {
        domain: Vec<u8>,
        host: Vec<u8>,
        ttl: u32,
    },
    MX {
        domain: Vec<u8>,
        priority: u16,
        host: Vec<u8>,
        ttl: u32,
    },
    AAAA {
        domain: Vec<u8>,
        a0: u32,
        a1: u32,
        a2: u32,
        a3: u32,
        ttl: u32,
    },
    SOA {
        domain: Vec<u8>,
        m_name: Vec<u8>,
        r_name: Vec<u8>,
        serial: u32,
        refresh: u32,
        retry: u32,
        expire: u32,
        minimum: u32,
        ttl: u32,
    },
}

/// The mathematical value of a resource record.
pub enum RecordView {
    UNKNOWN {
        domain: Seq<u8>,
        qtype: u16,
        class: u16,
        data_len: u16,
        ttl: u32,
        data: Seq<u8>,
    },
    A {
        domain: Seq<u8>,
        addr: u32,
        ttl: u32,
    },
    NS {
        domain: Seq<u8>,
        host: Seq<u8>,
        ttl: u32,
    },
    CNAME {
        domain: Seq<u8>,
        host: Seq<u8>,
        ttl: u32,
    },
    MX {
        domain: Seq<u8>,
        priority: u16,
        host: Seq<u8>,
        ttl: u32,
    },
    AAAA {
        domain: Seq<u8>,
        a0: u32,
        a1: u32,
        a2: u32,
        a3: u32,
        ttl: u32,
    },
    SOA {
        domain: Seq<u8>,
        m_name: Seq<u8>,
        r_name: Seq<u8>,
        serial: u32,
        refresh: u32,
        retry: u32,
        expire: u32,
        minimum: u32,
        ttl: u32,
    },
}

impl View for DnsRecord {
    type V = RecordView;

    open spec fn view(&self) -> RecordView {
        match self {
            DnsRecord::UNKNOWN { domain, qtype, class, data_len, ttl, data } => RecordView::UNKNOWN {
                domain: domain@,
                qtype: *qtype,
                class: *class,
                data_len: *data_len,
                ttl: *ttl,
                data: data@,
            },
            DnsRecord::A { domain, addr, ttl } => RecordView::A {
                domain: domain@,
                addr: *addr,
                ttl: *ttl,
            },
            DnsRecord::NS { domain, host, ttl } => RecordView::NS {
                domain: domain@,
                host: host@,
                ttl: *ttl,
            },
            DnsRecord::CNAME { domain, host, ttl } => RecordView::CNAME {
                domain: domain@,
                host: host@,
                ttl: *ttl,
            },
            DnsRecord::MX { domain, priority, host, ttl } => RecordView::MX {
                domain: domain@,
                priority: *priority,
                host: host@,
                ttl: *ttl,
            },
            DnsRecord::AAAA { domain, a0, a1, a2, a3, ttl } => RecordView::AAAA {
                domain: domain@,
                a0: *a0,
                a1: *a1,
                a2: *a2,
                a3: *a3,
                ttl: *ttl,
            },
            DnsRecord::SOA { domain, m_name, r_name, serial, refresh, retry, expire, minimum, ttl } => RecordView::SOA {
                domain: domain@,
                m_name: m_name@,
                r_name: r_name@,
                serial: *serial,
                refresh: *refresh,
                retry: *retry,
                expire: *expire,
                minimum: *minimum,
                ttl: *ttl,
            },
        }
    }
}

/// The type-specific record data at `q`, after the fixed preamble fields.
pub open spec fn rdata_from(
    buf: Seq<u8>,
    q: int,
    domain: Seq<u8>,
    qt: u16,
    class: u16,
    ttl: u32,
    dlen: u16,
) -> Result<(RecordView, int), DnsError> {
    if qt == 1 {
        if q + 4 <= 512 {
            Ok(
                (
                    RecordView::A {
                        domain,
                        addr: be32(buf[q], buf[q + 1], buf[q + 2], buf[q + 3]),
                        ttl,
                    },
                    q + 4,
                ),
            )
        } else {
            Err(DnsError::OutOfBounds)
        }
    } else if qt == 2 || qt == 5 {
        match parse_name(buf, q, 0) {
            Err(e) => Err(e),
            Ok(labels) => {
                let host = join_labels(labels);
                let e = name_end(buf, q);
                if qt == 2 {
                    Ok((RecordView::NS { domain, host, ttl }, e))
                } else {
                    Ok((RecordView::CNAME { domain, host, ttl }, e))
                }
            },
        }
    } else if qt == 15 {
        if q + 2 <= 512 {
            match parse_name(buf, q + 2, 0) {
                Err(e) => Err(e),
                Ok(labels) => Ok(
                    (
                        RecordView::MX {
                            domain,
                            priority: be16(buf[q], buf[q + 1]),
                            host: join_labels(labels),
                            ttl,
                        },
                        name_end(buf, q + 2),
                    ),
                ),
            }
        } else {
            Err(DnsError::OutOfBounds)
        }
    } else if qt == 28 {
        if q + 16 <= 512 {
            Ok(
                (
                    RecordView::AAAA {
                        domain,
                        a0: be32(buf[q], buf[q + 1], buf[q + 2], buf[q + 3]),
                        a1: be32(buf[q + 4], buf[q + 5], buf[q + 6], buf[q + 7]),
                        a2: be32(buf[q + 8], buf[q + 9], buf[q + 10], buf[q + 11]),
                        a3: be32(buf[q + 12], buf[q + 13], buf[q + 14], buf[q + 15]),
                        ttl,
                    },
                    q + 16,
                ),
            )
        } else {
            Err(DnsError::OutOfBounds)
        }
    } else if qt == 6 {
        match parse_name(buf, q, 0) {
            Err(e) => Err(e),
            Ok(m_labels) => {
                let e1 = name_end(buf, q);
                match parse_name(buf, e1, 0) {
                    Err(e) => Err(e),
                    Ok(r_labels) => {
                        let e2 = name_end(buf, e1);
                        if e2 + 20 <= 512 {
                            Ok(
                                (
                                    RecordView::SOA {
                                        domain,
                                        m_name: join_labels(m_labels),
                                        r_name: join_labels(r_labels),
                                        serial: be32(
                                            buf[e2],
                                            buf[e2 + 1],
                                            buf[e2 + 2],
                                            buf[e2 + 3],
                                        ),
                                        refresh: be32(
                                            buf[e2 + 4],
                                            buf[e2 + 5],
                                            buf[e2 + 6],
                                            buf[e2 + 7],
                                        ),
                                        retry: be32(
                                            buf[e2 + 8],
                                            buf[e2 + 9],
                                            buf[e2 + 10],
                                            buf[e2 + 11],
                                        ),
                                        expire: be32(
                                            buf[e2 + 12],
                                            buf[e2 + 13],
                                            buf[e2 + 14],
                                            buf[e2 + 15],
                                        ),
                                        minimum: be32(
                                            buf[e2 + 16],
                                            buf[e2 + 17],
                                            buf[e2 + 18],
                                            buf[e2 + 19],
                                        ),
                                        ttl,
                                    },
                                    e2 + 20,
                                ),
                            )
                        } else {
                            Err(DnsError::OutOfBounds)
                        }
                    },
                }
            },
        }
    } else {
        if q + dlen <= 512 {
            Ok(
                (
                    RecordView::UNKNOWN {
                        domain,
                        qtype: qt,
                        class,
                        data_len: dlen,
                        ttl,
                        data: buf.subrange(q, q + dlen),
                    },
                    q + dlen,
                ),
            )
        } else {
            Err(DnsError::OutOfBounds)
        }
    }
}

/// The record denoted by the wire bytes at `pos`, and the cursor after it.
pub open spec fn record_from(buf: Seq<u8>, pos: int) -> Result<(RecordView, int), DnsError> {
    match parse_name(buf, pos, 0) {
        Err(e) => Err(e),
        Ok(labels) => {
            let p = name_end(buf, pos);
            if p + 10 <= 512 {
                rdata_from(
                    buf,
                    p + 10,
                    join_labels(labels),
                    be16(buf[p], buf[p + 1]),
                    be16(buf[p + 2], buf[p + 3]),
                    be32(buf[p + 4], buf[p + 5], buf[p + 6], buf[p + 7]),
                    be16(buf[p + 8], buf[p + 9]),
                )
            } else {
                Err(DnsError::OutOfBounds)
            }
        },
    }
}

impl DnsRecord {
    /// Decodes one resource record at the cursor.
    #[verifier::rlimit(100)]
    #[verifier::spinoff_prover]
    pub fn read(buffer: &mut BytePacketBuffer) -> (r: Result<DnsRecord, DnsError>)
        requires
            old(buffer).wf(),
        ensures
            final(buffer).wf(),
            final(buffer).buf@ == old(buffer).buf@,
            match record_from(old(buffer).buf@, old(buffer).pos as int) {
                Ok((v, p)) => (r matches Ok(rec) && rec@ == v) && final(buffer).pos == p,
                Err(e) => r == Err::<DnsRecord, DnsError>(e),
            },
    {
        let mut domain: Vec<u8> = Vec::new();
        buffer.read_qname(&mut domain)?;

        let qtype_num: u16 = buffer.read_u16()?;
        let class: u16 = buffer.read_u16()?;
        let ttl: u32 = buffer.read_u32()?;
        let data_len: u16 = buffer.read_u16()?;

        let qtype = QueryType::from_num(qtype_num);
        match qtype {
            QueryType::A => {
                let addr: u32 = buffer.read_u32()?;
                Ok(DnsRecord::A { domain, addr, ttl })
            },
            QueryType::NS => {
                let mut host: Vec<u8> = Vec::new();
                buffer.read_qname(&mut host)?;
                Ok(DnsRecord::NS { domain, host, ttl })
            },
            QueryType::CNAME => {
                let mut host: Vec<u8> = Vec::new();
                buffer.read_qname(&mut host)?;
                Ok(DnsRecord::CNAME { domain, host, ttl })
            },
            QueryType::MX => {
                let priority: u16 = buffer.read_u16()?;
                let mut host: Vec<u8> = Vec::new();
                buffer.read_qname(&mut host)?;
                Ok(DnsRecord::MX { domain, priority, host, ttl })
            },
            QueryType::AAAA => {
                let a0: u32 = buffer.read_u32()?;
                let a1: u32 = buffer.read_u32()?;
                let a2: u32 = buffer.read_u32()?;
                let a3: u32 = buffer.read_u32()?;
                Ok(DnsRecord::AAAA { domain, a0, a1, a2, a3, ttl })
            },
            QueryType::SOA => {
                let mut m_name: Vec<u8> = Vec::new();
                buffer.read_qname(&mut m_name)?;
                let mut r_name: Vec<u8> = Vec::new();
                buffer.read_qname(&mut r_name)?;
                let serial: u32 = buffer.read_u32()?;
                let refresh: u32 = buffer.read_u32()?;
                let retry: u32 = buffer.read_u32()?;
                let expire: u32 = buffer.read_u32()?;
                let minimum: u32 = buffer.read_u32()?;
                Ok(
                    DnsRecord::SOA {
                        domain,
                        m_name,
                        r_name,
                        serial,
                        refresh,
                        retry,
                        expire,
                        minimum,
                        ttl,
                    },
                )
            },
            QueryType::UNKNOWN(_) => {
                let data: Vec<u8> = buffer.get_range(buffer.pos(), data_len as usize)?;
                buffer.step(data_len as usize)?;
                Ok(
                    DnsRecord::UNKNOWN {
                        domain,
                        qtype: qtype_num,
                        class,
                        data_len,
                        ttl,
                        data,
                    },
                )
            },
        }
    }
}


/// A successful name write moves the cursor forward, never past the
/// capacity, keeps the buffer length, and touches only the bytes it wrote.
pub proof fn lemma_qname_write_bounds(buf: Seq<u8>, pos: int, labels: Seq<Seq<u8>>)
    requires
        buf.len() == 512,
    ensures
        match qname_write(buf, pos, labels) {
            Ok((b, p)) => pos < p <= 512 && b.len() == buf.len() && (forall|j: int|
                0 <= j < 512 && !(pos <= j < p) ==> b[j] == buf[j]),
            Err(_) => true,
        },
    decreases labels.len(),
{
    if labels.len() == 0 {
    } else {
        let l = labels[0];
        if l.len() <= 63 && 0 <= pos && pos + 1 + l.len() <= 512 {
            let b1 = splice(buf, pos, seq![l.len() as u8] + l);
            assert(b1.len() == buf.len());
            lemma_qname_write_bounds(b1, pos + 1 + l.len(), labels.drop_first());
        }
    }
}

/// The outcome of writing a record whose data is a single name (NS or
/// CNAME): preamble with a zero length placeholder, the host name, then the
/// length backfilled in place.
pub open spec fn host_record_write_sp(
    buf: Seq<u8>,
    pos: int,
    domain: Seq<u8>,
    qt: u16,
    ttl: u32,
    host: Seq<u8>,
) -> Result<(Seq<u8>, int), DnsError> {
    match qname_write(buf, pos, split_labels(domain)) {
        Err(e) => Err(e),
        Ok((b1, p1)) => if p1 + 10 <= 512 {
            let b2 = splice(
                b1,
                p1,
                be16_bytes(qt) + be16_bytes(1) + be32_bytes(ttl) + be16_bytes(0),
            );
            match qname_write(b2, p1 + 10, split_labels(host)) {
                Err(e) => Err(e),
                Ok((b3, p2)) => Ok((splice(b3, p1 + 8, be16_bytes((p2 - (p1 + 10)) as u16)), p2)),
            }
        } else {
            Err(DnsError::OutOfBounds)
        },
    }
}

/// The outcome of writing one record at `pos`: owner name, type, class 1
/// (except UNKNOWN, which keeps its raw class), time-to-live, data length
/// and the type-specific data. Variable-length data lengths are backfilled
/// in place after the data is written.
pub open spec fn record_write_sp(buf: Seq<u8>, pos: int, r: RecordView) -> Result<
    (Seq<u8>, int),
    DnsError,
> {
    match r {
        RecordView::A { domain, addr, ttl } => match qname_write(buf, pos, split_labels(domain)) {
            Err(e) => Err(e),
            Ok((b1, p1)) => if p1 + 14 <= 512 {
                Ok(
                    (
                        splice(
                            b1,
                            p1,
                            be16_bytes(1) + be16_bytes(1) + be32_bytes(ttl) + be16_bytes(4)
                                + be32_bytes(addr),
                        ),
                        p1 + 14,
                    ),
                )
            } else {
                Err(DnsError::OutOfBounds)
            },
        },
        RecordView::NS { domain, host, ttl } => host_record_write_sp(buf, pos, domain, 2, ttl, host),
        RecordView::CNAME { domain, host, ttl } => host_record_write_sp(
            buf,
            pos,
            domain,
            5,
            ttl,
            host,
        ),
        RecordView::MX { domain, priority, host, ttl } => match qname_write(
            buf,
            pos,
            split_labels(domain),
        ) {
            Err(e) => Err(e),
            Ok((b1, p1)) => if p1 + 12 <= 512 {
                let b2 = splice(
                    b1,
                    p1,
                    be16_bytes(15) + be16_bytes(1) + be32_bytes(ttl) + be16_bytes(0) + be16_bytes(
                        priority,
                    ),
                );
                match qname_write(b2, p1 + 12, split_labels(host)) {
                    Err(e) => Err(e),
                    Ok((b3, p2)) => Ok(
                        (splice(b3, p1 + 8, be16_bytes((p2 - (p1 + 10)) as u16)), p2),
                    ),
                }
            } else {
                Err(DnsError::OutOfBounds)
            },
        },
        RecordView::AAAA { domain, a0, a1, a2, a3, ttl } => match qname_write(
            buf,
            pos,
            split_labels(domain),
        ) {
            Err(e) => Err(e),
            Ok((b1, p1)) => if p1 + 26 <= 512 {
                Ok(
                    (
                        splice(
                            b1,
                            p1,
                            be16_bytes(28) + be16_bytes(1) + be32_bytes(ttl) + be16_bytes(16)
                                + be32_bytes(a0) + be32_bytes(a1) + be32_bytes(a2) + be32_bytes(
                                a3,
                            ),
                        ),
                        p1 + 26,
                    ),
                )
            } else {
                Err(DnsError::OutOfBounds)
            },
        },
        RecordView::SOA { domain, m_name, r_name, serial, refresh, retry, expire, minimum, ttl } => match qname_write(
            buf,
            pos,
            split_labels(domain),
        ) {
            Err(e) => Err(e),
            Ok((b1, p1)) => if p1 + 10 <= 512 {
                let b2 = splice(
                    b1,
                    p1,
                    be16_bytes(6) + be16_bytes(1) + be32_bytes(ttl) + be16_bytes(0),
                );
                match qname_write(b2, p1 + 10, split_labels(m_name)) {
                    Err(e) => Err(e),
                    Ok((b3, p2)) => match qname_write(b3, p2, split_labels(r_name)) {
                        Err(e) => Err(e),
                        Ok((b4, p3)) => if p3 + 20 <= 512 {
                            let b5 = splice(
                                b4,
                                p3,
                                be32_bytes(serial) + be32_bytes(refresh) + be32_bytes(retry)
                                    + be32_bytes(expire) + be32_bytes(minimum),
                            );
                            Ok(
                                (
                                    splice(
                                        b5,
                                        p1 + 8,
                                        be16_bytes((p3 + 20 - (p1 + 10)) as u16),
                                    ),
                                    p3 + 20,
                                ),
                            )
                        } else {
                            Err(DnsError::OutOfBounds)
                        },
                    },
                }
            } else {
                Err(DnsError::OutOfBounds)
            },
        },
        RecordView::UNKNOWN { domain, qtype, class, data_len, ttl, data } => match qname_write(
            buf,
            pos,
            split_labels(domain),
        ) {
            Err(e) => Err(e),
            Ok((b1, p1)) => if p1 + 10 + data.len() <= 512 {
                Ok(
                    (
                        splice(
                            b1,
                            p1,
                            be16_bytes(qtype) + be16_bytes(class) + be32_bytes(ttl) + be16_bytes(
                                data.len() as u16,
                            ) + data,
                        ),
                        p1 + 10 + data.len(),
                    ),
                )
            } else {
                Err(DnsError::OutOfBounds)
            },
        },
    }
}

fn write_host_record(
    buffer: &mut BytePacketBuffer,
    domain: &Vec<u8>,
    qt: u16,
    ttl: u32,
    host: &Vec<u8>,
) -> (r: Result<(), DnsError>)
    requires
        old(buffer).wf(),
    ensures
        final(buffer).wf(),
        match host_record_write_sp(old(buffer).buf@, old(buffer).pos as int, domain@, qt, ttl, host@) {
            Ok((b, p)) => r == Ok::<(), DnsError>(()) && final(buffer).buf@ == b
                && final(buffer).pos == p,
            Err(e) => r == Err::<(), DnsError>(e),
        },
{
    buffer.write_qname(domain)?;
    let ghost b1 = buffer.buf@;
    let ghost p1 = buffer.pos as int;
    buffer.write_u16(qt)?;
    buffer.write_u16(1)?;
    buffer.write_u32(ttl)?;
    let len_pos: usize = buffer.pos();
    buffer.write_u16(0)?;
    proof {
        assert(buffer.buf@ =~= splice(
            b1,
            p1,
            be16_bytes(qt) + be16_bytes(1) + be32_bytes(ttl) + be16_bytes(0),
        ));
        lemma_qname_write_bounds(buffer.buf@, buffer.pos as int, split_labels(host@));
    }
    buffer.write_qname(host)?;
    let end: usize = buffer.pos();
    let size: usize = end - (len_pos + 2);
    buffer.set_u16(len_pos, size as u16)?;
    Ok(())
}

fn write_mx_record(
    buffer: &mut BytePacketBuffer,
    domain: &Vec<u8>,
    priority: u16,
    host: &Vec<u8>,
    ttl: u32,
) -> (r: Result<(), DnsError>)
    requires
        old(buffer).wf(),
    ensures
        final(buffer).wf(),
        match record_write_sp(
            old(buffer).buf@,
            old(buffer).pos as int,
            RecordView::MX { domain: domain@, priority, host: host@, ttl },
        ) {
            Ok((b, p)) => r == Ok::<(), DnsError>(()) && final(buffer).buf@ == b
                && final(buffer).pos == p,
            Err(e) => r == Err::<(), DnsError>(e),
        },
{
    buffer.write_qname(domain)?;
    let ghost b1 = buffer.buf@;
    let ghost p1 = buffer.pos as int;
    buffer.write_u16(15)?;
    buffer.write_u16(1)?;
    buffer.write_u32(ttl)?;
    let len_pos: usize = buffer.pos();
    buffer.write_u16(0)?;
    buffer.write_u16(priority)?;
    proof {
        assert(buffer.buf@ =~= splice(
            b1,
            p1,
            be16_bytes(15) + be16_bytes(1) + be32_bytes(ttl) + be16_bytes(0) + be16_bytes(
                priority,
            ),
        ));
        lemma_qname_write_bounds(buffer.buf@, buffer.pos as int, split_labels(host@));
    }
    buffer.write_qname(host)?;
    let end: usize = buffer.pos();
    let size: usize = end - (len_pos + 2);
    buffer.set_u16(len_pos, size as u16)?;
    Ok(())
}

#[verifier::rlimit(50)]
fn write_soa_record(
    buffer: &mut BytePacketBuffer,
    domain: &Vec<u8>,
    m_name: &Vec<u8>,
    r_name: &Vec<u8>,
    serial: u32,
    refresh: u32,
    retry: u32,
    expire: u32,
    minimum: u32,
    ttl: u32,
) -> (r: Result<(), DnsError>)
    requires
        old(buffer).wf(),
    ensures
        final(buffer).wf(),
        match record_write_sp(
            old(buffer).buf@,
            old(buffer).pos as int,
            RecordView::SOA {
                domain: domain@,
                m_name: m_name@,
                r_name: r_name@,
                serial,
                refresh,
                retry,
                expire,
                minimum,
                ttl,
            },
        ) {
            Ok((b, p)) => r == Ok::<(), DnsError>(()) && final(buffer).buf@ == b
                && final(buffer).pos == p,
            Err(e) => r == Err::<(), DnsError>(e),
        },
{
    buffer.write_qname(domain)?;
    let ghost b1 = buffer.buf@;
    let ghost p1 = buffer.pos as int;
    buffer.write_u16(6)?;
    buffer.write_u16(1)?;
    buffer.write_u32(ttl)?;
    let len_pos: usize = buffer.pos();
    buffer.write_u16(0)?;
    proof {
        assert(buffer.buf@ =~= splice(
            b1,
            p1,
            be16_bytes(6) + be16_bytes(1) + be32_bytes(ttl) + be16_bytes(0),
        ));
        lemma_qname_write_bounds(buffer.buf@, buffer.pos as int, split_labels(m_name@));
    }
    buffer.write_qname(m_name)?;
    proof {
        lemma_qname_write_bounds(buffer.buf@, buffer.pos as int, split_labels(r_name@));
    }
    buffer.write_qname(r_name)?;
    let ghost b4 = buffer.buf@;
    let ghost p3 = buffer.pos as int;
    buffer.write_u32(serial)?;
    buffer.write_u32(refresh)?;
    buffer.write_u32(retry)?;
    buffer.write_u32(expire)?;
    buffer.write_u32(minimum)?;
    proof {
        assert(buffer.buf@ =~= splice(
            b4,
            p3,
            be32_bytes(serial) + be32_bytes(refresh) + be32_bytes(retry) + be32_bytes(expire)
                + be32_bytes(minimum),
        ));
    }
    let end: usize = buffer.pos();
    let size: usize = end - (len_pos + 2);
    buffer.set_u16(len_pos, size as u16)?;
    Ok(())
}

#[verifier::loop_isolation(false)]
fn write_unknown_record(
    buffer: &mut BytePacketBuffer,
    domain: &Vec<u8>,
    qtype: u16,
    class: u16,
    data: &Vec<u8>,
    ttl: u32,
    Ghost(data_len): Ghost<u16>,
) -> (r: Result<(), DnsError>)
    requires
        old(buffer).wf(),
    ensures
        final(buffer).wf(),
        match record_write_sp(
            old(buffer).buf@,
            old(buffer).pos as int,
            RecordView::UNKNOWN {
                domain: domain@,
                qtype,
                class,
                data_len,
                ttl,
                data: data@,
            },
        ) {
            Ok((b, p)) => r == Ok::<(), DnsError>(()) && final(buffer).buf@ == b
                && final(buffer).pos == p,
            Err(e) => r == Err::<(), DnsError>(e),
        },
{
    buffer.write_qname(domain)?;
    let ghost b1 = buffer.buf@;
    let ghost p1 = buffer.pos as int;
    buffer.write_u16(qtype)?;
    buffer.write_u16(class)?;
    buffer.write_u32(ttl)?;
    buffer.write_u16(#[verifier::truncate] (data.len() as u16))?;
    let ghost b2 = buffer.buf@;
    let ghost p2 = buffer.pos as int;
    let mut j: usize = 0;
    while j < data.len()
        invariant
            j <= data@.len(),
            buffer.wf(),
            p2 + j <= 512,
            buffer.pos == p2 + j,
            buffer.buf@ == splice(b2, p2, data@.take(j as int)),
        decreases data@.len() - j,
    {
        match buffer.write_u8(data[j]) {
            Ok(_) => {},
            Err(e) => {
                return Err(e);
            },
        }
        proof {
            assert(buffer.buf@ =~= splice(b2, p2, data@.take(j + 1)));
        }
        j = j + 1;
    }
    proof {
        assert(data@.take(data@.len() as int) =~= data@);
        assert(buffer.buf@ =~= splice(
            b1,
            p1,
            be16_bytes(qtype) + be16_bytes(class) + be32_bytes(ttl) + be16_bytes(
                data@.len() as u16,
            ) + data@,
        ));
    }
    Ok(())
}

impl DnsRecord {
    /// Encodes this record at the cursor.
    #[verifier::rlimit(50)]
    pub fn write(&self, buffer: &mut BytePacketBuffer) -> (r: Result<(), DnsError>)
        requires
            old(buffer).wf(),
        ensures
            final(buffer).wf(),
            match record_write_sp(old(buffer).buf@, old(buffer).pos as int, self@) {
                Ok((b, p)) => r == Ok::<(), DnsError>(()) && final(buffer).buf@ == b
                    && final(buffer).pos == p,
                Err(e) => r == Err::<(), DnsError>(e),
            },
    {
        match self {
            DnsRecord::A { domain, addr, ttl } => {
                buffer.write_qname(domain)?;
                let ghost b1 = buffer.buf@;
                let ghost p1 = buffer.pos as int;
                buffer.write_u16(1)?;
                buffer.write_u16(1)?;
                buffer.write_u32(*ttl)?;
                buffer.write_u16(4)?;
                buffer.write_u32(*addr)?;
                proof {
                    assert(buffer.buf@ =~= splice(
                        b1,
                        p1,
                        be16_bytes(1) + be16_bytes(1) + be32_bytes(*ttl) + be16_bytes(4)
                            + be32_bytes(*addr),
                    ));
                }
                Ok(())
            },
            DnsRecord::NS { domain, host, ttl } => write_host_record(
                buffer,
                domain,
                2,
                *ttl,
                host,
            ),
            DnsRecord::CNAME { domain, host, ttl } => write_host_record(
                buffer,
                domain,
                5,
                *ttl,
                host,
            ),
            DnsRecord::MX { domain, priority, host, ttl } => write_mx_record(
                buffer,
                domain,
                *priority,
                host,
                *ttl,
            ),
            DnsRecord::AAAA { domain, a0, a1, a2, a3, ttl } => {
                buffer.write_qname(domain)?;
                let ghost b1 = buffer.buf@;
                let ghost p1 = buffer.pos as int;
                buffer.write_u16(28)?;
                buffer.write_u16(1)?;
                buffer.write_u32(*ttl)?;
                buffer.write_u16(16)?;
                buffer.write_u32(*a0)?;
                buffer.write_u32(*a1)?;
                buffer.write_u32(*a2)?;
                buffer.write_u32(*a3)?;
                proof {
                    assert(buffer.buf@ =~= splice(
                        b1,
                        p1,
                        be16_bytes(28) + be16_bytes(1) + be32_bytes(*ttl) + be16_bytes(16)
                            + be32_bytes(*a0) + be32_bytes(*a1) + be32_bytes(*a2) + be32_bytes(
                            *a3,
                        ),
                    ));
                }
                Ok(())
            },
            DnsRecord::SOA {
                domain,
                m_name,
                r_name,
                serial,
                refresh,
                retry,
                expire,
                minimum,
                ttl,
            } => write_soa_record(
                buffer,
                domain,
                m_name,
                r_name,
                *serial,
                *refresh,
                *retry,
                *expire,
                *minimum,
                *ttl,
            ),
            DnsRecord::UNKNOWN { domain, qtype, class, data_len, ttl, data } => write_unknown_record(
                buffer,
                domain,
                *qtype,
                *class,
                data,
                *ttl,
                Ghost(*data_len),
            ),
        }
    }
}


/// The views of a sequence of questions.
pub open spec fn question_views(qs: Seq<DnsQuestion>) -> Seq<QuestionView> {
    qs.map_values(|q: DnsQuestion| q@)
}

/// The views of a sequence of records.
pub open spec fn record_views(rs: Seq<DnsRecord>) -> Seq<RecordView> {
    rs.map_values(|r: DnsRecord| r@)
}

/// A whole DNS message: header, questions and the three record sections.
#[derive(Clone, Debug, PartialEq, Eq)]
pub struct DnsPacket {
    pub header: DnsHeader,
    pub questions: Vec<DnsQuestion>,
    pub answers: Vec<DnsRecord>,
    pub authorities: Vec<DnsRecord>,
    pub resources: Vec<DnsRecord>,
}

/// The mathematical value of a message.
#[verifier::ext_equal]
pub struct PacketView {
    pub header: DnsHeader,
    pub questions: Seq<QuestionView>,
    pub answers: Seq<RecordView>,
    pub authorities: Seq<RecordView>,
    pub resources: Seq<RecordView>,
}

impl View for DnsPacket {
    type V = PacketView;

    open spec fn view(&self) -> PacketView {
        PacketView {
            header: self.header,
            questions: question_views(self.questions@),
            answers: record_views(self.answers@),
            authorities: record_views(self.authorities@),
            resources: record_views(self.resources@),
        }
    }
}

/// Prepends already-decoded items to the outcome of decoding the rest.
pub open spec fn prepend_parsed<T>(done: Seq<T>, r: Result<(Seq<T>, int), DnsError>) -> Result<
    (Seq<T>, int),
    DnsError,
> {
    match r {
        Ok((rest, p)) => Ok((done + rest, p)),
        Err(e) => Err(e),
    }
}

proof fn lemma_prepend_parsed_empty<T>(r: Result<(Seq<T>, int), DnsError>)
    ensures
        prepend_parsed(Seq::empty(), r) == r,
{
    match r {
        Ok((rest, p)) => {
            assert(Seq::<T>::empty() + rest =~= rest);
        },
        Err(_) => {},
    }
}

proof fn lemma_prepend_parsed_push<T>(done: Seq<T>, x: T, r: Result<(Seq<T>, int), DnsError>)
    ensures
        prepend_parsed(done, prepend_parsed(seq![x], r)) == prepend_parsed(done.push(x), r),
{
    match r {
        Ok((rest, p)) => {
            assert(done + (seq![x] + rest) =~= done.push(x) + rest);
        },
        Err(_) => {},
    }
}

/// The first `n` questions decoded from `pos`, and the cursor after them.
pub open spec fn questions_from(buf: Seq<u8>, pos: int, n: int) -> Result<
    (Seq<QuestionView>, int),
    DnsError,
>
    decreases n,
{
    if n <= 0 {
        Ok((Seq::empty(), pos))
    } else {
        match question_from(buf, pos) {
            Err(e) => Err(e),
            Ok((q, p)) => prepend_parsed(seq![q], questions_from(buf, p, n - 1)),
        }
    }
}

/// The first `n` records decoded from `pos`, and the cursor after them.
pub open spec fn records_from(buf: Seq<u8>, pos: int, n: int) -> Result<
    (Seq<RecordView>, int),
    DnsError,
>
    decreases n,
{
    if n <= 0 {
        Ok((Seq::empty(), pos))
    } else {
        match record_from(buf, pos) {
            Err(e) => Err(e),
            Ok((v, p)) => prepend_parsed(seq![v], records_from(buf, p, n - 1)),
        }
    }
}

/// The message denoted by the wire bytes at `pos`. The header's section
/// counts drive how many elements are decoded. A failing record aborts the
/// whole decode as `MalformedRecord`; header and question failures keep
/// their own error.
pub open spec fn packet_from(buf: Seq<u8>, pos: int) -> Result<(PacketView, int), DnsError> {
    if pos + 12 > 512 {
        Err(DnsError::OutOfBounds)
    } else {
        let h = header_from(buf, pos);
        match questions_from(buf, pos + 12, h.questions as int) {
            Err(e) => Err(e),
            Ok((qs, p1)) => match records_from(buf, p1, h.answers as int) {
                Err(_) => Err(DnsError::MalformedRecord),
                Ok((ans, p2)) => match records_from(buf, p2, h.authoritative_entries as int) {
                    Err(_) => Err(DnsError::MalformedRecord),
                    Ok((auth, p3)) => match records_from(buf, p3, h.resource_entries as int) {
                        Err(_) => Err(DnsError::MalformedRecord),
                        Ok((res, p4)) => Ok(
                            (
                                PacketView {
                                    header: h,
                                    questions: qs,
                                    answers: ans,
                                    authorities: auth,
                                    resources: res,
                                },
                                p4,
                            ),
                        ),
                    },
                },
            },
        }
    }
}

/// The outcome of writing the questions in order.
pub open spec fn questions_write_sp(buf: Seq<u8>, pos: int, qs: Seq<QuestionView>) -> Result<
    (Seq<u8>, int),
    DnsError,
>
    decreases qs.len(),
{
    if qs.len() == 0 {
        Ok((buf, pos))
    } else {
        match question_write_sp(buf, pos, qs[0]) {
            Err(e) => Err(e),
            Ok((b, p)) => questions_write_sp(b, p, qs.drop_first()),
        }
    }
}

/// The outcome of writing the records in order.
pub open spec fn records_write_sp(buf: Seq<u8>, pos: int, rs: Seq<RecordView>) -> Result<
    (Seq<u8>, int),
    DnsError,
>
    decreases rs.len(),
{
    if rs.len() == 0 {
        Ok((buf, pos))
    } else {
        match record_write_sp(buf, pos, rs[0]) {
            Err(e) => Err(e),
            Ok((b, p)) => records_write_sp(b, p, rs.drop_first()),
        }
    }
}

/// The header with its section counts derived from the actual sections.
pub open spec fn counted_header(pv: PacketView) -> DnsHeader {
    DnsHeader {
        id: pv.header.id,
        recursion_desired: pv.header.recursion_desired,
        truncated_message: pv.header.truncated_message,
        authoritative_answer: pv.header.authoritative_answer,
        opcode: pv.header.opcode,
        response: pv.header.response,
        rescode: pv.header.rescode,
        checking_disabled: pv.header.checking_disabled,
        authed_data: pv.header.authed_data,
        z: pv.header.z,
        recursion_available: pv.header.recursion_available,
        questions: pv.questions.len() as u16,
        answers: pv.answers.len() as u16,
        authoritative_entries: pv.authorities.len() as u16,
        resource_entries: pv.resources.len() as u16,
    }
}

/// The outcome of writing a whole message at `pos`: a header whose counts
/// are recomputed from the sections, then each section in order.
pub open spec fn packet_write_sp(buf: Seq<u8>, pos: int, pv: PacketView) -> Result<
    (Seq<u8>, int),
    DnsError,
> {
    let h = counted_header(pv);
    if pos + 12 > 512 {
        Err(DnsError::OutOfBounds)
    } else {
        match questions_write_sp(splice(buf, pos, header_bytes(h)), pos + 12, pv.questions) {
            Err(e) => Err(e),
            Ok((b1, p1)) => match records_write_sp(b1, p1, pv.answers) {
                Err(e) => Err(e),
                Ok((b2, p2)) => match records_write_sp(b2, p2, pv.authorities) {
                    Err(e) => Err(e),
                    Ok((b3, p3)) => records_write_sp(b3, p3, pv.resources),
                },
            },
        }
    }
}

impl DnsPacket {
    /// An empty message with an empty header.
    pub fn new() -> (r: DnsPacket)
        ensures
            r.header == DnsHeader::empty_spec(),
            r@.questions =~= Seq::<QuestionView>::empty(),
            r@.answers =~= Seq::<RecordView>::empty(),
            r@.authorities =~= Seq::<RecordView>::empty(),
            r@.resources =~= Seq::<RecordView>::empty(),
    {
        DnsPacket {
            header: DnsHeader::new(),
            questions: Vec::new(),
            answers: Vec::new(),
            authorities: Vec::new(),
            resources: Vec::new(),
        }
    }

    /// Decodes a whole message starting at the buffer's cursor.
    #[verifier::loop_isolation(false)]
    #[verifier::rlimit(100)]
    #[verifier::spinoff_prover]
    pub fn from_buffer(buffer: &mut BytePacketBuffer) -> (r: Result<DnsPacket, DnsError>)
        requires
            old(buffer).wf(),
        ensures
            final(buffer).wf(),
            final(buffer).buf@ == old(buffer).buf@,
            match packet_from(old(buffer).buf@, old(buffer).pos as int) {
                Ok((pv, p)) => (r matches Ok(pk) && pk@ == pv) && final(buffer).pos == p,
                Err(e) => r == Err::<DnsPacket, DnsError>(e),
            },
    {
        let ghost buf0 = buffer.buf@;
        let ghost pos0 = buffer.pos as int;

        let mut header = DnsHeader::new();
        header.read(buffer)?;

        let mut questions: Vec<DnsQuestion> = Vec::new();
        let qn: u16 = header.questions;
        let ghost qstart = buffer.pos as int;
        proof {
            lemma_prepend_parsed_empty(questions_from(buf0, qstart, qn as int));
        }
        let mut i: usize = 0;
        while i < qn as usize
            invariant
                i <= qn,
                buffer.wf(),
                buffer.buf@ == buf0,
                questions@.len() == i,
                questions_from(buf0, qstart, qn as int) == prepend_parsed(
                    question_views(questions@),
                    questions_from(buf0, buffer.pos as int, qn - i),
                ),
            decreases qn - i,
        {
            let mut question = DnsQuestion::new(Vec::new(), QueryType::UNKNOWN(0));
            question.read(buffer)?;
            proof {
                let ghost qv = question@;
                lemma_prepend_parsed_push(
                    question_views(questions@),
                    qv,
                    questions_from(buf0, buffer.pos as int, qn - i - 1),
                );
                assert(question_views(questions@.push(question)) =~= question_views(
                    questions@,
                ).push(qv));
            }
            questions.push(question);
            i = i + 1;
        }

        let answers = read_records(buffer, header.answers)?;
        let authorities = read_records(buffer, header.authoritative_entries)?;
        let resources = read_records(buffer, header.resource_entries)?;

        Ok(DnsPacket { header, questions, answers, authorities, resources })
    }
}

/// Decodes `n` records in sequence, mapping any failure to
/// `MalformedRecord`.
#[verifier::loop_isolation(false)]
fn read_records(buffer: &mut BytePacketBuffer, n: u16) -> (r: Result<Vec<DnsRecord>, DnsError>)
    requires
        old(buffer).wf(),
    ensures
        final(buffer).wf(),
        final(buffer).buf@ == old(buffer).buf@,
        match records_from(old(buffer).buf@, old(buffer).pos as int, n as int) {
            Ok((vs, p)) => (r matches Ok(recs) && record_views(recs@) == vs) && final(buffer).pos
                == p,
            Err(_) => r == Err::<Vec<DnsRecord>, DnsError>(DnsError::MalformedRecord),
        },
{
    let ghost buf0 = buffer.buf@;
    let ghost pos0 = buffer.pos as int;
    let mut records: Vec<DnsRecord> = Vec::new();
    proof {
        lemma_prepend_parsed_empty(records_from(buf0, pos0, n as int));
    }
    let mut i: usize = 0;
    while i < n as usize
        invariant
            i <= n,
            buffer.wf(),
            buffer.buf@ == buf0,
            records@.len() == i,
            records_from(buf0, pos0, n as int) == prepend_parsed(
                record_views(records@),
                records_from(buf0, buffer.pos as int, n - i),
            ),
        decreases n - i,
    {
        let rec = match DnsRecord::read(buffer) {
            Ok(rec) => rec,
            Err(_) => {
                return Err(DnsError::MalformedRecord);
            },
        };
        proof {
            let ghost rv = rec@;
            lemma_prepend_parsed_push(
                record_views(records@),
                rv,
                records_from(buf0, buffer.pos as int, n - i - 1),
            );
            assert(record_views(records@.push(rec)) =~= record_views(records@).push(rv));
        }
        records.push(rec);
        i = i + 1;
    }
    proof {
        assert(record_views(records@) + Seq::<RecordView>::empty() =~= record_views(records@));
    }
    Ok(records)
}


/// Writes the questions of a message in order.
#[verifier::loop_isolation(false)]
fn write_questions(buffer: &mut BytePacketBuffer, questions: &Vec<DnsQuestion>) -> (r: Result<
    (),
    DnsError,
>)
    requires
        old(buffer).wf(),
    ensures
        final(buffer).wf(),
        match questions_write_sp(old(buffer).buf@, old(buffer).pos as int, question_views(
            questions@,
        )) {
            Ok((b, p)) => r == Ok::<(), DnsError>(()) && final(buffer).buf@ == b
                && final(buffer).pos == p,
            Err(e) => r == Err::<(), DnsError>(e),
        },
{
    let ghost buf0 = buffer.buf@;
    let ghost pos0 = buffer.pos as int;
    let ghost views = question_views(questions@);
    proof {
        assert(views.skip(0) =~= views);
    }
    let mut i: usize = 0;
    while i < questions.len()
        invariant
            i <= questions@.len(),
            buffer.wf(),
            questions_write_sp(buf0, pos0, views) == questions_write_sp(
                buffer.buf@,
                buffer.pos as int,
                views.skip(i as int),
            ),
        decreases questions@.len() - i,
    {
        proof {
            assert(views.skip(i as int)[0] == questions@[i as int]@);
        }
        match questions[i].write(buffer) {
            Ok(_) => {},
            Err(e) => {
                return Err(e);
            },
        }
        proof {
            assert(views.skip(i as int).drop_first() =~= views.skip(i + 1));
        }
        i = i + 1;
    }
    Ok(())
}

/// Writes a section of records in order.
#[verifier::loop_isolation(false)]
fn write_records(buffer: &mut BytePacketBuffer, records: &Vec<DnsRecord>) -> (r: Result<
    (),
    DnsError,
>)
    requires
        old(buffer).wf(),
    ensures
        final(buffer).wf(),
        match records_write_sp(old(buffer).buf@, old(buffer).pos as int, record_views(records@)) {
            Ok((b, p)) => r == Ok::<(), DnsError>(()) && final(buffer).buf@ == b
                && final(buffer).pos == p,
            Err(e) => r == Err::<(), DnsError>(e),
        },
{
    let ghost buf0 = buffer.buf@;
    let ghost pos0 = buffer.pos as int;
    let ghost views = record_views(records@);
    proof {
        assert(views.skip(0) =~= views);
    }
    let mut i: usize = 0;
    while i < records.len()
        invariant
            i <= records@.len(),
            buffer.wf(),
            records_write_sp(buf0, pos0, views) == records_write_sp(
                buffer.buf@,
                buffer.pos as int,
                views.skip(i as int),
            ),
        decreases records@.len() - i,
    {
        proof {
            assert(views.skip(i as int)[0] == records@[i as int]@);
        }
        match records[i].write(buffer) {
            Ok(_) => {},
            Err(e) => {
                return Err(e);
            },
        }
        proof {
            assert(views.skip(i as int).drop_first() =~= views.skip(i + 1));
        }
        i = i + 1;
    }
    Ok(())
}

impl DnsPacket {
    /// Encodes this message at the buffer's cursor, first deriving the
    /// header's section counts from the actual section lengths.
    #[verifier::rlimit(50)]
    pub fn write(&mut self, buffer: &mut BytePacketBuffer) -> (r: Result<(), DnsError>)
        requires
            old(buffer).wf(),
            old(self).questions@.len() <= 0xFFFF,
            old(self).answers@.len() <= 0xFFFF,
            old(self).authorities@.len() <= 0xFFFF,
            old(self).resources@.len() <= 0xFFFF,
        ensures
            final(buffer).wf(),
            final(self).header == counted_header(old(self)@),
            final(self).questions == old(self).questions,
            final(self).answers == old(self).answers,
            final(self).authorities == old(self).authorities,
            final(self).resources == old(self).resources,
            match packet_write_sp(old(buffer).buf@, old(buffer).pos as int, old(self)@) {
                Ok((b, p)) => r == Ok::<(), DnsError>(()) && final(buffer).buf@ == b
                    && final(buffer).pos == p,
                Err(e) => r == Err::<(), DnsError>(e),
            },
    {
        self.header.questions = self.questions.len() as u16;
        self.header.answers = self.answers.len() as u16;
        self.header.authoritative_entries = self.authorities.len() as u16;
        self.header.resource_entries = self.resources.len() as u16;

        proof {
            assert(self.header == counted_header(old(self)@));
        }

        self.header.write(buffer)?;
        write_questions(buffer, &self.questions)?;
        write_records(buffer, &self.answers)?;
        write_records(buffer, &self.authorities)?;
        write_records(buffer, &self.resources)?;
        Ok(())
    }
}


/// Whether `domain` names the question's zone or an enclosing one: the
/// question name equals `domain`, or ends with it right after a dot. This
/// is the test that makes an NS record a candidate for a question name.
pub open spec fn is_suffix(qname: Seq<u8>, domain: Seq<u8>) -> bool {
    &&& domain.len() <= qname.len()
    &&& qname.skip(qname.len() - domain.len()) == domain
    &&& (domain.len() < qname.len() ==> qname[qname.len() - domain.len() - 1] == 46)
}

/// The address of the first A record among `answers`.
pub open spec fn first_a_addr(recs: Seq<RecordView>) -> Option<u32>
    decreases recs.len(),
{
    if recs.len() == 0 {
        None
    } else {
        match recs[0] {
            RecordView::A { addr, .. } => Some(addr),
            _ => first_a_addr(recs.drop_first()),
        }
    }
}

/// The address of the first A record in `res` that belongs to `host`.
pub open spec fn a_for_host(res: Seq<RecordView>, host: Seq<u8>) -> Option<u32>
    decreases res.len(),
{
    if res.len() == 0 {
        None
    } else {
        match res[0] {
            RecordView::A { domain, addr, .. } => if domain == host {
                Some(addr)
            } else {
                a_for_host(res.drop_first(), host)
            },
            _ => a_for_host(res.drop_first(), host),
        }
    }
}

/// The glue address of the first candidate NS record: the first authority
/// NS whose owner is a suffix of `qname` and whose target host has an A
/// record in the additional section.
pub open spec fn resolved_ns(auth: Seq<RecordView>, res: Seq<RecordView>, qname: Seq<u8>) -> Option<
    u32,
>
    decreases auth.len(),
{
    if auth.len() == 0 {
        None
    } else {
        match auth[0] {
            RecordView::NS { domain, host, .. } => if is_suffix(qname, domain) {
                match a_for_host(res, host) {
                    Some(ip) => Some(ip),
                    None => resolved_ns(auth.drop_first(), res, qname),
                }
            } else {
                resolved_ns(auth.drop_first(), res, qname)
            },
            _ => resolved_ns(auth.drop_first(), res, qname),
        }
    }
}

/// The target host of the first candidate NS record, glued or not.
pub open spec fn unresolved_ns(auth: Seq<RecordView>, qname: Seq<u8>) -> Option<Seq<u8>>
    decreases auth.len(),
{
    if auth.len() == 0 {
        None
    } else {
        match auth[0] {
            RecordView::NS { domain, host, .. } => if is_suffix(qname, domain) {
                Some(host)
            } else {
                unresolved_ns(auth.drop_first(), qname)
            },
            _ => unresolved_ns(auth.drop_first(), qname),
        }
    }
}

/// Whether two byte vectors hold the same bytes.
pub fn bytes_eq(a: &Vec<u8>, b: &Vec<u8>) -> (r: bool)
    ensures
        r == (a@ == b@),
{
    if a.len() != b.len() {
        return false;
    }
    let mut i: usize = 0;
    while i < a.len()
        invariant
            a@.len() == b@.len(),
            i <= a@.len(),
            forall|j: int| 0 <= j < i ==> a@[j] == b@[j],
        decreases a@.len() - i,
    {
        if a[i] != b[i] {
            return false;
        }
        i = i + 1;
    }
    proof {
        assert(a@ =~= b@);
    }
    true
}

/// Whether `qname` equals `domain` or ends with it on a label boundary.
#[verifier::loop_isolation(false)]
fn ends_with(qname: &Vec<u8>, domain: &Vec<u8>) -> (r: bool)
    ensures
        r == is_suffix(qname@, domain@),
{
    if domain.len() > qname.len() {
        return false;
    }
    let off: usize = qname.len() - domain.len();
    if off > 0 && qname[off - 1] != 46 {
        return false;
    }
    let mut i: usize = 0;
    while i < domain.len()
        invariant
            domain@.len() <= qname@.len(),
            off == qname@.len() - domain@.len(),
            i <= domain@.len(),
            forall|j: int| 0 <= j < i ==> qname@[off + j] == domain@[j],
        decreases domain@.len() - i,
    {
        if qname[off + i] != domain[i] {
            proof {
                assert(qname@.skip(off as int)[i as int] != domain@[i as int]);
            }
            return false;
        }
        i = i + 1;
    }
    proof {
        assert(qname@.skip(off as int) =~= domain@);
    }
    true
}

/// The first A record in `res` owned by `host`, if any.
#[verifier::loop_isolation(false)]
fn find_a_for_host(res: &Vec<DnsRecord>, host: &Vec<u8>) -> (r: Option<u32>)
    ensures
        r == a_for_host(record_views(res@), host@),
{
    let ghost views = record_views(res@);
    proof {
        assert(views.skip(0) =~= views);
    }
    let mut i: usize = 0;
    while i < res.len()
        invariant
            i <= res@.len(),
            a_for_host(views, host@) == a_for_host(views.skip(i as int), host@),
        decreases res@.len() - i,
    {
        proof {
            assert(views.skip(i as int)[0] == res@[i as int]@);
            assert(views.skip(i as int).drop_first() =~= views.skip(i + 1));
        }
        match &res[i] {
            DnsRecord::A { domain, addr, ttl: _ } => {
                if bytes_eq(domain, host) {
                    return Some(*addr);
                }
            },
            _ => {},
        }
        i = i + 1;
    }
    None
}

impl DnsPacket {
    /// The address of the first A record among the answers, the pick this
    /// resolver uses when it has chased a nameserver name.
    #[verifier::loop_isolation(false)]
    pub fn get_random_a(&self) -> (r: Option<u32>)
        ensures
            r == first_a_addr(self@.answers),
    {
        let ghost views = record_views(self.answers@);
        proof {
            assert(views.skip(0) =~= views);
        }
        let mut i: usize = 0;
        while i < self.answers.len()
            invariant
                i <= self.answers@.len(),
                first_a_addr(views) == first_a_addr(views.skip(i as int)),
            decreases self.answers@.len() - i,
        {
            proof {
                assert(views.skip(i as int)[0] == self.answers@[i as int]@);
                assert(views.skip(i as int).drop_first() =~= views.skip(i + 1));
            }
            match &self.answers[i] {
                DnsRecord::A { domain: _, addr, ttl: _ } => {
                    return Some(*addr);
                },
                _ => {},
            }
            i = i + 1;
        }
        None
    }

    /// The glue address for the first candidate NS record: its owner is a
    /// suffix of `qname` and its target host has an A record in the
    /// additional section, so the next hop needs no extra lookup.
    #[verifier::loop_isolation(false)]
    pub fn get_resolved_ns(&self, qname: &Vec<u8>) -> (r: Option<u32>)
        ensures
            r == resolved_ns(self@.authorities, self@.resources, qname@),
    {
        let ghost auth = record_views(self.authorities@);
        let ghost res = record_views(self.resources@);
        proof {
            assert(auth.skip(0) =~= auth);
        }
        let mut i: usize = 0;
        while i < self.authorities.len()
            invariant
                i <= self.authorities@.len(),
                resolved_ns(auth, res, qname@) == resolved_ns(auth.skip(i as int), res, qname@),
            decreases self.authorities@.len() - i,
        {
            proof {
                assert(auth.skip(i as int)[0] == self.authorities@[i as int]@);
                assert(auth.skip(i as int).drop_first() =~= auth.skip(i + 1));
            }
            match &self.authorities[i] {
                DnsRecord::NS { domain, host, ttl: _ } => {
                    if ends_with(qname, domain) {
                        match find_a_for_host(&self.resources, host) {
                            Some(ip) => {
                                return Some(ip);
                            },
                            None => {},
                        }
                    }
                },
                _ => {},
            }
            i = i + 1;
        }
        None
    }

    /// The target host of the first candidate NS record, whether or not a
    /// glue address accompanies it.
    #[verifier::loop_isolation(false)]
    pub fn get_unresolved_ns(&self, qname: &Vec<u8>) -> (r: Option<Vec<u8>>)
        ensures
            match r {
                Some(h) => unresolved_ns(self@.authorities, qname@) == Some(h@),
                None => unresolved_ns(self@.authorities, qname@) is None,
            },
    {
        let ghost auth = record_views(self.authorities@);
        proof {
            assert(auth.skip(0) =~= auth);
        }
        let mut i: usize = 0;
        while i < self.authorities.len()
            invariant
                i <= self.authorities@.len(),
                unresolved_ns(auth, qname@) == unresolved_ns(auth.skip(i as int), qname@),
            decreases self.authorities@.len() - i,
        {
            proof {
                assert(auth.skip(i as int)[0] == self.authorities@[i as int]@);
                assert(auth.skip(i as int).drop_first() =~= auth.skip(i + 1));
            }
            match &self.authorities[i] {
                DnsRecord::NS { domain, host, ttl: _ } => {
                    if ends_with(qname, domain) {
                        let mut out: Vec<u8> = Vec::new();
                        let mut k: usize = 0;
                        while k < host.len()
                            invariant
                                k <= host@.len(),
                                out@ == host@.take(k as int),
                            decreases host@.len() - k,
                        {
                            out.push(host[k]);
                            proof {
                                assert(out@ =~= host@.take(k + 1));
                            }
                            k = k + 1;
                        }
                        proof {
                            assert(host@.take(host@.len() as int) =~= host@);
                        }
                        return Some(out);
                    }
                },
                _ => {},
            }
            i = i + 1;
        }
        None
    }
}


/// A fresh vector holding the same bytes.
pub fn copy_bytes(v: &Vec<u8>) -> (r: Vec<u8>)
    ensures
        r@ == v@,
{
    let mut out: Vec<u8> = Vec::new();
    let mut k: usize = 0;
    while k < v.len()
        invariant
            k <= v@.len(),
            out@ == v@.take(k as int),
        decreases v@.len() - k,
    {
        out.push(v[k]);
        proof {
            assert(out@ =~= v@.take(k + 1));
        }
        k = k + 1;
    }
    proof {
        assert(v@.take(v@.len() as int) =~= v@);
    }
    out
}

impl DnsQuestion {
    /// A fresh question with the same value.
    pub fn duplicate(&self) -> (r: DnsQuestion)
        ensures
            r@ == self@,
    {
        DnsQuestion { name: copy_bytes(&self.name), qtype: self.qtype }
    }
}

impl DnsRecord {
    /// A fresh record with the same value.
    pub fn duplicate(&self) -> (r: DnsRecord)
        ensures
            r@ == self@,
    {
        match self {
            DnsRecord::UNKNOWN { domain, qtype, class, data_len, ttl, data } => DnsRecord::UNKNOWN {
                domain: copy_bytes(domain),
                qtype: *qtype,
                class: *class,
                data_len: *data_len,
                ttl: *ttl,
                data: copy_bytes(data),
            },
            DnsRecord::A { domain, addr, ttl } => DnsRecord::A {
                domain: copy_bytes(domain),
                addr: *addr,
                ttl: *ttl,
            },
            DnsRecord::NS { domain, host, ttl } => DnsRecord::NS {
                domain: copy_bytes(domain),
                host: copy_bytes(host),
                ttl: *ttl,
            },
            DnsRecord::CNAME { domain, host, ttl } => DnsRecord::CNAME {
                domain: copy_bytes(domain),
                host: copy_bytes(host),
                ttl: *ttl,
            },
            DnsRecord::MX { domain, priority, host, ttl } => DnsRecord::MX {
                domain: copy_bytes(domain),
                priority: *priority,
                host: copy_bytes(host),
                ttl: *ttl,
            },
            DnsRecord::AAAA { domain, a0, a1, a2, a3, ttl } => DnsRecord::AAAA {
                domain: copy_bytes(domain),
                a0: *a0,
                a1: *a1,
                a2: *a2,
                a3: *a3,
                ttl: *ttl,
            },
            DnsRecord::SOA {
                domain,
                m_name,
                r_name,
                serial,
                refresh,
                retry,
                expire,
                minimum,
                ttl,
            } => DnsRecord::SOA {
                domain: copy_bytes(domain),
                m_name: copy_bytes(m_name),
                r_name: copy_bytes(r_name),
                serial: *serial,
                refresh: *refresh,
                retry: *retry,
                expire: *expire,
                minimum: *minimum,
                ttl: *ttl,
            },
        }
    }
}

/// A fresh vector of records with the same values.
pub fn copy_records(records: &Vec<DnsRecord>) -> (r: Vec<DnsRecord>)
    ensures
        record_views(r@) == record_views(records@),
{
    let mut out: Vec<DnsRecord> = Vec::new();
    let mut i: usize = 0;
    while i < records.len()
        invariant
            i <= records@.len(),
            record_views(out@) == record_views(records@.take(i as int)),
        decreases records@.len() - i,
    {
        let rec = records[i].duplicate();
        proof {
            assert(record_views(out@.push(rec)) =~= record_views(out@).push(rec@));
            assert(record_views(records@.take(i + 1)) =~= record_views(
                records@.take(i as int),
            ).push(records@[i as int]@));
        }
        out.push(rec);
        i = i + 1;
    }
    proof {
        assert(records@.take(records@.len() as int) =~= records@);
    }
    out
}

} // verus!
