//! The iterative delegation-chasing decisions.
//!
//! The resolver walks the DNS hierarchy one hop at a time: it sends a query
//! to a nameserver, looks at the response, and either accepts it, moves to
//! a glued nameserver address, or first chases an unglued nameserver name.
//! Sending and receiving datagrams is the transport shim's job; this module
//! holds the decisions, the outgoing query, and the response synthesized
//! when a hop times out.

use vstd::prelude::*;

use crate::dns::{
    first_a_addr, resolved_ns, unresolved_ns, DnsHeader, DnsPacket, DnsQuestion, PacketView,
    QueryType, QuestionView, ResultCode,
};

verus! {

/// The fixed root nameserver address that every resolution starts from,
/// 198.41.0.4 as a big-endian 32-bit value.
pub const ROOT_SERVER: u32 = 3324575748;

/// The transaction id this resolver stamps on its outgoing queries.
pub const LOOKUP_ID: u16 = 6666;

/// What to do after one delegation hop.
pub enum ResolveDecision {
    /// The response is terminal: return it as the result of the resolution.
    Accept,
    /// Continue the loop against this nameserver address (a glue record
    /// supplied it, so no extra lookup is needed).
    NextServer(u32),
    /// No glue: resolve this nameserver name first, then continue with
    /// whatever A record that resolution yields.
    ChaseNs(Vec<u8>),
}

/// The mathematical value of a decision.
pub enum DecisionView {
    Accept,
    NextServer(u32),
    ChaseNs(Seq<u8>),
}

impl View for ResolveDecision {
    type V = DecisionView;

    open spec fn view(&self) -> DecisionView {
        match self {
            ResolveDecision::Accept => DecisionView::Accept,
            ResolveDecision::NextServer(ip) => DecisionView::NextServer(*ip),
            ResolveDecision::ChaseNs(host) => DecisionView::ChaseNs(host@),
        }
    }
}

/// The decision the resolver takes on a response: accept a response with
/// answers and NOERROR, accept a terminal NXDOMAIN, follow a glued NS,
/// chase an unglued NS name, and otherwise accept the response as a
/// best-effort result.
pub open spec fn step_decision(pv: PacketView, qname: Seq<u8>) -> DecisionView {
    if pv.answers.len() > 0 && pv.header.rescode == ResultCode::NOERROR {
        DecisionView::Accept
    } else if pv.header.rescode == ResultCode::NXDOMAIN {
        DecisionView::Accept
    } else {
        match resolved_ns(pv.authorities, pv.resources, qname) {
            Some(ip) => DecisionView::NextServer(ip),
            None => match unresolved_ns(pv.authorities, qname) {
                Some(h) => DecisionView::ChaseNs(h),
                None => DecisionView::Accept,
            },
        }
    }
}

/// Decides the next step of the delegation walk from one hop's response.
pub fn resolve_step(qname: &Vec<u8>, response: &DnsPacket) -> (r: ResolveDecision)
    ensures
        r@ == step_decision(response@, qname@),
{
    if response.answers.len() > 0 && response.header.rescode == ResultCode::NOERROR {
        return ResolveDecision::Accept;
    }
    if response.header.rescode == ResultCode::NXDOMAIN {
        return ResolveDecision::Accept;
    }
    match response.get_resolved_ns(qname) {
        Some(ip) => ResolveDecision::NextServer(ip),
        None => match response.get_unresolved_ns(qname) {
            Some(host) => ResolveDecision::ChaseNs(host),
            None => ResolveDecision::Accept,
        },
    }
}

/// The nameserver address a nested resolution yields: the first A record
/// among its answers.
pub fn chased_server(nested: &DnsPacket) -> (r: Option<u32>)
    ensures
        r == first_a_addr(nested@.answers),
{
    nested.get_random_a()
}

/// The header of an outgoing lookup query: the fixed id, a question count
/// of one, recursion desired, and every other flag and count clear, so the
/// two flag bytes on the wire are exactly 0x01 0x00.
pub open spec fn lookup_query_header() -> DnsHeader {
    DnsHeader {
        id: LOOKUP_ID,
        recursion_desired: true,
        truncated_message: false,
        authoritative_answer: false,
        opcode: 0,
        response: false,
        rescode: ResultCode::NOERROR,
        checking_disabled: false,
        authed_data: false,
        z: false,
        recursion_available: false,
        questions: 1,
        answers: 0,
        authoritative_entries: 0,
        resource_entries: 0,
    }
}

/// The header of the response synthesized on a timed-out hop: the query's
/// id, a terminal NXDOMAIN, the response, recursion-desired and
/// recursion-available bits set, and everything else clear.
pub open spec fn timeout_response_header() -> DnsHeader {
    DnsHeader {
        id: LOOKUP_ID,
        recursion_desired: true,
        truncated_message: false,
        authoritative_answer: false,
        opcode: 0,
        response: true,
        rescode: ResultCode::NXDOMAIN,
        checking_disabled: false,
        authed_data: false,
        z: false,
        recursion_available: true,
        questions: 0,
        answers: 0,
        authoritative_entries: 0,
        resource_entries: 0,
    }
}

/// The query sent to a nameserver for one hop: fixed id, recursion desired,
/// and the single question.
pub fn build_lookup_query(qname: &Vec<u8>, qtype: QueryType) -> (r: DnsPacket)
    ensures
        r.header == lookup_query_header(),
        r@.questions =~= seq![QuestionView { name: qname@, qtype }],
        r@.answers =~= Seq::<crate::dns::RecordView>::empty(),
        r@.authorities =~= Seq::<crate::dns::RecordView>::empty(),
        r@.resources =~= Seq::<crate::dns::RecordView>::empty(),
    {
    let mut packet = DnsPacket::new();
    packet.header.id = LOOKUP_ID;
    packet.header.questions = 1;
    packet.header.recursion_desired = true;
    let question = DnsQuestion::new(crate::dns::copy_bytes(qname), qtype);
    packet.questions.push(question);
    packet
}

/// The response synthesized when a hop's nameserver does not answer within
/// the deadline: a terminal NXDOMAIN carrying the original question, so one
/// unresponsive nameserver cannot hang the whole resolution.
pub fn synthesize_timeout_response(qname: &Vec<u8>, qtype: QueryType) -> (r: DnsPacket)
    ensures
        r.header == timeout_response_header(),
        r@.questions =~= seq![QuestionView { name: qname@, qtype }],
        r@.answers =~= Seq::<crate::dns::RecordView>::empty(),
        r@.authorities =~= Seq::<crate::dns::RecordView>::empty(),
        r@.resources =~= Seq::<crate::dns::RecordView>::empty(),
    {
    let mut packet = DnsPacket::new();
    packet.header.id = LOOKUP_ID;
    packet.header.recursion_desired = true;
    packet.header.recursion_available = true;
    packet.header.response = true;
    packet.header.rescode = ResultCode::NXDOMAIN;
    let question = DnsQuestion::new(crate::dns::copy_bytes(qname), qtype);
    packet.questions.push(question);
    packet
}

} // verus!
