//! The query handler and its answer cache.
//!
//! One inbound request is handled in two verified halves around the only
//! suspension point, the resolver's network work: `handle_request` decodes
//! the request and either finishes it (no question, or a cache hit) or asks
//! for a resolution; `handle_outcome` turns the resolution's result into
//! the response and fills the cache. The transport shim runs the resolver
//! loop between the two.

use vstd::prelude::*;

use crate::buffer::BytePacketBuffer;
use crate::dns::{
    copy_records, packet_from, record_views, DnsPacket, DnsQuestion, DnsRecord, PacketView,
    QueryType, QuestionView, RecordView, ResultCode,
};
use crate::DnsError;

verus! {

/// The cache key of a question: its name and type.
pub open spec fn cache_key(q: QuestionView) -> (Seq<u8>, QueryType) {
    (q.name, q.qtype)
}

/// The map that a sequence of cache entries denotes; a later entry for the
/// same question wins.
pub open spec fn cache_map(entries: Seq<(DnsQuestion, Vec<DnsRecord>)>) -> Map<
    (Seq<u8>, QueryType),
    Seq<RecordView>,
>
    decreases entries.len(),
{
    if entries.len() == 0 {
        Map::empty()
    } else {
        cache_map(entries.drop_last()).insert(
            cache_key(entries.last().0@),
            record_views(entries.last().1@),
        )
    }
}

/// The DNS server: the answer cache, the only state that outlives a single
/// query. Entries are only ever added, never removed.
#[derive(Debug)]
pub struct DnsServer {
    cache: Vec<(DnsQuestion, Vec<DnsRecord>)>,
}

impl Default for DnsServer {
    /// A server with an empty cache.
    fn default() -> (r: DnsServer)
        ensures
            r@ == Map::<(Seq<u8>, QueryType), Seq<RecordView>>::empty(),
    {
        DnsServer { cache: Vec::new() }
    }
}

impl View for DnsServer {
    type V = Map<(Seq<u8>, QueryType), Seq<RecordView>>;

    closed spec fn view(&self) -> Map<(Seq<u8>, QueryType), Seq<RecordView>> {
        cache_map(self.cache@)
    }
}

impl DnsServer {
    /// A server with an empty cache.
    pub fn new() -> (r: DnsServer)
        ensures
            r@ == Map::<(Seq<u8>, QueryType), Seq<RecordView>>::empty(),
    {
        DnsServer { cache: Vec::new() }
    }

    /// The cached answer set for a question, if one was stored.
    #[verifier::loop_isolation(false)]
    pub fn check_cache(&self, question: &DnsQuestion) -> (r: Option<&Vec<DnsRecord>>)
        ensures
            match r {
                Some(v) => self@.contains_key(cache_key(question@)) && self@[cache_key(question@)]
                    == record_views(v@),
                None => !self@.contains_key(cache_key(question@)),
            },
    {
        let ghost entries = self.cache@;
        let ghost key = cache_key(question@);
        proof {
            assert(entries.take(entries.len() as int) =~= entries);
        }
        let mut i: usize = self.cache.len();
        while i > 0
            invariant
                i <= self.cache@.len(),
                cache_map(entries).contains_key(key) == cache_map(
                    entries.take(i as int),
                ).contains_key(key),
                cache_map(entries).contains_key(key) ==> cache_map(entries)[key] == cache_map(
                    entries.take(i as int),
                )[key],
            decreases i,
        {
            i = i - 1;
            proof {
                assert(entries.take(i + 1).drop_last() =~= entries.take(i as int));
                assert(entries.take(i + 1).last() == entries[i as int]);
            }
            let entry_question: &DnsQuestion = &self.cache[i].0;
            if crate::dns::bytes_eq(&entry_question.name, &question.name) && entry_question.qtype
                == question.qtype {
                return Some(&self.cache[i].1);
            }
            proof {
                assert(cache_key(self.cache@[i as int].0@) != key);
            }
        }
        proof {
            assert(entries.take(0) =~= Seq::<(DnsQuestion, Vec<DnsRecord>)>::empty());
        }
        None
    }

    /// Stores the answer set for a question; a later entry for the same
    /// question shadows an earlier one.
    pub fn insert_answer(&mut self, question: DnsQuestion, answers: Vec<DnsRecord>)
        ensures
            final(self)@ == old(self)@.insert(cache_key(question@), record_views(answers@)),
    {
        let ghost pre = self.cache@;
        let ghost key = cache_key(question@);
        let ghost vals = record_views(answers@);
        self.cache.push((question, answers));
        proof {
            assert(self.cache@.drop_last() =~= pre);
        }
    }
}


/// What the handler asks of its caller after decoding a request: either
/// the finished response, or a resolution to run for the given question.
pub enum QueryAction {
    /// The response is complete; serialize and send it.
    Respond(DnsPacket),
    /// Run the resolver for this question, then finish with
    /// `handle_outcome`.
    Resolve { id: u16, question: DnsQuestion },
}

/// The mathematical value of a handler action.
pub enum ActionView {
    Respond(PacketView),
    Resolve { id: u16, question: QuestionView },
}

impl View for QueryAction {
    type V = ActionView;

    open spec fn view(&self) -> ActionView {
        match self {
            QueryAction::Respond(p) => ActionView::Respond(p@),
            QueryAction::Resolve { id, question } => ActionView::Resolve {
                id: *id,
                question: question@,
            },
        }
    }
}

/// The header every response starts from: the request's transaction id,
/// recursion desired and available, the response bit set.
pub open spec fn response_header(id: u16, rescode: ResultCode) -> crate::dns::DnsHeader {
    crate::dns::DnsHeader {
        id,
        recursion_desired: true,
        truncated_message: false,
        authoritative_answer: false,
        opcode: 0,
        response: true,
        rescode,
        checking_disabled: false,
        authed_data: false,
        z: false,
        recursion_available: true,
        questions: 0,
        answers: 0,
        authoritative_entries: 0,
        resource_entries: 0,
    }
}

/// The response to a request that carries no question at all.
pub open spec fn formerr_response(id: u16) -> PacketView {
    PacketView {
        header: response_header(id, ResultCode::FORMERR),
        questions: Seq::empty(),
        answers: Seq::empty(),
        authorities: Seq::empty(),
        resources: Seq::empty(),
    }
}

/// The response served straight from the cache, without any probe.
pub open spec fn cache_hit_response(id: u16, q: QuestionView, answers: Seq<RecordView>) -> PacketView {
    PacketView {
        header: response_header(id, ResultCode::NOERROR),
        questions: seq![q],
        answers,
        authorities: Seq::empty(),
        resources: Seq::empty(),
    }
}

/// The response assembled from a completed resolution: its result code and
/// all three record sections are copied over.
pub open spec fn resolved_response(id: u16, q: QuestionView, result: PacketView) -> PacketView {
    PacketView {
        header: response_header(id, result.header.rescode),
        questions: seq![q],
        answers: result.answers,
        authorities: result.authorities,
        resources: result.resources,
    }
}

/// The response when the resolver failed outright.
pub open spec fn servfail_response(id: u16) -> PacketView {
    PacketView {
        header: response_header(id, ResultCode::SERVFAIL),
        questions: Seq::empty(),
        answers: Seq::empty(),
        authorities: Seq::empty(),
        resources: Seq::empty(),
    }
}

impl DnsServer {
    /// Decodes an inbound request and takes it as far as it can without
    /// the network: a request without a question is answered FORMERR at
    /// once, a cached question is answered from the cache, and anything
    /// else asks the caller to run the resolver for the request's last
    /// question. A request that does not decode yields its decode error
    /// (no transaction id is known, so no reply can be formed).
    #[verifier::rlimit(30)]
    pub fn handle_request(&self, req_buffer: &mut BytePacketBuffer) -> (r: Result<
        QueryAction,
        DnsError,
    >)
        requires
            old(req_buffer).wf(),
        ensures
            final(req_buffer).wf(),
            final(req_buffer).buf@ == old(req_buffer).buf@,
            match packet_from(old(req_buffer).buf@, old(req_buffer).pos as int) {
                Err(e) => r == Err::<QueryAction, DnsError>(e),
                Ok((pv, _)) => (r matches Ok(action) && (if pv.questions.len() == 0 {
                    action@ == ActionView::Respond(formerr_response(pv.header.id))
                } else {
                    let q = pv.questions.last();
                    if self@.contains_key(cache_key(q)) {
                        action@ == ActionView::Respond(
                            cache_hit_response(pv.header.id, q, self@[cache_key(q)]),
                        )
                    } else {
                        action@ == ActionView::Resolve { id: pv.header.id, question: q }
                    }
                })),
            },
    {
        let request = DnsPacket::from_buffer(req_buffer)?;
        let id: u16 = request.header.id;

        if request.questions.len() == 0 {
            let mut packet = DnsPacket::new();
            packet.header.id = id;
            packet.header.recursion_desired = true;
            packet.header.recursion_available = true;
            packet.header.response = true;
            packet.header.rescode = ResultCode::FORMERR;
            proof {
                assert(packet@ =~= formerr_response(id));
            }
            return Ok(QueryAction::Respond(packet));
        }

        let question: &DnsQuestion = &request.questions[request.questions.len() - 1];
        proof {
            assert(request@.questions.last() == question@);
        }

        match self.check_cache(question) {
            Some(cached) => {
                let answers = copy_records(cached);
                let mut packet = DnsPacket::new();
                packet.header.id = id;
                packet.header.recursion_desired = true;
                packet.header.recursion_available = true;
                packet.header.response = true;
                packet.header.rescode = ResultCode::NOERROR;
                packet.questions.push(question.duplicate());
                packet.answers = answers;
                proof {
                    assert(packet@ =~= cache_hit_response(
                        id,
                        request@.questions.last(),
                        self@[cache_key(question@)],
                    ));
                }
                Ok(QueryAction::Respond(packet))
            },
            None => Ok(QueryAction::Resolve { id, question: question.duplicate() }),
        }
    }

    /// Finishes a request whose question had to be resolved: a failed
    /// resolution becomes SERVFAIL; a completed one has its result code
    /// and records copied into the response, and a NOERROR result with at
    /// least one answer is stored in the cache first.
    #[verifier::rlimit(30)]
    pub fn handle_outcome(&mut self, id: u16, question: DnsQuestion, outcome: Option<DnsPacket>) -> (r:
        DnsPacket)
        ensures
            match outcome {
                Some(result) => r@ == resolved_response(id, question@, result@) && final(self)@
                    == (if result.header.rescode == ResultCode::NOERROR && result@.answers.len()
                    > 0 {
                    old(self)@.insert(cache_key(question@), result@.answers)
                } else {
                    old(self)@
                }),
                None => r@ == servfail_response(id) && final(self)@ == old(self)@,
            },
    {
        match outcome {
            Some(result) => {
                let mut packet = DnsPacket::new();
                packet.header.id = id;
                packet.header.recursion_desired = true;
                packet.header.recursion_available = true;
                packet.header.response = true;
                packet.header.rescode = result.header.rescode;

                if result.header.rescode == ResultCode::NOERROR && result.answers.len() > 0 {
                    self.insert_answer(question.duplicate(), copy_records(&result.answers));
                }

                packet.questions.push(question);
                packet.answers = result.answers;
                packet.authorities = result.authorities;
                packet.resources = result.resources;
                proof {
                    assert(packet@ =~= resolved_response(id, packet.questions@[0]@, result@));
                }
                packet
            },
            None => {
                let mut packet = DnsPacket::new();
                packet.header.id = id;
                packet.header.recursion_desired = true;
                packet.header.recursion_available = true;
                packet.header.response = true;
                packet.header.rescode = ResultCode::SERVFAIL;
                proof {
                    assert(packet@ =~= servfail_response(id));
                }
                packet
            },
        }
    }
}

} // verus!
