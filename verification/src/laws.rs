//! Laws of the codec, proved once and for all inputs: names, headers,
//! questions and every resource-record variant decode back to exactly what
//! the encoder wrote; the compression-pointer jump bound always fires on a
//! self-referential pointer; and name encoding fails exactly on an
//! over-long label.

use vstd::prelude::*;

use crate::buffer::{
    be16_bytes, be32_bytes, first_dot, join_labels, lemma_be16_roundtrip, lemma_be32_roundtrip,
    lower, lower_seq, name_end, parse_name, qname_write, splice, split_labels,
};
use crate::dns::{
    flags_a, flags_b, header_bytes, header_from, host_record_write_sp, lemma_qname_write_bounds,
    qtype_num, qtype_of, question_from, question_write_sp, record_from, record_write_sp,
    rescode_num, DnsHeader, QueryType, QuestionView, RecordView, ResultCode,
};
use crate::DnsError;

verus! {

/// A name in canonical wire form: already lowercase, and every label
/// between one and 63 bytes long.
pub open spec fn valid_name(name: Seq<u8>) -> bool {
    &&& forall|i: int|
        0 <= i < split_labels(name).len() ==> 1 <= #[trigger] split_labels(name)[i].len() <= 63
    &&& forall|i: int| 0 <= i < name.len() ==> lower(#[trigger] name[i]) == name[i]
}

/// The number of wire bytes that writing these labels takes: a length byte
/// per label, the label bytes, and the terminating zero.
pub open spec fn encoded_labels_len(labels: Seq<Seq<u8>>) -> int
    decreases labels.len(),
{
    if labels.len() == 0 {
        1
    } else {
        1 + labels[0].len() + encoded_labels_len(labels.drop_first())
    }
}

/// `first_dot` points at a dot, inside the name, with none before it.
proof fn lemma_first_dot_props(name: Seq<u8>)
    ensures
        first_dot(name) <= name.len(),
        first_dot(name) < name.len() ==> name[first_dot(name) as int] == 46,
        forall|j: int| 0 <= j < first_dot(name) ==> name[j] != 46,
    decreases name.len(),
{
    if name.len() == 0 {
    } else if name[0] == 46 {
    } else {
        lemma_first_dot_props(name.drop_first());
        assert(forall|j: int| 1 <= j < first_dot(name) ==> name[j] == name.drop_first()[j - 1]);
    }
}

/// Splitting a name yields at least one label.
proof fn lemma_split_nonempty(name: Seq<u8>)
    ensures
        split_labels(name).len() >= 1,
{
    lemma_first_dot_props(name);
}

/// Joining the labels of a lowercase name gives the name back.
pub proof fn lemma_join_split(name: Seq<u8>)
    requires
        forall|i: int| 0 <= i < name.len() ==> lower(#[trigger] name[i]) == name[i],
    ensures
        join_labels(split_labels(name)) == name,
    decreases name.len(),
{
    lemma_first_dot_props(name);
    let i = first_dot(name) as int;
    if i >= name.len() {
        assert(lower_seq(name) =~= name);
        assert(split_labels(name) == seq![name]);
    } else {
        let head = name.take(i);
        let tail = name.skip(i + 1);
        assert(forall|j: int| 0 <= j < tail.len() ==> tail[j] == name[j + i + 1]);
        lemma_join_split(tail);
        lemma_split_nonempty(tail);
        let rest = split_labels(tail);
        assert(split_labels(name) == seq![head] + rest);
        assert((seq![head] + rest).drop_first() =~= rest);
        assert(lower_seq(head) =~= head);
        assert(join_labels(seq![head] + rest) == lower_seq(head) + seq![46u8] + join_labels(rest));
        assert(head + seq![46u8] + tail =~= name);
    }
}

/// Writing labels whose lengths are all in range succeeds when they fit,
/// and the written bytes parse back to exactly those labels, with the
/// cursor ending where the write ended.
pub proof fn lemma_labels_roundtrip(buf: Seq<u8>, pos: int, labels: Seq<Seq<u8>>)
    requires
        buf.len() == 512,
        0 <= pos,
        forall|i: int| 0 <= i < labels.len() ==> 1 <= #[trigger] labels[i].len() <= 63,
        pos + encoded_labels_len(labels) <= 512,
    ensures
        match qname_write(buf, pos, labels) {
            Ok((b, p)) => p == pos + encoded_labels_len(labels) && parse_name(b, pos, 0) == Ok::<
                Seq<Seq<u8>>,
                DnsError,
            >(labels) && name_end(b, pos) == p && (forall|b2: Seq<u8>|
                b2.len() == 512 && (forall|j: int| pos <= j < p ==> b2[j] == b[j])
                    ==> #[trigger] parse_name(b2, pos, 0) == Ok::<Seq<Seq<u8>>, DnsError>(labels)
                    && name_end(b2, pos) == p),
            Err(_) => false,
        },
    decreases labels.len(),
{
    if labels.len() == 0 {
        let b = buf.update(pos, 0u8);
        assert(b[pos] == 0);
        assert(parse_name(b, pos, 0) == Ok::<Seq<Seq<u8>>, DnsError>(Seq::empty()));
        assert(Seq::<Seq<u8>>::empty() =~= labels);
    } else {
        let l = labels[0];
        let rest = labels.drop_first();
        assert(encoded_labels_len(labels) == 1 + l.len() + encoded_labels_len(rest));
        assert(encoded_labels_len(rest) >= 1) by {
            if rest.len() == 0 {
            } else {
                lemma_encoded_len_positive(rest);
            }
        }
        let b1 = crate::buffer::splice(buf, pos, seq![l.len() as u8] + l);
        assert(b1.len() == 512);
        assert(forall|i: int| 0 <= i < rest.len() ==> rest[i] == labels[i + 1]);
        lemma_labels_roundtrip(b1, pos + 1 + l.len(), rest);
        lemma_qname_write_bounds(b1, pos + 1 + l.len(), rest);
        match qname_write(b1, pos + 1 + l.len(), rest) {
            Ok((b, p)) => {
                assert(b[pos] == b1[pos]);
                assert(b1[pos] == l.len() as u8);
                assert(b.subrange(pos + 1, pos + 1 + l.len()) =~= l) by {
                    assert(forall|j: int|
                        pos + 1 <= j < pos + 1 + l.len() ==> b[j] == b1[j] && b1[j] == l[j - pos
                            - 1]);
                }
                assert(parse_name(b, pos, 0) == Ok::<Seq<Seq<u8>>, DnsError>(
                    seq![l] + rest,
                ));
                assert(seq![l] + rest =~= labels);
                assert(name_end(b, pos) == name_end(b, pos + 1 + l.len()));
                assert forall|b2: Seq<u8>|
                    b2.len() == 512 && (forall|j: int| pos <= j < p ==> b2[j] == b[j])
                        implies #[trigger] parse_name(b2, pos, 0) == Ok::<Seq<Seq<u8>>, DnsError>(
                        labels,
                    ) && name_end(b2, pos) == p by {
                    assert(b2[pos] == l.len() as u8);
                    assert(b2.subrange(pos + 1, pos + 1 + l.len()) =~= l) by {
                        assert(forall|j: int|
                            pos + 1 <= j < pos + 1 + l.len() ==> b2[j] == b[j] && b[j] == l[j - pos
                                - 1]);
                    }
                    assert(parse_name(b2, pos + 1 + l.len(), 0) == Ok::<Seq<Seq<u8>>, DnsError>(
                        rest,
                    ) && name_end(b2, pos + 1 + l.len()) == p);
                    assert(parse_name(b2, pos, 0) == Ok::<Seq<Seq<u8>>, DnsError>(seq![l] + rest));
                    assert(name_end(b2, pos) == name_end(b2, pos + 1 + l.len()));
                }
            },
            Err(_) => {
                assert(false);
            },
        }
    }
}

/// Every label list takes at least one byte to encode.
proof fn lemma_encoded_len_positive(labels: Seq<Seq<u8>>)
    ensures
        encoded_labels_len(labels) >= 1,
    decreases labels.len(),
{
    if labels.len() == 0 {
    } else {
        lemma_encoded_len_positive(labels.drop_first());
    }
}

/// The number of bytes a name takes on the wire: its own bytes, a leading
/// length byte, and the terminating zero (each dot byte turns into the
/// following label's length byte).
pub proof fn lemma_encoded_len(name: Seq<u8>)
    ensures
        encoded_labels_len(split_labels(name)) == name.len() + 2,
    decreases name.len(),
{
    lemma_first_dot_props(name);
    let i = first_dot(name) as int;
    if i >= name.len() {
        let s1 = seq![name];
        assert(split_labels(name) == s1);
        assert(s1.drop_first() =~= Seq::<Seq<u8>>::empty());
        assert(encoded_labels_len(s1.drop_first()) == 1);
        assert(encoded_labels_len(s1) == 1 + name.len() + encoded_labels_len(s1.drop_first()));
    } else {
        let tail = name.skip(i + 1);
        lemma_encoded_len(tail);
        let rest = split_labels(tail);
        let s1 = seq![name.take(i)] + rest;
        assert(split_labels(name) == s1);
        assert(s1[0] == name.take(i));
        assert(s1.drop_first() =~= rest);
        assert(encoded_labels_len(s1) == 1 + i + encoded_labels_len(rest));
        assert(encoded_labels_len(rest) == tail.len() + 2);
        assert(tail.len() == name.len() - i - 1);
    }
}

/// Round-trip law for names: a lowercase name with labels of one to 63
/// bytes, written where it fits, decodes back to exactly that name, and
/// the decoder's cursor ends exactly past the written bytes.
pub proof fn lemma_qname_roundtrip(buf: Seq<u8>, pos: int, name: Seq<u8>)
    requires
        buf.len() == 512,
        0 <= pos,
        valid_name(name),
        pos + name.len() + 2 <= 512,
    ensures
        match qname_write(buf, pos, split_labels(name)) {
            Ok((b, p)) => p == pos + name.len() + 2 && (match parse_name(b, pos, 0) {
                Ok(labels) => join_labels(labels) == name && name_end(b, pos) == p,
                Err(_) => false,
            }),
            Err(_) => false,
        },
{
    lemma_encoded_len(name);
    lemma_labels_roundtrip(buf, pos, split_labels(name));
    lemma_join_split(name);
}

/// Jump-bound law: a compression pointer that points at itself makes the
/// decoder fail with `TooManyJumps` once the bounded number of follows is
/// spent; it can never loop, since every decode is a terminating function.
pub proof fn lemma_self_pointer_jump_bound(buf: Seq<u8>, pos: int)
    requires
        buf.len() == 512,
        0 <= pos,
        pos + 1 < 512,
        buf[pos] >= 192,
        (buf[pos] - 192) * 256 + buf[pos + 1] == pos,
    ensures
        parse_name(buf, pos, 0) == Err::<Seq<Seq<u8>>, DnsError>(DnsError::TooManyJumps),
{
    lemma_self_pointer_spins(buf, pos, 0);
}

/// Each pointer follow at a self-referential pointer lands back on it.
proof fn lemma_self_pointer_spins(buf: Seq<u8>, pos: int, jumps: int)
    requires
        buf.len() == 512,
        0 <= pos,
        pos + 1 < 512,
        buf[pos] >= 192,
        (buf[pos] - 192) * 256 + buf[pos + 1] == pos,
        0 <= jumps,
    ensures
        parse_name(buf, pos, jumps) == Err::<Seq<Seq<u8>>, DnsError>(DnsError::TooManyJumps),
    decreases 6 - jumps,
{
    if jumps > 5 {
    } else {
        lemma_self_pointer_spins(buf, pos, jumps + 1);
    }
}

/// Label-length law, failing side: a name holding a label longer than 63
/// bytes is refused with `LabelTooLong`, wherever in the name it stands.
pub proof fn lemma_label_too_long(buf: Seq<u8>, pos: int, labels: Seq<Seq<u8>>)
    requires
        buf.len() == 512,
        0 <= pos,
        pos + encoded_labels_len(labels) <= 512,
        exists|i: int| 0 <= i < labels.len() && #[trigger] labels[i].len() > 63,
    ensures
        qname_write(buf, pos, labels) == Err::<(Seq<u8>, int), DnsError>(DnsError::LabelTooLong),
    decreases labels.len(),
{
    let i = choose|i: int| 0 <= i < labels.len() && #[trigger] labels[i].len() > 63;
    let l = labels[0];
    if l.len() > 63 {
    } else {
        let rest = labels.drop_first();
        assert(rest[i - 1].len() > 63);
        lemma_encoded_len_positive(rest);
        lemma_label_too_long(
            crate::buffer::splice(buf, pos, seq![l.len() as u8] + l),
            pos + 1 + l.len(),
            rest,
        );
    }
}


/// A header in canonical form: a four-bit opcode, and a result code that
/// decoding can produce (an unknown code does not collide with the named
/// ones and fits the four-bit field).
pub open spec fn header_wf(h: DnsHeader) -> bool {
    &&& h.opcode < 16
    &&& match h.rescode {
        ResultCode::UNKNOWN(n) => 5 < n < 16,
        _ => true,
    }
}

/// One flag byte decodes back to the five fields packed into it.
proof fn lemma_flag_byte(b0: u8, b1: u8, b2: u8, op: u8, b7: u8)
    requires
        b0 <= 1,
        b1 <= 1,
        b2 <= 1,
        op < 16,
        b7 <= 1,
    ensures
        ((b0 | (b1 << 1) | (b2 << 2) | (op << 3) | (b7 << 7)) & 1 != 0) == (b0 == 1),
        ((b0 | (b1 << 1) | (b2 << 2) | (op << 3) | (b7 << 7)) & 2 != 0) == (b1 == 1),
        ((b0 | (b1 << 1) | (b2 << 2) | (op << 3) | (b7 << 7)) & 4 != 0) == (b2 == 1),
        (((b0 | (b1 << 1) | (b2 << 2) | (op << 3) | (b7 << 7)) >> 3) & 0x0F) == op,
        ((b0 | (b1 << 1) | (b2 << 2) | (op << 3) | (b7 << 7)) & 0x80 != 0) == (b7 == 1),
{
    assert(((b0 | (b1 << 1) | (b2 << 2) | (op << 3) | (b7 << 7)) & 1 != 0) == (b0 == 1)
        && ((b0 | (b1 << 1) | (b2 << 2) | (op << 3) | (b7 << 7)) & 2 != 0) == (b1 == 1)
        && ((b0 | (b1 << 1) | (b2 << 2) | (op << 3) | (b7 << 7)) & 4 != 0) == (b2 == 1)
        && (((b0 | (b1 << 1) | (b2 << 2) | (op << 3) | (b7 << 7)) >> 3) & 0x0F) == op
        && ((b0 | (b1 << 1) | (b2 << 2) | (op << 3) | (b7 << 7)) & 0x80 != 0) == (b7 == 1))
        by (bit_vector)
        requires
            b0 <= 1,
            b1 <= 1,
            b2 <= 1,
            op < 16,
            b7 <= 1,
    ;
}

/// The second flag byte decodes back to the result code and the four
/// single-bit fields packed above it.
proof fn lemma_flag_byte_b(rc: u8, b4: u8, b5: u8, b6: u8, b7: u8)
    requires
        rc < 16,
        b4 <= 1,
        b5 <= 1,
        b6 <= 1,
        b7 <= 1,
    ensures
        ((rc | (b4 << 4) | (b5 << 5) | (b6 << 6) | (b7 << 7)) & 0x0F) == rc,
        ((rc | (b4 << 4) | (b5 << 5) | (b6 << 6) | (b7 << 7)) & 0x10 != 0) == (b4 == 1),
        ((rc | (b4 << 4) | (b5 << 5) | (b6 << 6) | (b7 << 7)) & 0x20 != 0) == (b5 == 1),
        ((rc | (b4 << 4) | (b5 << 5) | (b6 << 6) | (b7 << 7)) & 0x40 != 0) == (b6 == 1),
        ((rc | (b4 << 4) | (b5 << 5) | (b6 << 6) | (b7 << 7)) & 0x80 != 0) == (b7 == 1),
{
    assert(((rc | (b4 << 4) | (b5 << 5) | (b6 << 6) | (b7 << 7)) & 0x0F) == rc
        && ((rc | (b4 << 4) | (b5 << 5) | (b6 << 6) | (b7 << 7)) & 0x10 != 0) == (b4 == 1)
        && ((rc | (b4 << 4) | (b5 << 5) | (b6 << 6) | (b7 << 7)) & 0x20 != 0) == (b5 == 1)
        && ((rc | (b4 << 4) | (b5 << 5) | (b6 << 6) | (b7 << 7)) & 0x40 != 0) == (b6 == 1)
        && ((rc | (b4 << 4) | (b5 << 5) | (b6 << 6) | (b7 << 7)) & 0x80 != 0) == (b7 == 1))
        by (bit_vector)
        requires
            rc < 16,
            b4 <= 1,
            b5 <= 1,
            b6 <= 1,
            b7 <= 1,
    ;
}

/// Round-trip law for headers: the twelve bytes a canonical header encodes
/// to decode back to exactly that header.
pub proof fn lemma_header_roundtrip(buf: Seq<u8>, pos: int, h: DnsHeader)
    requires
        buf.len() == 512,
        0 <= pos,
        pos + 12 <= 512,
        header_wf(h),
    ensures
        header_from(splice(buf, pos, header_bytes(h)), pos) == h,
{
    let b = splice(buf, pos, header_bytes(h));
    assert(b[pos] == (h.id >> 8) as u8);
    assert(b[pos + 1] == (h.id & 0xFF) as u8);
    assert(b[pos + 2] == flags_a(h));
    assert(b[pos + 3] == flags_b(h));
    assert(b[pos + 4] == (h.questions >> 8) as u8);
    assert(b[pos + 5] == (h.questions & 0xFF) as u8);
    assert(b[pos + 6] == (h.answers >> 8) as u8);
    assert(b[pos + 7] == (h.answers & 0xFF) as u8);
    assert(b[pos + 8] == (h.authoritative_entries >> 8) as u8);
    assert(b[pos + 9] == (h.authoritative_entries & 0xFF) as u8);
    assert(b[pos + 10] == (h.resource_entries >> 8) as u8);
    assert(b[pos + 11] == (h.resource_entries & 0xFF) as u8);
    lemma_be16_roundtrip(h.id);
    lemma_be16_roundtrip(h.questions);
    lemma_be16_roundtrip(h.answers);
    lemma_be16_roundtrip(h.authoritative_entries);
    lemma_be16_roundtrip(h.resource_entries);

    let rd: u8 = if h.recursion_desired { 1 } else { 0 };
    let tc: u8 = if h.truncated_message { 1 } else { 0 };
    let aa: u8 = if h.authoritative_answer { 1 } else { 0 };
    let rsp: u8 = if h.response { 1 } else { 0 };
    assert(flags_a(h) == (rd | (tc << 1) | (aa << 2) | (h.opcode << 3) | (rsp << 7)));
    lemma_flag_byte(rd, tc, aa, h.opcode, rsp);

    let rc: u8 = rescode_num(h.rescode);
    let cd: u8 = if h.checking_disabled { 1 } else { 0 };
    let ad: u8 = if h.authed_data { 1 } else { 0 };
    let z: u8 = if h.z { 1 } else { 0 };
    let ra: u8 = if h.recursion_available { 1 } else { 0 };
    assert(rc < 16);
    assert(flags_b(h) == (rc | (cd << 4) | (ad << 5) | (z << 6) | (ra << 7)));
    lemma_flag_byte_b(rc, cd, ad, z, ra);
    assert(crate::dns::rescode_of(rc) == h.rescode);
}


/// A query type whose wire code decodes back to it (an unknown code does
/// not collide with the named type codes).
pub open spec fn qtype_canonical(qt: QueryType) -> bool {
    qtype_of(qtype_num(qt)) == qt
}

/// Round-trip law for questions: a question with a canonical wire form,
/// written where it fits, decodes back to exactly that question, with the
/// decoder's cursor ending where the encoder's did.
pub proof fn lemma_question_roundtrip(buf: Seq<u8>, pos: int, q: QuestionView)
    requires
        buf.len() == 512,
        0 <= pos,
        valid_name(q.name),
        qtype_canonical(q.qtype),
        pos + q.name.len() + 6 <= 512,
    ensures
        match question_write_sp(buf, pos, q) {
            Ok((b, p)) => p == pos + q.name.len() + 6 && question_from(b, pos) == Ok::<
                (QuestionView, int),
                DnsError,
            >((q, p)),
            Err(_) => false,
        },
{
    lemma_encoded_len(q.name);
    lemma_labels_roundtrip(buf, pos, split_labels(q.name));
    lemma_qname_write_bounds(buf, pos, split_labels(q.name));
    lemma_join_split(q.name);
    match qname_write(buf, pos, split_labels(q.name)) {
        Ok((b1, p1)) => {
            let bts = be16_bytes(qtype_num(q.qtype)) + be16_bytes(1u16);
            let b = splice(b1, p1, bts);
            assert(b.len() == 512);
            assert(forall|j: int| pos <= j < p1 ==> b[j] == b1[j]);
            assert(parse_name(b, pos, 0) == Ok::<Seq<Seq<u8>>, DnsError>(split_labels(q.name))
                && name_end(b, pos) == p1);
            assert(b[p1] == (qtype_num(q.qtype) >> 8) as u8);
            assert(b[p1 + 1] == (qtype_num(q.qtype) & 0xFF) as u8);
            lemma_be16_roundtrip(qtype_num(q.qtype));
        },
        Err(_) => {
            assert(false);
        },
    }
}


/// Round-trip law for address records: an A record with a canonical owner
/// name, written where it fits, decodes back to exactly that record.
#[verifier::rlimit(50)]
pub proof fn lemma_a_record_roundtrip(buf: Seq<u8>, pos: int, domain: Seq<u8>, addr: u32, ttl: u32)
    requires
        buf.len() == 512,
        0 <= pos,
        valid_name(domain),
        pos + domain.len() + 2 + 14 <= 512,
    ensures
        match record_write_sp(buf, pos, RecordView::A { domain, addr, ttl }) {
            Ok((b, p)) => p == pos + domain.len() + 16 && record_from(b, pos) == Ok::<
                (RecordView, int),
                DnsError,
            >((RecordView::A { domain, addr, ttl }, p)),
            Err(_) => false,
        },
{
    lemma_encoded_len(domain);
    lemma_labels_roundtrip(buf, pos, split_labels(domain));
    lemma_qname_write_bounds(buf, pos, split_labels(domain));
    lemma_join_split(domain);
    match qname_write(buf, pos, split_labels(domain)) {
        Ok((b1, p1)) => {
            let bts = be16_bytes(1u16) + be16_bytes(1u16) + be32_bytes(ttl) + be16_bytes(4u16)
                + be32_bytes(addr);
            let b = splice(b1, p1, bts);
            assert(b.len() == 512);
            assert(forall|j: int| pos <= j < p1 ==> b[j] == b1[j]);
            assert(parse_name(b, pos, 0) == Ok::<Seq<Seq<u8>>, DnsError>(split_labels(domain))
                && name_end(b, pos) == p1);
            assert(bts.len() == 14);
            assert((1u16 >> 8) as u8 == 0 && (1u16 & 0xFF) as u8 == 1 && (4u16 >> 8) as u8 == 0
                && (4u16 & 0xFF) as u8 == 4) by (bit_vector);
            assert(b[p1] == 0 && b[p1 + 1] == 1);
            assert(b[p1 + 2] == 0 && b[p1 + 3] == 1);
            assert(b[p1 + 4] == (ttl >> 24) as u8);
            assert(b[p1 + 5] == ((ttl >> 16) & 0xFF) as u8);
            assert(b[p1 + 6] == ((ttl >> 8) & 0xFF) as u8);
            assert(b[p1 + 7] == (ttl & 0xFF) as u8);
            assert(b[p1 + 8] == 0 && b[p1 + 9] == 4);
            assert(b[p1 + 10] == (addr >> 24) as u8);
            assert(b[p1 + 11] == ((addr >> 16) & 0xFF) as u8);
            assert(b[p1 + 12] == ((addr >> 8) & 0xFF) as u8);
            assert(b[p1 + 13] == (addr & 0xFF) as u8);
            lemma_be32_roundtrip(ttl);
            lemma_be32_roundtrip(addr);
        },
        Err(_) => {
            assert(false);
        },
    }
}


/// Round-trip law for records whose data is a single name (NS and CNAME):
/// written where it fits, owner and host names canonical, the record
/// decodes back to exactly itself, through the backfilled data length.
#[verifier::rlimit(100)]
#[verifier::spinoff_prover]
pub proof fn lemma_host_record_roundtrip(
    buf: Seq<u8>,
    pos: int,
    domain: Seq<u8>,
    qt: u16,
    ttl: u32,
    host: Seq<u8>,
)
    requires
        buf.len() == 512,
        0 <= pos,
        qt == 2 || qt == 5,
        valid_name(domain),
        valid_name(host),
        pos + domain.len() + 2 + 10 + host.len() + 2 <= 512,
    ensures
        match host_record_write_sp(buf, pos, domain, qt, ttl, host) {
            Ok((b, p)) => p == pos + domain.len() + host.len() + 14 && record_from(b, pos) == Ok::<
                (RecordView, int),
                DnsError,
            >(
                (
                    if qt == 2 {
                        RecordView::NS { domain, host, ttl }
                    } else {
                        RecordView::CNAME { domain, host, ttl }
                    },
                    p,
                ),
            ),
            Err(_) => false,
        },
{
    lemma_encoded_len(domain);
    lemma_encoded_len(host);
    lemma_labels_roundtrip(buf, pos, split_labels(domain));
    lemma_qname_write_bounds(buf, pos, split_labels(domain));
    lemma_join_split(domain);
    lemma_join_split(host);
    match qname_write(buf, pos, split_labels(domain)) {
        Ok((b1, p1)) => {
            let pre = be16_bytes(qt) + be16_bytes(1u16) + be32_bytes(ttl) + be16_bytes(0u16);
            let b2 = splice(b1, p1, pre);
            assert(b2.len() == 512);
            lemma_labels_roundtrip(b2, p1 + 10, split_labels(host));
            lemma_qname_write_bounds(b2, p1 + 10, split_labels(host));
            match qname_write(b2, p1 + 10, split_labels(host)) {
                Ok((b3, p2)) => {
                    let size = (p2 - (p1 + 10)) as u16;
                    let b4 = splice(b3, p1 + 8, be16_bytes(size));
                    assert(b4.len() == 512);
                    // The owner name's bytes are untouched by the preamble,
                    // the host name and the backfill.
                    assert(forall|j: int| pos <= j < p1 ==> b4[j] == b1[j]);
                    assert(parse_name(b4, pos, 0) == Ok::<Seq<Seq<u8>>, DnsError>(
                        split_labels(domain),
                    ) && name_end(b4, pos) == p1);
                    // The preamble bytes below the backfill are those of b2.
                    assert(pre.len() == 10);
                    assert(forall|j: int| p1 <= j < p1 + 8 ==> b4[j] == b2[j]);
                    assert(b4[p1] == (qt >> 8) as u8 && b4[p1 + 1] == (qt & 0xFF) as u8);
                    assert(b4[p1 + 4] == (ttl >> 24) as u8);
                    assert(b4[p1 + 5] == ((ttl >> 16) & 0xFF) as u8);
                    assert(b4[p1 + 6] == ((ttl >> 8) & 0xFF) as u8);
                    assert(b4[p1 + 7] == (ttl & 0xFF) as u8);
                    lemma_be16_roundtrip(qt);
                    lemma_be32_roundtrip(ttl);
                    assert((2u16 >> 8) as u8 == 0 && (5u16 >> 8) as u8 == 0) by (bit_vector);
                    // The host name's bytes are untouched by the backfill.
                    assert(forall|j: int| p1 + 10 <= j < p2 ==> b4[j] == b3[j]);
                    assert(parse_name(b4, p1 + 10, 0) == Ok::<Seq<Seq<u8>>, DnsError>(
                        split_labels(host),
                    ) && name_end(b4, p1 + 10) == p2);
                },
                Err(_) => {
                    assert(false);
                },
            }
        },
        Err(_) => {
            assert(false);
        },
    }
}


/// Round-trip law for mail-exchange records: preference and exchange name
/// survive the wire, through the backfilled data length.
#[verifier::rlimit(100)]
#[verifier::spinoff_prover]
pub proof fn lemma_mx_record_roundtrip(
    buf: Seq<u8>,
    pos: int,
    domain: Seq<u8>,
    priority: u16,
    host: Seq<u8>,
    ttl: u32,
)
    requires
        buf.len() == 512,
        0 <= pos,
        valid_name(domain),
        valid_name(host),
        pos + domain.len() + 2 + 12 + host.len() + 2 <= 512,
    ensures
        match record_write_sp(buf, pos, RecordView::MX { domain, priority, host, ttl }) {
            Ok((b, p)) => p == pos + domain.len() + host.len() + 16 && record_from(b, pos) == Ok::<
                (RecordView, int),
                DnsError,
            >((RecordView::MX { domain, priority, host, ttl }, p)),
            Err(_) => false,
        },
{
    lemma_encoded_len(domain);
    lemma_encoded_len(host);
    lemma_labels_roundtrip(buf, pos, split_labels(domain));
    lemma_qname_write_bounds(buf, pos, split_labels(domain));
    lemma_join_split(domain);
    lemma_join_split(host);
    match qname_write(buf, pos, split_labels(domain)) {
        Ok((b1, p1)) => {
            let pre = be16_bytes(15u16) + be16_bytes(1u16) + be32_bytes(ttl) + be16_bytes(0u16)
                + be16_bytes(priority);
            let b2 = splice(b1, p1, pre);
            assert(b2.len() == 512);
            lemma_labels_roundtrip(b2, p1 + 12, split_labels(host));
            lemma_qname_write_bounds(b2, p1 + 12, split_labels(host));
            match qname_write(b2, p1 + 12, split_labels(host)) {
                Ok((b3, p2)) => {
                    let size = (p2 - (p1 + 10)) as u16;
                    let b4 = splice(b3, p1 + 8, be16_bytes(size));
                    assert(b4.len() == 512);
                    assert(forall|j: int| pos <= j < p1 ==> b4[j] == b1[j]);
                    assert(parse_name(b4, pos, 0) == Ok::<Seq<Seq<u8>>, DnsError>(
                        split_labels(domain),
                    ) && name_end(b4, pos) == p1);
                    assert(pre.len() == 12);
                    assert(forall|j: int| p1 <= j < p1 + 8 ==> b4[j] == b2[j]);
                    assert(forall|j: int| p1 + 10 <= j < p1 + 12 ==> b4[j] == b2[j]);
                    assert(b4[p1 + 10] == (priority >> 8) as u8);
                    assert(b4[p1 + 11] == (priority & 0xFF) as u8);
                    lemma_be16_roundtrip(priority);
                    lemma_be32_roundtrip(ttl);
                    assert((15u16 >> 8) as u8 == 0 && (15u16 & 0xFF) as u8 == 15) by (bit_vector);
                    assert(forall|j: int| p1 + 12 <= j < p2 ==> b4[j] == b3[j]);
                    assert(parse_name(b4, p1 + 12, 0) == Ok::<Seq<Seq<u8>>, DnsError>(
                        split_labels(host),
                    ) && name_end(b4, p1 + 12) == p2);
                },
                Err(_) => {
                    assert(false);
                },
            }
        },
        Err(_) => {
            assert(false);
        },
    }
}

/// Round-trip law for quad-A records: the four address words and the
/// time-to-live survive the wire.
#[verifier::rlimit(100)]
#[verifier::spinoff_prover]
pub proof fn lemma_aaaa_record_roundtrip(
    buf: Seq<u8>,
    pos: int,
    domain: Seq<u8>,
    a0: u32,
    a1: u32,
    a2: u32,
    a3: u32,
    ttl: u32,
)
    requires
        buf.len() == 512,
        0 <= pos,
        valid_name(domain),
        pos + domain.len() + 2 + 26 <= 512,
    ensures
        match record_write_sp(buf, pos, RecordView::AAAA { domain, a0, a1, a2, a3, ttl }) {
            Ok((b, p)) => p == pos + domain.len() + 28 && record_from(b, pos) == Ok::<
                (RecordView, int),
                DnsError,
            >((RecordView::AAAA { domain, a0, a1, a2, a3, ttl }, p)),
            Err(_) => false,
        },
{
    lemma_encoded_len(domain);
    lemma_labels_roundtrip(buf, pos, split_labels(domain));
    lemma_qname_write_bounds(buf, pos, split_labels(domain));
    lemma_join_split(domain);
    match qname_write(buf, pos, split_labels(domain)) {
        Ok((b1, p1)) => {
            let bts = be16_bytes(28u16) + be16_bytes(1u16) + be32_bytes(ttl) + be16_bytes(16u16)
                + be32_bytes(a0) + be32_bytes(a1) + be32_bytes(a2) + be32_bytes(a3);
            let b = splice(b1, p1, bts);
            assert(b.len() == 512);
            assert(forall|j: int| pos <= j < p1 ==> b[j] == b1[j]);
            assert(parse_name(b, pos, 0) == Ok::<Seq<Seq<u8>>, DnsError>(split_labels(domain))
                && name_end(b, pos) == p1);
            assert(bts.len() == 26);
            assert((28u16 >> 8) as u8 == 0 && (28u16 & 0xFF) as u8 == 28 && (16u16 >> 8) as u8 == 0
                && (16u16 & 0xFF) as u8 == 16) by (bit_vector);
            lemma_be32_roundtrip(ttl);
            lemma_be32_roundtrip(a0);
            lemma_be32_roundtrip(a1);
            lemma_be32_roundtrip(a2);
            lemma_be32_roundtrip(a3);
            assert(b[p1 + 10] == (a0 >> 24) as u8 && b[p1 + 11] == ((a0 >> 16) & 0xFF) as u8
                && b[p1 + 12] == ((a0 >> 8) & 0xFF) as u8 && b[p1 + 13] == (a0 & 0xFF) as u8);
            assert(b[p1 + 14] == (a1 >> 24) as u8 && b[p1 + 15] == ((a1 >> 16) & 0xFF) as u8
                && b[p1 + 16] == ((a1 >> 8) & 0xFF) as u8 && b[p1 + 17] == (a1 & 0xFF) as u8);
            assert(b[p1 + 18] == (a2 >> 24) as u8 && b[p1 + 19] == ((a2 >> 16) & 0xFF) as u8
                && b[p1 + 20] == ((a2 >> 8) & 0xFF) as u8 && b[p1 + 21] == (a2 & 0xFF) as u8);
            assert(b[p1 + 22] == (a3 >> 24) as u8 && b[p1 + 23] == ((a3 >> 16) & 0xFF) as u8
                && b[p1 + 24] == ((a3 >> 8) & 0xFF) as u8 && b[p1 + 25] == (a3 & 0xFF) as u8);
        },
        Err(_) => {
            assert(false);
        },
    }
}

/// Round-trip law for unrecognized record types: the raw class, length and
/// data bytes survive the wire losslessly.
#[verifier::rlimit(100)]
#[verifier::spinoff_prover]
pub proof fn lemma_unknown_record_roundtrip(
    buf: Seq<u8>,
    pos: int,
    domain: Seq<u8>,
    qtype: u16,
    class: u16,
    ttl: u32,
    data: Seq<u8>,
)
    requires
        buf.len() == 512,
        0 <= pos,
        valid_name(domain),
        qtype != 1 && qtype != 2 && qtype != 5 && qtype != 6 && qtype != 15 && qtype != 28,
        pos + domain.len() + 2 + 10 + data.len() <= 512,
    ensures
        match record_write_sp(
            buf,
            pos,
            RecordView::UNKNOWN {
                domain,
                qtype,
                class,
                data_len: data.len() as u16,
                ttl,
                data,
            },
        ) {
            Ok((b, p)) => p == pos + domain.len() + 12 + data.len() && record_from(b, pos) == Ok::<
                (RecordView, int),
                DnsError,
            >(
                (
                    RecordView::UNKNOWN {
                        domain,
                        qtype,
                        class,
                        data_len: data.len() as u16,
                        ttl,
                        data,
                    },
                    p,
                ),
            ),
            Err(_) => false,
        },
{
    lemma_encoded_len(domain);
    lemma_labels_roundtrip(buf, pos, split_labels(domain));
    lemma_qname_write_bounds(buf, pos, split_labels(domain));
    lemma_join_split(domain);
    match qname_write(buf, pos, split_labels(domain)) {
        Ok((b1, p1)) => {
            let dl = data.len() as u16;
            let bts = be16_bytes(qtype) + be16_bytes(class) + be32_bytes(ttl) + be16_bytes(dl)
                + data;
            let b = splice(b1, p1, bts);
            assert(b.len() == 512);
            assert(forall|j: int| pos <= j < p1 ==> b[j] == b1[j]);
            assert(parse_name(b, pos, 0) == Ok::<Seq<Seq<u8>>, DnsError>(split_labels(domain))
                && name_end(b, pos) == p1);
            assert(bts.len() == 10 + data.len());
            lemma_be16_roundtrip(qtype);
            lemma_be16_roundtrip(class);
            lemma_be16_roundtrip(dl);
            lemma_be32_roundtrip(ttl);
            assert(b.subrange(p1 + 10, p1 + 10 + dl) =~= data) by {
                assert(forall|j: int|
                    p1 + 10 <= j < p1 + 10 + data.len() ==> b[j] == data[j - p1 - 10]);
            }
        },
        Err(_) => {
            assert(false);
        },
    }
}

/// Round-trip law for start-of-authority records: both names and the five
/// timer fields survive the wire, through the backfilled data length.
#[verifier::rlimit(100)]
#[verifier::spinoff_prover]
pub proof fn lemma_soa_record_roundtrip(
    buf: Seq<u8>,
    pos: int,
    domain: Seq<u8>,
    m_name: Seq<u8>,
    r_name: Seq<u8>,
    serial: u32,
    refresh: u32,
    retry: u32,
    expire: u32,
    minimum: u32,
    ttl: u32,
)
    requires
        buf.len() == 512,
        0 <= pos,
        valid_name(domain),
        valid_name(m_name),
        valid_name(r_name),
        pos + domain.len() + 2 + 10 + m_name.len() + 2 + r_name.len() + 2 + 20 <= 512,
    ensures
        match record_write_sp(
            buf,
            pos,
            RecordView::SOA {
                domain,
                m_name,
                r_name,
                serial,
                refresh,
                retry,
                expire,
                minimum,
                ttl,
            },
        ) {
            Ok((b, p)) => p == pos + domain.len() + m_name.len() + r_name.len() + 36
                && record_from(b, pos) == Ok::<(RecordView, int), DnsError>(
                (
                    RecordView::SOA {
                        domain,
                        m_name,
                        r_name,
                        serial,
                        refresh,
                        retry,
                        expire,
                        minimum,
                        ttl,
                    },
                    p,
                ),
            ),
            Err(_) => false,
        },
{
    lemma_encoded_len(domain);
    lemma_encoded_len(m_name);
    lemma_encoded_len(r_name);
    lemma_labels_roundtrip(buf, pos, split_labels(domain));
    lemma_qname_write_bounds(buf, pos, split_labels(domain));
    lemma_join_split(domain);
    lemma_join_split(m_name);
    lemma_join_split(r_name);
    match qname_write(buf, pos, split_labels(domain)) {
        Ok((b1, p1)) => {
            let pre = be16_bytes(6u16) + be16_bytes(1u16) + be32_bytes(ttl) + be16_bytes(0u16);
            let b2 = splice(b1, p1, pre);
            assert(b2.len() == 512);
            lemma_labels_roundtrip(b2, p1 + 10, split_labels(m_name));
            lemma_qname_write_bounds(b2, p1 + 10, split_labels(m_name));
            match qname_write(b2, p1 + 10, split_labels(m_name)) {
                Ok((b3, p2)) => {
                    lemma_labels_roundtrip(b3, p2, split_labels(r_name));
                    lemma_qname_write_bounds(b3, p2, split_labels(r_name));
                    match qname_write(b3, p2, split_labels(r_name)) {
                        Ok((b4, p3)) => {
                            let timers = be32_bytes(serial) + be32_bytes(refresh) + be32_bytes(
                                retry,
                            ) + be32_bytes(expire) + be32_bytes(minimum);
                            let b5 = splice(b4, p3, timers);
                            let size = (p3 + 20 - (p1 + 10)) as u16;
                            let b6 = splice(b5, p1 + 8, be16_bytes(size));
                            assert(b6.len() == 512);
                            assert(timers.len() == 20);
                            assert(pre.len() == 10);
                            assert(forall|j: int| pos <= j < p1 ==> b6[j] == b1[j]);
                            assert(parse_name(b6, pos, 0) == Ok::<Seq<Seq<u8>>, DnsError>(
                                split_labels(domain),
                            ) && name_end(b6, pos) == p1);
                            assert(forall|j: int| p1 <= j < p1 + 8 ==> b6[j] == b2[j]);
                            lemma_be32_roundtrip(ttl);
                            assert((6u16 >> 8) as u8 == 0 && (6u16 & 0xFF) as u8 == 6)
                                by (bit_vector);
                            assert(forall|j: int| p1 + 10 <= j < p2 ==> b6[j] == b3[j]);
                            assert(parse_name(b6, p1 + 10, 0) == Ok::<Seq<Seq<u8>>, DnsError>(
                                split_labels(m_name),
                            ) && name_end(b6, p1 + 10) == p2);
                            assert(forall|j: int| p2 <= j < p3 ==> b6[j] == b4[j]);
                            assert(parse_name(b6, p2, 0) == Ok::<Seq<Seq<u8>>, DnsError>(
                                split_labels(r_name),
                            ) && name_end(b6, p2) == p3);
                            assert(forall|j: int| p3 <= j < p3 + 20 ==> b6[j] == b5[j]);
                            lemma_be32_roundtrip(serial);
                            lemma_be32_roundtrip(refresh);
                            lemma_be32_roundtrip(retry);
                            lemma_be32_roundtrip(expire);
                            lemma_be32_roundtrip(minimum);
                            assert(b6[p3] == (serial >> 24) as u8 && b6[p3 + 1] == ((serial >> 16)
                                & 0xFF) as u8 && b6[p3 + 2] == ((serial >> 8) & 0xFF) as u8 && b6[p3
                                + 3] == (serial & 0xFF) as u8);
                            assert(b6[p3 + 4] == (refresh >> 24) as u8 && b6[p3 + 5] == ((refresh
                                >> 16) & 0xFF) as u8 && b6[p3 + 6] == ((refresh >> 8) & 0xFF) as u8
                                && b6[p3 + 7] == (refresh & 0xFF) as u8);
                            assert(b6[p3 + 8] == (retry >> 24) as u8 && b6[p3 + 9] == ((retry >> 16)
                                & 0xFF) as u8 && b6[p3 + 10] == ((retry >> 8) & 0xFF) as u8 && b6[p3
                                + 11] == (retry & 0xFF) as u8);
                            assert(b6[p3 + 12] == (expire >> 24) as u8 && b6[p3 + 13] == ((expire
                                >> 16) & 0xFF) as u8 && b6[p3 + 14] == ((expire >> 8) & 0xFF) as u8
                                && b6[p3 + 15] == (expire & 0xFF) as u8);
                            assert(b6[p3 + 16] == (minimum >> 24) as u8 && b6[p3 + 17] == ((minimum
                                >> 16) & 0xFF) as u8 && b6[p3 + 18] == ((minimum >> 8) & 0xFF) as u8
                                && b6[p3 + 19] == (minimum & 0xFF) as u8);
                        },
                        Err(_) => {
                            assert(false);
                        },
                    }
                },
                Err(_) => {
                    assert(false);
                },
            }
        },
        Err(_) => {
            assert(false);
        },
    }
}


/// A record in canonical wire form: every name in it canonical, an
/// unrecognized type code that is really unrecognized, and a stored raw
/// length that matches the raw data.
pub open spec fn valid_record(r: RecordView) -> bool {
    match r {
        RecordView::UNKNOWN { domain, qtype, class, data_len, ttl, data } => valid_name(domain)
            && qtype != 1 && qtype != 2 && qtype != 5 && qtype != 6 && qtype != 15 && qtype != 28
            && data_len == data.len(),
        RecordView::A { domain, addr, ttl } => valid_name(domain),
        RecordView::NS { domain, host, ttl } => valid_name(domain) && valid_name(host),
        RecordView::CNAME { domain, host, ttl } => valid_name(domain) && valid_name(host),
        RecordView::MX { domain, priority, host, ttl } => valid_name(domain) && valid_name(host),
        RecordView::AAAA { domain, a0, a1, a2, a3, ttl } => valid_name(domain),
        RecordView::SOA { domain, m_name, r_name, serial, refresh, retry, expire, minimum, ttl } => valid_name(
            domain,
        ) && valid_name(m_name) && valid_name(r_name),
    }
}

/// The number of wire bytes one record takes.
pub open spec fn record_wire_len(r: RecordView) -> int {
    match r {
        RecordView::UNKNOWN { domain, data, .. } => domain.len() + 12 + data.len() as int,
        RecordView::A { domain, .. } => domain.len() as int + 16,
        RecordView::NS { domain, host, .. } => domain.len() + host.len() as int + 14,
        RecordView::CNAME { domain, host, .. } => domain.len() + host.len() as int + 14,
        RecordView::MX { domain, host, .. } => domain.len() + host.len() as int + 16,
        RecordView::AAAA { domain, .. } => domain.len() as int + 28,
        RecordView::SOA { domain, m_name, r_name, .. } => domain.len() + m_name.len() as int
            + r_name.len() as int + 36,
    }
}

/// Round-trip law for resource records: any record in canonical wire form,
/// written where it fits, decodes back to exactly itself, whatever its
/// variant.
pub proof fn lemma_record_roundtrip(buf: Seq<u8>, pos: int, r: RecordView)
    requires
        buf.len() == 512,
        0 <= pos,
        valid_record(r),
        pos + record_wire_len(r) <= 512,
    ensures
        match record_write_sp(buf, pos, r) {
            Ok((b, p)) => p == pos + record_wire_len(r) && record_from(b, pos) == Ok::<
                (RecordView, int),
                DnsError,
            >((r, p)),
            Err(_) => false,
        },
{
    match r {
        RecordView::UNKNOWN { domain, qtype, class, data_len, ttl, data } => {
            lemma_unknown_record_roundtrip(buf, pos, domain, qtype, class, ttl, data);
        },
        RecordView::A { domain, addr, ttl } => {
            lemma_a_record_roundtrip(buf, pos, domain, addr, ttl);
        },
        RecordView::NS { domain, host, ttl } => {
            lemma_host_record_roundtrip(buf, pos, domain, 2, ttl, host);
        },
        RecordView::CNAME { domain, host, ttl } => {
            lemma_host_record_roundtrip(buf, pos, domain, 5, ttl, host);
        },
        RecordView::MX { domain, priority, host, ttl } => {
            lemma_mx_record_roundtrip(buf, pos, domain, priority, host, ttl);
        },
        RecordView::AAAA { domain, a0, a1, a2, a3, ttl } => {
            lemma_aaaa_record_roundtrip(buf, pos, domain, a0, a1, a2, a3, ttl);
        },
        RecordView::SOA { domain, m_name, r_name, serial, refresh, retry, expire, minimum, ttl } => {
            lemma_soa_record_roundtrip(
                buf,
                pos,
                domain,
                m_name,
                r_name,
                serial,
                refresh,
                retry,
                expire,
                minimum,
                ttl,
            );
        },
    }
}

} // verus!
