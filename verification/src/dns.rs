//! The DNS message of the `trust_dns_proto` crate, as the reflector sees it:
//! a header (id, query or response) and the question, answer and additional
//! sections, each record given by its owner name, type, class, TTL and, for
//! SRV and PTR records, the data the reflector reads.
//!
//! The decoding and encoding of the wire format are those of
//! `trust_dns_proto`; the items below are the only places that call it.

use vstd::prelude::*;
use trust_dns_proto::op::{Message, MessageType};
use trust_dns_proto::rr::RData;
use trust_dns_proto::error::ProtoError;

verus! {

#[verifier::external_type_specification]
#[verifier::external_body]
pub struct ExMessage(trust_dns_proto::op::Message);

#[verifier::external_type_specification]
#[verifier::external_body]
pub struct ExProtoError(trust_dns_proto::error::ProtoError);

/// A question: owner name as text, the same name in lower case, query type
/// and query class codes, and whether the mDNS unicast-response bit (the top
/// bit of the class field on the wire) is set.
pub struct QuestionView {
    pub name: Seq<char>,
    pub key: Seq<char>,
    pub qtype: u16,
    pub qclass: u16,
    pub unicast_response: bool,
}

/// A resource record: owner name as text, type and class codes, TTL, the
/// target and port of SRV data and the target of PTR data.
pub struct RecordView {
    pub name: Seq<char>,
    pub rtype: u16,
    pub class: u16,
    pub ttl: u32,
    pub srv: Option<(Seq<char>, u16)>,
    pub ptr: Option<Seq<char>>,
}

/// What a DNS message holds, as far as the reflector reads it.
pub struct DnsContents {
    pub id: u16,
    pub is_response: bool,
    pub questions: Seq<QuestionView>,
    pub answers: Seq<RecordView>,
    pub additionals: Seq<RecordView>,
}

/// What a `Message` holds: its header and sections (names as written by
/// the `Display` of `trust_dns_proto::rr::Name`, fully qualified names with
/// a final dot).
pub uninterp spec fn dns_contents(m: Message) -> DnsContents;

/// What `Message::from_vec` makes of a buffer: `None` where it fails.
pub uninterp spec fn dns_decode(data: Seq<u8>) -> Option<DnsContents>;

/// The frame of a message: all of it but its answer and additional TTLs
/// (header flags, authority section, EDNS and record data included), given
/// as what `Message::to_vec` writes for the message with those TTLs set to
/// zero, `None` where that fails. A TTL field has a fixed width and place,
/// so the wire form of a message is a function of its frame and contents.
pub uninterp spec fn dns_frame(m: Message) -> Option<Seq<u8>>;

/// What `Message::to_vec` makes of a message with this frame and these
/// contents: the bytes, or `None` where it fails.
pub uninterp spec fn dns_encoding(frame: Option<Seq<u8>>, c: DnsContents) -> Option<Seq<u8>>;

/// A question as plain values.
#[derive(Debug, Clone)]
pub struct DnsQuestion {
    pub name: String,
    pub key: String,
    pub qtype: u16,
    pub qclass: u16,
    pub unicast_response: bool,
}

impl View for DnsQuestion {
    type V = QuestionView;

    open spec fn view(&self) -> QuestionView {
        QuestionView {
            name: self.name@,
            key: self.key@,
            qtype: self.qtype,
            qclass: self.qclass,
            unicast_response: self.unicast_response,
        }
    }
}

/// Target and port of SRV data.
#[derive(Debug, Clone)]
pub struct SrvTarget {
    pub target: String,
    pub port: u16,
}

/// A resource record as plain values.
#[derive(Debug, Clone)]
pub struct DnsRecord {
    pub name: String,
    pub rtype: u16,
    pub class: u16,
    pub ttl: u32,
    pub srv: Option<SrvTarget>,
    pub ptr: Option<String>,
}

impl View for DnsRecord {
    type V = RecordView;

    open spec fn view(&self) -> RecordView {
        RecordView {
            name: self.name@,
            rtype: self.rtype,
            class: self.class,
            ttl: self.ttl,
            srv: match self.srv {
                Some(t) => Some((t.target@, t.port)),
                None => None,
            },
            ptr: match self.ptr {
                Some(p) => Some(p@),
                None => None,
            },
        }
    }
}

/// The record with its TTL replaced.
pub open spec fn with_record_ttl(r: RecordView, ttl: u32) -> RecordView {
    RecordView { ttl, ..r }
}

/// Decodes a DNS message with `Message::from_vec`. Claims that success and
/// the contents of the result are functions of the bytes alone.
#[verifier::external_body]
pub(crate) fn decode_message(data: &[u8]) -> (r: Result<Message, ProtoError>)
    ensures
        r is Ok <==> dns_decode(data@) is Some,
        r matches Ok(m) ==> dns_decode(data@) == Some(dns_contents(m)),
{
    Message::from_vec(data)
}

/// `Message::id`: the id of the header.
#[verifier::external_body]
pub(crate) fn message_id(m: &Message) -> (r: u16)
    ensures
        r == dns_contents(*m).id,
{
    m.id()
}

/// `Message::message_type`: whether the header marks a response.
#[verifier::external_body]
pub(crate) fn message_is_response(m: &Message) -> (r: bool)
    ensures
        r == dns_contents(*m).is_response,
{
    match m.message_type() {
        MessageType::Query => false,
        MessageType::Response => true,
    }
}

/// `Message::queries`: the number of questions.
#[verifier::external_body]
pub(crate) fn question_count(m: &Message) -> (r: usize)
    ensures
        r == dns_contents(*m).questions.len(),
{
    m.queries().len()
}

/// `Message::queries`: question `i`, its name written by `Name`'s `Display`
/// (as given and after `Name::to_lowercase`), its type and class by their
/// `u16` conversions, and `Query::mdns_unicast_response`.
#[verifier::external_body]
pub(crate) fn question_at(m: &Message, i: usize) -> (r: DnsQuestion)
    requires
        i < dns_contents(*m).questions.len(),
    ensures
        r@ == dns_contents(*m).questions[i as int],
{
    let q = &m.queries()[i];
    DnsQuestion {
        name: q.name().to_string(),
        key: q.name().to_lowercase().to_string(),
        qtype: u16::from(q.query_type()),
        qclass: u16::from(q.query_class()),
        unicast_response: q.mdns_unicast_response(),
    }
}

/// `Message::answers`: the number of answer records.
#[verifier::external_body]
pub(crate) fn answer_count(m: &Message) -> (r: usize)
    ensures
        r == dns_contents(*m).answers.len(),
{
    m.answers().len()
}

/// `Message::answers`: answer record `i` as plain values.
#[verifier::external_body]
pub(crate) fn answer_at(m: &Message, i: usize) -> (r: DnsRecord)
    requires
        i < dns_contents(*m).answers.len(),
    ensures
        r@ == dns_contents(*m).answers[i as int],
{
    let rec = &m.answers()[i];
    DnsRecord {
        name: rec.name().to_string(),
        rtype: u16::from(rec.record_type()),
        class: u16::from(rec.dns_class()),
        ttl: rec.ttl(),
        srv: match rec.data() {
            Some(RData::SRV(s)) => Some(SrvTarget { target: s.target().to_string(), port: s.port() }),
            _ => None,
        },
        ptr: match rec.data() {
            Some(RData::PTR(p)) => Some(p.to_string()),
            _ => None,
        },
    }
}

/// `Message::additionals`: the number of additional records (the EDNS record
/// is held apart by the crate and is not among them).
#[verifier::external_body]
pub(crate) fn additional_count(m: &Message) -> (r: usize)
    ensures
        r == dns_contents(*m).additionals.len(),
{
    m.additionals().len()
}

/// `Message::additionals`: additional record `i` as plain values.
#[verifier::external_body]
pub(crate) fn additional_at(m: &Message, i: usize) -> (r: DnsRecord)
    requires
        i < dns_contents(*m).additionals.len(),
    ensures
        r@ == dns_contents(*m).additionals[i as int],
{
    let rec = &m.additionals()[i];
    DnsRecord {
        name: rec.name().to_string(),
        rtype: u16::from(rec.record_type()),
        class: u16::from(rec.dns_class()),
        ttl: rec.ttl(),
        srv: match rec.data() {
            Some(RData::SRV(s)) => Some(SrvTarget { target: s.target().to_string(), port: s.port() }),
            _ => None,
        },
        ptr: match rec.data() {
            Some(RData::PTR(p)) => Some(p.to_string()),
            _ => None,
        },
    }
}

/// `Record::set_ttl` on answer record `i`: only that record's TTL changes,
/// so the frame stays.
#[verifier::external_body]
pub(crate) fn set_answer_ttl(m: &mut Message, i: usize, ttl: u32)
    requires
        i < dns_contents(*old(m)).answers.len(),
    ensures
        dns_contents(*final(m)) == (DnsContents {
            answers: dns_contents(*old(m)).answers.update(
                i as int,
                with_record_ttl(dns_contents(*old(m)).answers[i as int], ttl),
            ),
            ..dns_contents(*old(m))
        }),
        dns_frame(*final(m)) == dns_frame(*old(m)),
{
    m.answers_mut()[i].set_ttl(ttl);
}

/// `Record::set_ttl` on additional record `i`: only that record's TTL
/// changes, so the frame stays.
#[verifier::external_body]
pub(crate) fn set_additional_ttl(m: &mut Message, i: usize, ttl: u32)
    requires
        i < dns_contents(*old(m)).additionals.len(),
    ensures
        dns_contents(*final(m)) == (DnsContents {
            additionals: dns_contents(*old(m)).additionals.update(
                i as int,
                with_record_ttl(dns_contents(*old(m)).additionals[i as int], ttl),
            ),
            ..dns_contents(*old(m))
        }),
        dns_frame(*final(m)) == dns_frame(*old(m)),
{
    m.additionals_mut()[i].set_ttl(ttl);
}

/// `Message::clone` (derived): an equal message.
#[verifier::external_body]
pub(crate) fn clone_message(m: &Message) -> (r: Message)
    ensures
        r == *m,
{
    m.clone()
}

/// `Message::to_vec`: the wire form of the message. Claims that success and
/// the bytes are a function of the message alone, through its frame and
/// contents; on which messages it fails is left to the crate (it refuses,
/// for example, records it cannot write).
#[verifier::external_body]
pub(crate) fn encode_message(m: &Message) -> (r: Result<Vec<u8>, ProtoError>)
    ensures
        r is Ok <==> dns_encoding(dns_frame(*m), dns_contents(*m)) is Some,
        r matches Ok(v) ==> dns_encoding(dns_frame(*m), dns_contents(*m)) == Some(v@),
{
    m.to_vec()
}

} // verus!
