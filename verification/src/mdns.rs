//! mDNS packets: parsing, service-type extraction, TTL capping and service
//! information.

use vstd::prelude::*;
use vstd::string::*;
use trust_dns_proto::op::Message;
use crate::dns::{
    DnsContents, DnsRecord, RecordView, dns_contents, dns_decode, dns_encoding, dns_frame,
    with_record_ttl,
    decode_message, message_is_response, question_count, question_at, answer_count, answer_at,
    additional_count, additional_at, set_answer_ttl, set_additional_ttl, clone_message,
    encode_message,
};
use crate::text::{
    split_on, split_str, join_with, join_dotted, has_prefix, str_eq, str_starts_with, lex_less,
    strictly_sorted, insert_sorted_unique, lemma_lex_irreflexive,
    lemma_lex_asymmetric,
};

verus! {

/// mDNS IPv4 multicast address 224.0.0.251, as a big-endian integer.
pub const MDNS_IPV4_ADDR: u32 = 0xE000_00FBu32;

/// mDNS IPv6 multicast address ff02::fb, as a big-endian integer.
pub const MDNS_IPV6_ADDR: u128 = 0xff02_0000_0000_0000_0000_0000_0000_00fbu128;

/// mDNS port
pub const MDNS_PORT: u16 = 5353;

/// An IP address, its octets read as a big-endian integer.
#[derive(Debug, Clone, Copy, PartialEq, Eq, Structural)]
pub enum IpAddress {
    V4(u32),
    V6(u128),
}

/// An IP address and a port.
#[derive(Debug, Clone, Copy, PartialEq, Eq, Structural)]
pub struct SocketAddress {
    pub ip: IpAddress,
    pub port: u16,
}

impl SocketAddress {
    pub fn new(ip: IpAddress, port: u16) -> (r: Self)
        ensures
            r.ip == ip,
            r.port == port,
    {
        SocketAddress { ip, port }
    }

    pub fn ip(&self) -> (r: IpAddress)
        ensures
            r == self.ip,
    {
        self.ip
    }

    pub fn port(&self) -> (r: u16)
        ensures
            r == self.port,
    {
        self.port
    }

    pub fn is_ipv4(&self) -> (r: bool)
        ensures
            r == (self.ip is V4),
    {
        match self.ip {
            IpAddress::V4(_) => true,
            IpAddress::V6(_) => false,
        }
    }
}

/// Get the mDNS multicast socket address for IPv4.
pub fn mdns_ipv4_socket_addr() -> (r: SocketAddress)
    ensures
        r.ip == IpAddress::V4(MDNS_IPV4_ADDR),
        r.port == MDNS_PORT,
{
    SocketAddress::new(IpAddress::V4(MDNS_IPV4_ADDR), MDNS_PORT)
}

/// Get the mDNS multicast socket address for IPv6.
pub fn mdns_ipv6_socket_addr() -> (r: SocketAddress)
    ensures
        r.ip == IpAddress::V6(MDNS_IPV6_ADDR),
        r.port == MDNS_PORT,
{
    SocketAddress::new(IpAddress::V6(MDNS_IPV6_ADDR), MDNS_PORT)
}

/// Why a packet could not be handled.
#[derive(Debug, Clone, Copy, PartialEq, Eq, Structural)]
pub enum MdnsError {
    /// The bytes are not a DNS message.
    Decode,
    /// The message could not be written back to bytes.
    Encode,
}

/// DNS record type code of SRV records.
pub const SRV_TYPE: u16 = 33;

/// DNS record type code of PTR records.
pub const PTR_TYPE: u16 = 12;

/// Label `k` is the protocol label `proto` of a service name: it comes after
/// another label and before a label that begins with `local`.
pub open spec fn proto_label_at(parts: Seq<Seq<char>>, proto: Seq<char>, k: int) -> bool {
    1 <= k && k + 1 < parts.len() && parts[k] == proto && has_prefix(parts[k + 1], "local"@)
}

/// The first protocol label `proto` of a name split into labels.
#[verifier::opaque]
pub open spec fn first_proto_label(parts: Seq<Seq<char>>, proto: Seq<char>) -> Option<int> {
    if exists|k: int| proto_label_at(parts, proto, k) {
        Some(
            choose|k: int|
                proto_label_at(parts, proto, k) && forall|j: int|
                    0 <= j < k ==> !proto_label_at(parts, proto, j),
        )
    } else {
        None
    }
}

/// The service type named by a DNS name written as text: the label just
/// before the first `_tcp` label that is followed by a `local...` label,
/// joined to `._tcp` (failing that, the same with `_udp`); none where that
/// label is empty or no such protocol label exists. So
/// `tv1._airplay._tcp.local.` names `_airplay._tcp`.
pub open spec fn service_type_of(name: Seq<char>) -> Option<Seq<char>> {
    let parts = split_on(name, '.');
    match first_proto_label(parts, "_tcp"@) {
        Some(k) => if parts[k - 1].len() > 0 {
            Some(parts[k - 1] + "._tcp"@)
        } else {
            None
        },
        None => match first_proto_label(parts, "_udp"@) {
            Some(k) => if parts[k - 1].len() > 0 {
                Some(parts[k - 1] + "._udp"@)
            } else {
                None
            },
            None => None,
        },
    }
}

/// The first protocol label `proto` among `parts`.
fn find_proto_label(parts: &Vec<String>, proto: &str) -> (r: Option<usize>)
    ensures
        match r {
            Some(k) => 1 <= k < parts@.len() && first_proto_label(parts.deep_view(), proto@) == Some(
                k as int,
            ),
            None => first_proto_label(parts.deep_view(), proto@) is None,
        },
{
    let ghost pv = parts.deep_view();
    let mut k: usize = 1;
    while k < parts.len()
        invariant
            pv == parts.deep_view(),
            1 <= k,
            forall|j: int| 0 <= j < k ==> !proto_label_at(pv, proto@, j),
        decreases parts.len() - k,
    {
        if k + 1 < parts.len() && str_eq(parts[k].as_str(), proto) && str_starts_with(
            parts[k + 1].as_str(),
            "local",
        ) {
            proof {
                reveal(first_proto_label);
                reveal_strlit("local");
                assert(parts[k as int]@ == pv[k as int]);
                assert(parts[k + 1]@ == pv[k + 1]);
                assert(proto_label_at(pv, proto@, k as int));
                let c = choose|c: int|
                    proto_label_at(pv, proto@, c) && forall|j: int|
                        0 <= j < c ==> !proto_label_at(pv, proto@, j);
                if c < k {
                    assert(!proto_label_at(pv, proto@, c));
                }
                if c > k {
                    assert(!proto_label_at(pv, proto@, k as int));
                }
                assert(c == k);
                assert(first_proto_label(pv, proto@) == Some(k as int));
            }
            return Some(k);
        }
        proof {
            reveal_strlit("local");
        }
        k = k + 1;
    }
    proof {
        reveal(first_proto_label);
        assert forall|j: int| !proto_label_at(pv, proto@, j) by {
            if 0 <= j < k {
            }
        }
    }
    None
}

/// Extract the service type from a DNS name written as text (e.g.
/// `_airplay._tcp` from `_airplay._tcp.local.`).
pub fn extract_service_type(name: &str) -> (r: Option<String>)
    ensures
        match r {
            Some(t) => service_type_of(name@) == Some(t@),
            None => service_type_of(name@) is None,
        },
{
    proof {
        reveal_strlit("_tcp");
        reveal_strlit("_udp");
        reveal_strlit("._tcp");
        reveal_strlit("._udp");
    }
    let parts = split_str(name, '.');
    let ghost pv = parts.deep_view();
    match find_proto_label(&parts, "_tcp") {
        Some(k) => {
            assert(parts[k - 1]@ == pv[k - 1]);
            if parts[k - 1].unicode_len() > 0 {
                let mut service = parts[k - 1].clone();
                service.append("._tcp");
                Some(service)
            } else {
                None
            }
        },
        None => match find_proto_label(&parts, "_udp") {
            Some(k) => {
                assert(parts[k - 1]@ == pv[k - 1]);
                if parts[k - 1].unicode_len() > 0 {
                    let mut service = parts[k - 1].clone();
                    service.append("._udp");
                    Some(service)
                } else {
                    None
                }
            },
            None => None,
        },
    }
}

/// The service types that a message names in its questions and answers.
pub open spec fn named_service_types(c: DnsContents) -> Set<Seq<char>> {
    Set::new(
        |t: Seq<char>|
            (exists|i: int|
                0 <= i < c.questions.len() && service_type_of(#[trigger] c.questions[i].name)
                    == Some(t)) || (exists|i: int|
                0 <= i < c.answers.len() && service_type_of(#[trigger] c.answers[i].name) == Some(
                    t,
                )),
    )
}

/// The service types of a message, in increasing order without repetition.
pub open spec fn service_types(c: DnsContents) -> Seq<Seq<char>> {
    choose|s: Seq<Seq<char>>| strictly_sorted(s) && s.to_set() == named_service_types(c)
}

/// Two strictly sorted sequences with the same elements are equal.
pub proof fn lemma_sorted_unique(a: Seq<Seq<char>>, b: Seq<Seq<char>>)
    requires
        strictly_sorted(a),
        strictly_sorted(b),
        a.to_set() == b.to_set(),
    ensures
        a == b,
    decreases a.len(),
{
    if a.len() == 0 {
        if b.len() > 0 {
            assert(b.to_set().contains(b[0]));
        }
        assert(a =~= b);
    } else {
        assert(a.to_set().contains(a[0]));
        assert(b.len() > 0);
        let k = choose|k: int| 0 <= k < b.len() && b[k] == a[0];
        assert(b.to_set().contains(b[0]));
        let m = choose|m: int| 0 <= m < a.len() && a[m] == b[0];
        if k > 0 {
            assert(lex_less(b[0], b[k]));
            if m == 0 {
                lemma_lex_irreflexive(a[0]);
            } else {
                assert(lex_less(a[0], a[m]));
                lemma_lex_asymmetric(a[0], a[m]);
            }
        }
        assert(a[0] == b[0]);
        let ta = a.drop_first();
        let tb = b.drop_first();
        assert forall|x: Seq<char>| ta.to_set().contains(x) <==> tb.to_set().contains(x) by {
            if ta.to_set().contains(x) {
                let i = choose|i: int| 0 <= i < ta.len() && ta[i] == x;
                assert(a[i + 1] == x);
                assert(lex_less(a[0], x));
                lemma_lex_irreflexive(x);
                assert(b.to_set().contains(x));
                let j = choose|j: int| 0 <= j < b.len() && b[j] == x;
                assert(j != 0);
                assert(tb[j - 1] == x);
            }
            if tb.to_set().contains(x) {
                let i = choose|i: int| 0 <= i < tb.len() && tb[i] == x;
                assert(b[i + 1] == x);
                assert(lex_less(b[0], x));
                lemma_lex_irreflexive(x);
                assert(a.to_set().contains(x));
                let j = choose|j: int| 0 <= j < a.len() && a[j] == x;
                assert(j != 0);
                assert(ta[j - 1] == x);
            }
        }
        assert(ta.to_set() =~= tb.to_set());
        lemma_sorted_unique(ta, tb);
        assert(a =~= seq![a[0]] + ta);
        assert(b =~= seq![b[0]] + tb);
    }
}

/// An mDNS packet.
pub struct MdnsPacket {
    /// The parsed DNS message
    pub message: Message,
    /// Source address of the packet
    pub src_addr: SocketAddress,
    /// Interface index where the packet was received
    pub interface_index: u32,
    /// Raw packet data
    pub raw_data: Vec<u8>,
}

/// A message whose answer and additional TTLs are capped at `max_ttl`.
pub open spec fn capped_contents(c: DnsContents, max_ttl: u32) -> DnsContents {
    DnsContents {
        answers: c.answers.map_values(|r: RecordView| with_record_ttl(r, capped_ttl(r.ttl, max_ttl))),
        additionals: c.additionals.map_values(
            |r: RecordView| with_record_ttl(r, capped_ttl(r.ttl, max_ttl)),
        ),
        ..c
    }
}

/// Some answer or additional record has a TTL above `max_ttl`.
pub open spec fn needs_capping(c: DnsContents, max_ttl: u32) -> bool {
    (exists|i: int| 0 <= i < c.answers.len() && #[trigger] c.answers[i].ttl > max_ttl) || (exists|
        i: int,
    |
        0 <= i < c.additionals.len() && #[trigger] c.additionals[i].ttl > max_ttl)
}

/// The smaller of a TTL and the bound.
pub open spec fn capped_ttl(ttl: u32, max_ttl: u32) -> u32 {
    if ttl <= max_ttl {
        ttl
    } else {
        max_ttl
    }
}

impl MdnsPacket {
    /// What the packet's message holds.
    pub open spec fn contents(&self) -> DnsContents {
        dns_contents(self.message)
    }

    /// Parse an mDNS packet from raw bytes.
    pub fn parse(data: &[u8], src_addr: SocketAddress, interface_index: u32) -> (r: Result<
        Self,
        MdnsError,
    >)
        ensures
            r is Ok <==> dns_decode(data@) is Some,
            r matches Ok(p) ==> {
                &&& dns_decode(data@) == Some(p.contents())
                &&& p.src_addr == src_addr
                &&& p.interface_index == interface_index
                &&& p.raw_data@ == data@
            },
            r matches Err(e) ==> e == MdnsError::Decode,
    {
        match decode_message(data) {
            Ok(message) => {
                let raw_data = vstd::slice::slice_to_vec(data);
                Ok(MdnsPacket { message, src_addr, interface_index, raw_data })
            },
            Err(_) => Err(MdnsError::Decode),
        }
    }

    /// Check if this is a query packet.
    pub fn is_query(&self) -> (r: bool)
        ensures
            r == !self.contents().is_response,
    {
        !message_is_response(&self.message)
    }

    /// Check if this is a response packet.
    pub fn is_response(&self) -> (r: bool)
        ensures
            r == self.contents().is_response,
    {
        message_is_response(&self.message)
    }

    /// Check if this packet has the unicast response flag (QU): whether some
    /// question carries the mDNS unicast-response bit.
    pub fn is_unicast_response_requested(&self) -> (r: bool)
        ensures
            r == exists|i: int|
                0 <= i < self.contents().questions.len()
                    && #[trigger] self.contents().questions[i].unicast_response,
    {
        let n = question_count(&self.message);
        let mut i: usize = 0;
        while i < n
            invariant
                n == self.contents().questions.len(),
                i <= n,
                forall|j: int|
                    0 <= j < i ==> !(#[trigger] self.contents().questions[j].unicast_response),
            decreases n - i,
        {
            let q = question_at(&self.message, i);
            if q.unicast_response {
                assert(self.contents().questions[i as int].unicast_response);
                return true;
            }
            i = i + 1;
        }
        false
    }

    /// Whether some answer or additional record has a TTL above `max_ttl`.
    pub fn needs_ttl_cap(&self, max_ttl: u32) -> (r: bool)
        ensures
            r == needs_capping(self.contents(), max_ttl),
    {
        let na = answer_count(&self.message);
        let mut i: usize = 0;
        while i < na
            invariant
                na == self.contents().answers.len(),
                i <= na,
                forall|j: int| 0 <= j < i ==> #[trigger] self.contents().answers[j].ttl <= max_ttl,
            decreases na - i,
        {
            if answer_at(&self.message, i).ttl > max_ttl {
                assert(self.contents().answers[i as int].ttl > max_ttl);
                return true;
            }
            i = i + 1;
        }
        let nd = additional_count(&self.message);
        let mut k: usize = 0;
        while k < nd
            invariant
                na == self.contents().answers.len(),
                nd == self.contents().additionals.len(),
                k <= nd,
                forall|j: int| 0 <= j < na ==> #[trigger] self.contents().answers[j].ttl <= max_ttl,
                forall|j: int|
                    0 <= j < k ==> #[trigger] self.contents().additionals[j].ttl <= max_ttl,
            decreases nd - k,
        {
            if additional_at(&self.message, k).ttl > max_ttl {
                assert(self.contents().additionals[k as int].ttl > max_ttl);
                return true;
            }
            k = k + 1;
        }
        false
    }

    /// Get the service types named by the packet's questions and answers,
    /// sorted and without repetition.
    pub fn get_service_types(&self) -> (r: Vec<String>)
        ensures
            r.deep_view() == service_types(self.contents()),
            strictly_sorted(r.deep_view()),
            r.deep_view().to_set() == named_service_types(self.contents()),
    {
        let ghost c = self.contents();
        let mut services: Vec<String> = Vec::new();
        let nq = question_count(&self.message);
        let mut i: usize = 0;
        proof {
            assert(services.deep_view().to_set() =~= Set::<Seq<char>>::empty());
        }
        while i < nq
            invariant
                c == self.contents(),
                nq == c.questions.len(),
                i <= nq,
                strictly_sorted(services.deep_view()),
                forall|t: Seq<char>|
                    services.deep_view().to_set().contains(t) <==> exists|j: int|
                        0 <= j < i && service_type_of(#[trigger] c.questions[j].name) == Some(t),
            decreases nq - i,
        {
            let q = question_at(&self.message, i);
            let found = extract_service_type(q.name.as_str());
            let ghost before = services.deep_view().to_set();
            match found {
                Some(t) => {
                    insert_sorted_unique(&mut services, t);
                },
                None => {},
            }
            proof {
                assert forall|t: Seq<char>|
                    services.deep_view().to_set().contains(t) <==> exists|j: int|
                        0 <= j < i + 1 && service_type_of(#[trigger] c.questions[j].name) == Some(
                            t,
                        ) by {
                    if services.deep_view().to_set().contains(t) && !before.contains(t) {
                        assert(service_type_of(c.questions[i as int].name) == Some(t));
                    }
                    if exists|j: int|
                        0 <= j < i + 1 && service_type_of(#[trigger] c.questions[j].name) == Some(
                            t,
                        ) {
                        let j = choose|j: int|
                            0 <= j < i + 1 && service_type_of(#[trigger] c.questions[j].name)
                                == Some(t);
                        if j < i {
                            assert(before.contains(t));
                        }
                    }
                }
            }
            i = i + 1;
        }
        let na = answer_count(&self.message);
        let mut k: usize = 0;
        while k < na
            invariant
                c == self.contents(),
                nq == c.questions.len(),
                na == c.answers.len(),
                k <= na,
                strictly_sorted(services.deep_view()),
                forall|t: Seq<char>|
                    services.deep_view().to_set().contains(t) <==> (exists|j: int|
                        0 <= j < nq && service_type_of(#[trigger] c.questions[j].name) == Some(t))
                        || (exists|j: int|
                        0 <= j < k && service_type_of(#[trigger] c.answers[j].name) == Some(t)),
            decreases na - k,
        {
            let a = answer_at(&self.message, k);
            let found = extract_service_type(a.name.as_str());
            let ghost before = services.deep_view().to_set();
            match found {
                Some(t) => {
                    insert_sorted_unique(&mut services, t);
                },
                None => {},
            }
            proof {
                assert forall|t: Seq<char>|
                    services.deep_view().to_set().contains(t) <==> (exists|j: int|
                        0 <= j < nq && service_type_of(#[trigger] c.questions[j].name) == Some(t))
                        || (exists|j: int|
                        0 <= j < k + 1 && service_type_of(#[trigger] c.answers[j].name) == Some(
                            t,
                        )) by {
                    if services.deep_view().to_set().contains(t) && !before.contains(t) {
                        assert(service_type_of(c.answers[k as int].name) == Some(t));
                    }
                    if exists|j: int|
                        0 <= j < k + 1 && service_type_of(#[trigger] c.answers[j].name) == Some(
                            t,
                        ) {
                        let j = choose|j: int|
                            0 <= j < k + 1 && service_type_of(#[trigger] c.answers[j].name)
                                == Some(t);
                        if j < k {
                            assert(before.contains(t));
                        }
                    }
                }
            }
            k = k + 1;
        }
        proof {
            let s = services.deep_view();
            assert(s.to_set() =~= named_service_types(c));
            let chosen = service_types(c);
            assert(strictly_sorted(chosen) && chosen.to_set() == named_service_types(c));
            lemma_sorted_unique(s, chosen);
        }
        services
    }

    /// The wire form of the packet's message with its answer and additional
    /// TTLs capped at `max_ttl`: the same frame, the capped contents.
    pub open spec fn capped_bytes(&self, max_ttl: u32) -> Option<Seq<u8>> {
        dns_encoding(dns_frame(self.message), capped_contents(self.contents(), max_ttl))
    }

    /// The packet's message with answer and additional TTLs capped at
    /// `max_ttl`, written back to bytes.
    pub fn with_ttl(&self, max_ttl: u32) -> (r: Result<Vec<u8>, MdnsError>)
        ensures
            r is Ok <==> self.capped_bytes(max_ttl) is Some,
            r matches Ok(v) ==> self.capped_bytes(max_ttl) == Some(v@),
            r matches Err(e) ==> e == MdnsError::Encode,
    {
        let ghost c = self.contents();
        let mut message = clone_message(&self.message);
        let na = answer_count(&message);
        let mut i: usize = 0;
        proof {
            assert(c.answers.map_values(
                |r: RecordView| with_record_ttl(r, capped_ttl(r.ttl, max_ttl)),
            ).take(0) + c.answers.skip(0) =~= c.answers);
        }
        while i < na
            invariant
                na == c.answers.len(),
                i <= na,
                dns_frame(message) == dns_frame(self.message),
                dns_contents(message) == (DnsContents {
                    answers: c.answers.map_values(
                        |r: RecordView| with_record_ttl(r, capped_ttl(r.ttl, max_ttl)),
                    ).take(i as int) + c.answers.skip(i as int),
                    ..c
                }),
            decreases na - i,
        {
            let rec = answer_at(&message, i);
            let ttl: u32 = if rec.ttl <= max_ttl {
                rec.ttl
            } else {
                max_ttl
            };
            set_answer_ttl(&mut message, i, ttl);
            proof {
                let capped = c.answers.map_values(
                    |r: RecordView| with_record_ttl(r, capped_ttl(r.ttl, max_ttl)),
                );
                assert(dns_contents(message).answers =~= capped.take(i + 1) + c.answers.skip(
                    i + 1,
                ));
            }
            i = i + 1;
        }
        let nd = additional_count(&message);
        let mut k: usize = 0;
        proof {
            let capped = c.answers.map_values(
                |r: RecordView| with_record_ttl(r, capped_ttl(r.ttl, max_ttl)),
            );
            assert(capped.take(na as int) + c.answers.skip(na as int) =~= capped);
            assert(c.additionals.map_values(
                |r: RecordView| with_record_ttl(r, capped_ttl(r.ttl, max_ttl)),
            ).take(0) + c.additionals.skip(0) =~= c.additionals);
        }
        while k < nd
            invariant
                nd == c.additionals.len(),
                k <= nd,
                dns_frame(message) == dns_frame(self.message),
                dns_contents(message) == (DnsContents {
                    answers: c.answers.map_values(
                        |r: RecordView| with_record_ttl(r, capped_ttl(r.ttl, max_ttl)),
                    ),
                    additionals: c.additionals.map_values(
                        |r: RecordView| with_record_ttl(r, capped_ttl(r.ttl, max_ttl)),
                    ).take(k as int) + c.additionals.skip(k as int),
                    ..c
                }),
            decreases nd - k,
        {
            let rec = additional_at(&message, k);
            let ttl: u32 = if rec.ttl <= max_ttl {
                rec.ttl
            } else {
                max_ttl
            };
            set_additional_ttl(&mut message, k, ttl);
            proof {
                let capped = c.additionals.map_values(
                    |r: RecordView| with_record_ttl(r, capped_ttl(r.ttl, max_ttl)),
                );
                assert(dns_contents(message).additionals =~= capped.take(k + 1)
                    + c.additionals.skip(k + 1));
            }
            k = k + 1;
        }
        proof {
            let capped = c.additionals.map_values(
                |r: RecordView| with_record_ttl(r, capped_ttl(r.ttl, max_ttl)),
            );
            assert(capped.take(nd as int) + c.additionals.skip(nd as int) =~= capped);
            assert(dns_contents(message) == capped_contents(c, max_ttl));
        }
        match encode_message(&message) {
            Ok(v) => Ok(v),
            Err(_) => Err(MdnsError::Encode),
        }
    }

    /// The source MAC address of the packet. The reflector works on UDP
    /// sockets, where the Ethernet header is not available, so there is none.
    pub fn extract_mac_address(&self) -> (r: Option<String>)
        ensures
            r is None,
    {
        None
    }
}

/// Capping keeps every question and record but the TTLs, and leaves each
/// TTL at most `max_ttl`: the smaller of the old TTL and `max_ttl`.
pub proof fn lemma_capped_ttls(c: DnsContents, max_ttl: u32)
    ensures
        ({
            let d = capped_contents(c, max_ttl);
            &&& d.id == c.id && d.is_response == c.is_response && d.questions == c.questions
            &&& d.answers.len() == c.answers.len()
            &&& d.additionals.len() == c.additionals.len()
            &&& forall|i: int|
                0 <= i < c.answers.len() ==> #[trigger] d.answers[i] == with_record_ttl(
                    c.answers[i],
                    d.answers[i].ttl,
                ) && d.answers[i].ttl <= max_ttl && d.answers[i].ttl <= c.answers[i].ttl && (
                d.answers[i].ttl == max_ttl || d.answers[i].ttl == c.answers[i].ttl)
            &&& forall|i: int|
                0 <= i < c.additionals.len() ==> #[trigger] d.additionals[i] == with_record_ttl(
                    c.additionals[i],
                    d.additionals[i].ttl,
                ) && d.additionals[i].ttl <= max_ttl && d.additionals[i].ttl <= c.additionals[i].ttl
                    && (d.additionals[i].ttl == max_ttl || d.additionals[i].ttl
                    == c.additionals[i].ttl)
        }),
{
}

/// Capping twice at the same bound is capping once.
pub proof fn lemma_capping_idempotent(c: DnsContents, max_ttl: u32)
    ensures
        capped_contents(capped_contents(c, max_ttl), max_ttl) == capped_contents(c, max_ttl),
{
    let d = capped_contents(c, max_ttl);
    assert(capped_contents(d, max_ttl).answers =~= d.answers);
    assert(capped_contents(d, max_ttl).additionals =~= d.additionals);
}

/// Capping at a bound and then at a bound no tighter is capping once.
pub proof fn lemma_capping_looser_bound(c: DnsContents, max_ttl: u32, second: u32)
    requires
        max_ttl <= second,
    ensures
        capped_contents(capped_contents(c, max_ttl), second) == capped_contents(c, max_ttl),
{
    let d = capped_contents(c, max_ttl);
    assert(capped_contents(d, second).answers =~= d.answers);
    assert(capped_contents(d, second).additionals =~= d.additionals);
}

/// Capping changes nothing where no TTL is above the bound.
pub proof fn lemma_capping_without_excess(c: DnsContents, max_ttl: u32)
    requires
        !needs_capping(c, max_ttl),
    ensures
        capped_contents(c, max_ttl) == c,
{
    assert(capped_contents(c, max_ttl).answers =~= c.answers);
    assert(capped_contents(c, max_ttl).additionals =~= c.additionals);
}

/// Service information extracted from mDNS packets.
#[derive(Debug, Clone)]
pub struct ServiceInfo {
    /// Service name
    pub name: String,
    /// Service type (e.g., _http._tcp)
    pub service_type: String,
    /// Domain (usually local)
    pub domain: String,
    /// Host name
    pub hostname: String,
    /// Port number
    pub port: u16,
    /// IP addresses
    pub addresses: Vec<IpAddress>,
    /// TXT record data
    pub txt_records: Vec<String>,
    /// TTL
    pub ttl: u32,
}

pub struct ServiceInfoView {
    pub name: Seq<char>,
    pub service_type: Seq<char>,
    pub domain: Seq<char>,
    pub hostname: Seq<char>,
    pub port: u16,
    pub addresses: Seq<IpAddress>,
    pub txt_records: Seq<Seq<char>>,
    pub ttl: u32,
}

impl View for ServiceInfo {
    type V = ServiceInfoView;

    open spec fn view(&self) -> ServiceInfoView {
        ServiceInfoView {
            name: self.name@,
            service_type: self.service_type@,
            domain: self.domain@,
            hostname: self.hostname@,
            port: self.port,
            addresses: self.addresses@,
            txt_records: self.txt_records.deep_view(),
            ttl: self.ttl,
        }
    }
}

/// The service that a record describes: an SRV record named
/// `instance.service.proto[.domain...]` gives instance, `service.proto`,
/// the rest of the name joined with dots, the target and the port; a PTR
/// record named `service.proto[...]` gives the pointed-to instance for name
/// and host, `service.proto` as service type (its whole name where it has
/// no dot) and domain `local`. Other records give none.
pub open spec fn service_info_of(r: RecordView) -> Option<ServiceInfoView> {
    if r.rtype == SRV_TYPE {
        match r.srv {
            Some((target, port)) => {
                let parts = split_on(r.name, '.');
                if parts.len() >= 3 {
                    Some(
                        ServiceInfoView {
                            name: parts[0],
                            service_type: parts[1].push('.') + parts[2],
                            domain: join_with(parts.skip(3), '.'),
                            hostname: target,
                            port,
                            addresses: Seq::empty(),
                            txt_records: Seq::empty(),
                            ttl: r.ttl,
                        },
                    )
                } else {
                    None
                }
            },
            None => None,
        }
    } else if r.rtype == PTR_TYPE {
        match r.ptr {
            Some(target) => Some(
                ServiceInfoView {
                    name: target,
                    service_type: ptr_service_type(r.name),
                    domain: "local"@,
                    hostname: target,
                    port: 0,
                    addresses: Seq::empty(),
                    txt_records: Seq::empty(),
                    ttl: r.ttl,
                },
            ),
            None => None,
        }
    } else {
        None
    }
}

/// The service type that a PTR record's owner name names: its first two
/// labels joined by a dot.
pub open spec fn ptr_service_type(name: Seq<char>) -> Seq<char> {
    let parts = split_on(name, '.');
    if parts.len() >= 2 {
        parts[0].push('.') + parts[1]
    } else {
        name
    }
}

/// The services described by the answers, in order.
pub open spec fn services_of(answers: Seq<RecordView>) -> Seq<ServiceInfoView>
    decreases answers.len(),
{
    if answers.len() == 0 {
        Seq::empty()
    } else {
        let rest = services_of(answers.drop_last());
        match service_info_of(answers.last()) {
            Some(s) => rest.push(s),
            None => rest,
        }
    }
}

impl ServiceInfo {
    /// Parse service information from an mDNS packet's answers.
    pub fn from_packet(packet: &MdnsPacket) -> (r: Vec<Self>)
        ensures
            r@.map_values(|s: ServiceInfo| s@) == services_of(packet.contents().answers),
    {
        let ghost answers = packet.contents().answers;
        let n = answer_count(&packet.message);
        let mut services: Vec<ServiceInfo> = Vec::new();
        let mut i: usize = 0;
        proof {
            assert(answers.take(0) =~= Seq::<RecordView>::empty());
            assert(services@.map_values(|s: ServiceInfo| s@) =~= Seq::<ServiceInfoView>::empty());
        }
        while i < n
            invariant
                answers == packet.contents().answers,
                n == answers.len(),
                i <= n,
                services@.map_values(|s: ServiceInfo| s@) == services_of(answers.take(i as int)),
            decreases n - i,
        {
            let rec = answer_at(&packet.message, i);
            let ghost before = services@;
            proof {
                assert(answers.take(i + 1).drop_last() =~= answers.take(i as int));
            }
            match Self::from_record(&rec) {
                Some(s) => {
                    services.push(s);
                    proof {
                        assert(services@.map_values(|s: ServiceInfo| s@) =~= before.map_values(
                            |s: ServiceInfo| s@,
                        ).push(s@));
                    }
                },
                None => {},
            }
            i = i + 1;
        }
        proof {
            assert(answers.take(n as int) =~= answers);
        }
        services
    }

    /// The service that one record describes.
    pub fn from_record(record: &DnsRecord) -> (r: Option<Self>)
        ensures
            match r {
                Some(s) => service_info_of(record@) == Some(s@),
                None => service_info_of(record@) is None,
            },
    {
        proof {
            reveal_strlit("local");
            reveal_strlit(".");
        }
        if record.rtype == SRV_TYPE {
            match &record.srv {
                Some(srv) => {
                    let parts = split_str(record.name.as_str(), '.');
                    let ghost pv = parts.deep_view();
                    if parts.len() >= 3 {
                        let mut service_type = parts[1].clone();
                        service_type.append(".");
                        service_type.append(parts[2].as_str());
                        let domain = join_dotted(&parts, 3);
                        let r = ServiceInfo {
                            name: parts[0].clone(),
                            service_type,
                            domain,
                            hostname: srv.target.clone(),
                            port: srv.port,
                            addresses: Vec::new(),
                            txt_records: Vec::new(),
                            ttl: record.ttl,
                        };
                        proof {
                            assert(r.txt_records.deep_view() =~= Seq::<Seq<char>>::empty());
                            assert(r@.service_type =~= pv[1].push('.') + pv[2]);
                        }
                        return Some(r);
                    }
                },
                None => {},
            }
        } else if record.rtype == PTR_TYPE {
            match &record.ptr {
                Some(target) => {
                    let parts = split_str(record.name.as_str(), '.');
                    let ghost pv = parts.deep_view();
                    let service_type = if parts.len() >= 2 {
                        let mut t = parts[0].clone();
                        t.append(".");
                        t.append(parts[1].as_str());
                        proof {
                            assert(t@ =~= pv[0].push('.') + pv[1]);
                        }
                        t
                    } else {
                        record.name.clone()
                    };
                    let r = ServiceInfo {
                        name: target.clone(),
                        service_type,
                        domain: String::from_str("local"),
                        hostname: target.clone(),
                        port: 0,
                        addresses: Vec::new(),
                        txt_records: Vec::new(),
                        ttl: record.ttl,
                    };
                    proof {
                        assert(r.txt_records.deep_view() =~= Seq::<Seq<char>>::empty());
                    }
                    return Some(r);
                },
                None => {},
            }
        }
        None
    }
}

} // verus!
