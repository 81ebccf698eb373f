//! The caches of the reflector: seen packets, for loop prevention, and
//! discovered services.

use vstd::prelude::*;
use vstd::string::*;
use crate::clock::{Clock, elapsed_ns};
use crate::dns::{DnsContents, question_count, question_at};
use crate::mdns::{MdnsPacket, SocketAddress};
use crate::text::str_eq;

verus! {

/// What identifies a packet for loop prevention: the message id, the
/// source address and the questions' names (in lower case, as DNS names
/// compare and hash) and types.
pub struct SignatureView {
    pub id: u16,
    pub src_addr: SocketAddress,
    pub questions: Seq<(Seq<char>, u16)>,
}

pub open spec fn signature_of(c: DnsContents, src_addr: SocketAddress) -> SignatureView {
    SignatureView {
        id: c.id,
        src_addr,
        questions: c.questions.map_values(|q: crate::dns::QuestionView| (q.key, q.qtype)),
    }
}

/// Packet signature for duplicate detection.
pub struct PacketSignature {
    pub id: u16,
    pub src_addr: SocketAddress,
    pub questions: Vec<(String, u16)>,
}

impl View for PacketSignature {
    type V = SignatureView;

    open spec fn view(&self) -> SignatureView {
        SignatureView {
            id: self.id,
            src_addr: self.src_addr,
            questions: self.questions@.map_values(|q: (String, u16)| (q.0@, q.1)),
        }
    }
}

impl PacketSignature {
    /// The signature of a packet.
    pub fn from_packet(packet: &MdnsPacket) -> (r: Self)
        ensures
            r@ == signature_of(packet.contents(), packet.src_addr),
    {
        let ghost c = packet.contents();
        let n = question_count(&packet.message);
        let mut questions: Vec<(String, u16)> = Vec::new();
        let mut i: usize = 0;
        while i < n
            invariant
                c == packet.contents(),
                n == c.questions.len(),
                i <= n,
                questions@.len() == i,
                forall|j: int|
                    0 <= j < i ==> #[trigger] questions@[j].0@ == c.questions[j].key
                        && questions@[j].1 == c.questions[j].qtype,
            decreases n - i,
        {
            let q = question_at(&packet.message, i);
            let ghost before = questions@;
            let ghost qn = q.key@;
            assert(qn == c.questions[i as int].key);
            assert(q.qtype == c.questions[i as int].qtype);
            questions.push((q.key, q.qtype));
            assert(questions@[i as int].0@ == qn);
            proof {
                assert forall|j: int|
                    0 <= j < i + 1 implies #[trigger] questions@[j].0@ == c.questions[j].key
                    && questions@[j].1 == c.questions[j].qtype by {
                    if j < i {
                        assert(questions@[j] == before[j]);
                    }
                }
            }
            i = i + 1;
        }
        let id = crate::dns::message_id(&packet.message);
        let r = PacketSignature { id, src_addr: packet.src_addr, questions };
        proof {
            assert(r@.questions =~= signature_of(c, packet.src_addr).questions);
        }
        r
    }

    /// Whether two signatures are the same.
    pub fn same(&self, other: &Self) -> (r: bool)
        ensures
            r == (self@ == other@),
    {
        if self.id != other.id || self.src_addr != other.src_addr || self.questions.len()
            != other.questions.len() {
            proof {
                if self.questions.len() != other.questions.len() {
                    assert(self@.questions.len() != other@.questions.len());
                }
            }
            return false;
        }
        let n = self.questions.len();
        let mut i: usize = 0;
        while i < n
            invariant
                n == self.questions@.len(),
                n == other.questions@.len(),
                i <= n,
                forall|j: int| 0 <= j < i ==> self@.questions[j] == other@.questions[j],
            decreases n - i,
        {
            let a = &self.questions[i];
            let b = &other.questions[i];
            if a.1 != b.1 || !str_eq(a.0.as_str(), b.0.as_str()) {
                proof {
                    assert(self@.questions[i as int] != other@.questions[i as int]);
                }
                return false;
            }
            i = i + 1;
        }
        proof {
            assert(self@.questions =~= other@.questions);
        }
        true
    }
}

/// The keys of a list of entries, each with its timestamp.
pub open spec fn entry_views(v: Seq<(PacketSignature, u128)>) -> Seq<(SignatureView, u128)> {
    v.map_values(|e: (PacketSignature, u128)| (e.0@, e.1))
}

/// No key occurs twice.
pub open spec fn distinct_keys(s: Seq<(SignatureView, u128)>) -> bool {
    forall|i: int, j: int| 0 <= i < j < s.len() ==> #[trigger] s[i].0 != #[trigger] s[j].0
}

/// Entry `i` is in the map with its timestamp.
pub proof fn lemma_entries_map_index(s: Seq<(SignatureView, u128)>, i: int)
    requires
        distinct_keys(s),
        0 <= i < s.len(),
    ensures
        entries_map(s).contains_key(s[i].0),
        entries_map(s)[s[i].0] == s[i].1,
    decreases s.len(),
{
    let p = s.drop_last();
    if i < s.len() - 1 {
        assert(distinct_keys(p));
        assert(p[i] == s[i]);
        lemma_entries_map_index(p, i);
        assert(s[i].0 != s[s.len() - 1].0);
    }
}

/// A key of the map is the key of some entry.
pub proof fn lemma_entries_map_key(s: Seq<(SignatureView, u128)>, k: SignatureView) -> (i: int)
    requires
        entries_map(s).contains_key(k),
    ensures
        0 <= i < s.len(),
        s[i].0 == k,
    decreases s.len(),
{
    if s.len() == 0 {
        0
    } else if s.last().0 == k {
        s.len() - 1
    } else {
        let p = s.drop_last();
        let j = lemma_entries_map_key(p, k);
        assert(p[j] == s[j]);
        j
    }
}

/// The map from each key to its timestamp.
pub open spec fn entries_map(s: Seq<(SignatureView, u128)>) -> Map<SignatureView, u128>
    decreases s.len(),
{
    if s.len() == 0 {
        Map::empty()
    } else {
        entries_map(s.drop_last()).insert(s.last().0, s.last().1)
    }
}

pub proof fn lemma_entries_map(s: Seq<(SignatureView, u128)>)
    requires
        distinct_keys(s),
    ensures
        forall|k: SignatureView|
            #[trigger] entries_map(s).contains_key(k) <==> exists|i: int| 0 <= i < s.len() && s[i].0 == k,
        forall|i: int| 0 <= i < s.len() ==> entries_map(s)[#[trigger] s[i].0] == s[i].1,
    decreases s.len(),
{
    if s.len() > 0 {
        let p = s.drop_last();
        assert(distinct_keys(p));
        lemma_entries_map(p);
        assert(entries_map(s) == entries_map(p).insert(s.last().0, s.last().1));
        assert forall|k: SignatureView|
            #[trigger] entries_map(s).contains_key(k) <==> exists|i: int| 0 <= i < s.len() && s[i].0 == k by {
            if entries_map(s).contains_key(k) && k != s.last().0 {
                assert(entries_map(p).contains_key(k));
                let i = choose|i: int| 0 <= i < p.len() && p[i].0 == k;
                assert(p[i] == s[i]);
            }
            if entries_map(s).contains_key(k) && k == s.last().0 {
                assert(s[s.len() - 1].0 == k);
            }
            if exists|i: int| 0 <= i < s.len() && s[i].0 == k {
                let i = choose|i: int| 0 <= i < s.len() && s[i].0 == k;
                if i < p.len() {
                    assert(p[i] == s[i]);
                    assert(entries_map(p).contains_key(k));
                }
            }
        }
        assert forall|i: int| 0 <= i < s.len() implies entries_map(s)[#[trigger] s[i].0] == s[i].1 by {
            if i < p.len() {
                assert(p[i].0 == s[i].0);
                assert(s[i].0 != s.last().0);
            }
        }
    }
}

/// Whether a packet with signature `sig` counts as seen at `now`.
pub open spec fn seen_recently(
    m: Map<SignatureView, u128>,
    max_age: u128,
    sig: SignatureView,
    now: u128,
) -> bool {
    m.contains_key(sig) && elapsed_ns(now, m[sig]) < max_age
}

/// The entries that have not yet expired at `now`.
pub open spec fn fresh_entries(m: Map<SignatureView, u128>, max_age: u128, now: u128) -> Map<
    SignatureView,
    u128,
> {
    Map::new(|k: SignatureView| m.contains_key(k) && elapsed_ns(now, m[k]) < max_age, |k| m[k])
}

/// `nv` holds, each once, the entries of `ev` from index `lo` on that have
/// not expired at `now`.
#[verifier::opaque]
pub open spec fn kept_from(
    nv: Seq<(SignatureView, u128)>,
    ev: Seq<(SignatureView, u128)>,
    lo: int,
    now: u128,
    max_age: u128,
) -> bool {
    &&& forall|a: int| 0 <= a < nv.len() ==> fresh_source(#[trigger] nv[a], ev, lo, now, max_age)
    &&& forall|b: int|
        lo <= b < ev.len() && #[trigger] is_fresh(ev[b], now, max_age) ==> exists|a: int|
            0 <= a < nv.len() && nv[a] == ev[b]
}

/// `x` is an entry of `ev` from index `lo` on that has not expired.
pub open spec fn fresh_source(
    x: (SignatureView, u128),
    ev: Seq<(SignatureView, u128)>,
    lo: int,
    now: u128,
    max_age: u128,
) -> bool {
    exists|b: int| lo <= b < ev.len() && elapsed_ns(now, ev[b].1) < max_age && x == ev[b]
}

/// The entry has not expired at `now`.
pub open spec fn is_fresh(e: (SignatureView, u128), now: u128, max_age: u128) -> bool {
    elapsed_ns(now, e.1) < max_age
}

proof fn lemma_kept_step_keep(
    cur: Seq<(SignatureView, u128)>,
    ev: Seq<(SignatureView, u128)>,
    rem: int,
    now: u128,
    max_age: u128,
)
    requires
        0 < rem <= ev.len(),
        distinct_keys(ev),
        distinct_keys(cur),
        kept_from(cur, ev, rem, now, max_age),
        elapsed_ns(now, ev[rem - 1].1) < max_age,
    ensures
        distinct_keys(cur.push(ev[rem - 1])),
        kept_from(cur.push(ev[rem - 1]), ev, rem - 1, now, max_age),
{
    reveal(kept_from);
    let nv = cur.push(ev[rem - 1]);
    assert forall|a: int, b: int| 0 <= a < b < nv.len() implies #[trigger] nv[a].0
        != #[trigger] nv[b].0 by {
        if b == cur.len() {
            assert(nv[a] == cur[a]);
            let c = choose|c: int|
                rem <= c < ev.len() && elapsed_ns(now, ev[c].1) < max_age && cur[a] == ev[c];
            assert(ev[rem - 1].0 != ev[c].0);
        } else {
            assert(nv[a] == cur[a] && nv[b] == cur[b]);
        }
    }
    assert forall|a: int| 0 <= a < nv.len() implies fresh_source(#[trigger] nv[a], ev, rem - 1, now, max_age) by {
        if a < cur.len() {
            assert(nv[a] == cur[a]);
            let c = choose|c: int|
                rem <= c < ev.len() && elapsed_ns(now, ev[c].1) < max_age && cur[a] == ev[c];
        } else {
            assert(nv[a] == ev[rem - 1]);
        }
    }
    assert forall|b: int|
        rem - 1 <= b < ev.len() && #[trigger] is_fresh(ev[b], now, max_age) implies exists|a: int|
        0 <= a < nv.len() && nv[a] == ev[b] by {
        if b == rem - 1 {
            assert(nv[cur.len() as int] == ev[b]);
        } else {
            let a = choose|a: int| 0 <= a < cur.len() && cur[a] == ev[b];
            assert(nv[a] == cur[a]);
        }
    }
}

proof fn lemma_kept_step_drop(
    cur: Seq<(SignatureView, u128)>,
    ev: Seq<(SignatureView, u128)>,
    rem: int,
    now: u128,
    max_age: u128,
)
    requires
        0 < rem <= ev.len(),
        kept_from(cur, ev, rem, now, max_age),
        !(elapsed_ns(now, ev[rem - 1].1) < max_age),
    ensures
        kept_from(cur, ev, rem - 1, now, max_age),
{
    reveal(kept_from);
    assert forall|a: int| 0 <= a < cur.len() implies fresh_source(#[trigger] cur[a], ev, rem - 1, now, max_age) by {
        let c = choose|c: int|
            rem <= c < ev.len() && elapsed_ns(now, ev[c].1) < max_age && cur[a] == ev[c];
        assert(rem - 1 <= c < ev.len() && elapsed_ns(now, ev[c].1) < max_age && cur[a] == ev[c]);
    }
    assert forall|b: int|
        rem - 1 <= b < ev.len() && #[trigger] is_fresh(ev[b], now, max_age) implies exists|a: int|
        0 <= a < cur.len() && cur[a] == ev[b] by {
        assert(b >= rem);
    }
}

proof fn lemma_kept_back(
    nv: Seq<(SignatureView, u128)>,
    ev: Seq<(SignatureView, u128)>,
    now: u128,
    max_age: u128,
    k: SignatureView,
)
    requires
        distinct_keys(ev),
        distinct_keys(nv),
        kept_from(nv, ev, 0, now, max_age),
        entries_map(nv).contains_key(k),
    ensures
        fresh_entries(entries_map(ev), max_age, now).contains_key(k),
        entries_map(nv)[k] == fresh_entries(entries_map(ev), max_age, now)[k],
{
    let a = lemma_entries_map_key(nv, k);
    lemma_entries_map_index(nv, a);
    let b = lemma_kept_source(nv, ev, now, max_age, a);
    lemma_entries_map_index(ev, b);
}

proof fn lemma_kept_source(
    nv: Seq<(SignatureView, u128)>,
    ev: Seq<(SignatureView, u128)>,
    now: u128,
    max_age: u128,
    a: int,
) -> (b: int)
    requires
        kept_from(nv, ev, 0, now, max_age),
        0 <= a < nv.len(),
    ensures
        0 <= b < ev.len(),
        elapsed_ns(now, ev[b].1) < max_age,
        nv[a] == ev[b],
{
    reveal(kept_from);
    choose|b: int| 0 <= b < ev.len() && elapsed_ns(now, ev[b].1) < max_age && nv[a] == ev[b]
}

proof fn lemma_kept_target(
    nv: Seq<(SignatureView, u128)>,
    ev: Seq<(SignatureView, u128)>,
    now: u128,
    max_age: u128,
    b: int,
) -> (a: int)
    requires
        kept_from(nv, ev, 0, now, max_age),
        0 <= b < ev.len(),
        elapsed_ns(now, ev[b].1) < max_age,
    ensures
        0 <= a < nv.len(),
        nv[a] == ev[b],
{
    reveal(kept_from);
    assert(is_fresh(ev[b], now, max_age));
    choose|a: int| 0 <= a < nv.len() && nv[a] == ev[b]
}

proof fn lemma_kept_forth(
    nv: Seq<(SignatureView, u128)>,
    ev: Seq<(SignatureView, u128)>,
    now: u128,
    max_age: u128,
    k: SignatureView,
)
    requires
        distinct_keys(ev),
        distinct_keys(nv),
        kept_from(nv, ev, 0, now, max_age),
        fresh_entries(entries_map(ev), max_age, now).contains_key(k),
    ensures
        entries_map(nv).contains_key(k),
{
    let b = lemma_entries_map_key(ev, k);
    lemma_entries_map_index(ev, b);
    let a = lemma_kept_target(nv, ev, now, max_age, b);
    lemma_entries_map_index(nv, a);
}

proof fn lemma_kept_final(
    nv: Seq<(SignatureView, u128)>,
    ev: Seq<(SignatureView, u128)>,
    now: u128,
    max_age: u128,
)
    requires
        distinct_keys(ev),
        distinct_keys(nv),
        kept_from(nv, ev, 0, now, max_age),
    ensures
        entries_map(nv) == fresh_entries(entries_map(ev), max_age, now),
{
    let mn = entries_map(nv);
    let me = entries_map(ev);
    let target = fresh_entries(me, max_age, now);
    assert forall|k: SignatureView| #[trigger] mn.contains_key(k) implies target.contains_key(k) && mn[k] == target[k] by {
        lemma_kept_back(nv, ev, now, max_age, k);
    }
    assert forall|k: SignatureView| #[trigger] target.contains_key(k) implies mn.contains_key(k) by {
        lemma_kept_forth(nv, ev, now, max_age, k);
    }
    assert(mn =~= target);
}

/// Packet cache for loop prevention: when each packet signature was last
/// seen, in nanoseconds of its clock.
pub struct PacketCache {
    clock: Clock,
    entries: Vec<(PacketSignature, u128)>,
    max_age: u128,
}

impl View for PacketCache {
    type V = Map<SignatureView, u128>;

    closed spec fn view(&self) -> Map<SignatureView, u128> {
        entries_map(entry_views(self.entries@))
    }
}

impl PacketCache {
    /// No signature is held twice.
    #[verifier::type_invariant]
    closed spec fn inv(&self) -> bool {
        distinct_keys(entry_views(self.entries@))
    }

    /// How long, in nanoseconds, a seen packet is remembered.
    pub closed spec fn max_age_ns(&self) -> u128 {
        self.max_age
    }

    /// The latest reading of this cache's clock.
    pub closed spec fn clock_reading(&self) -> u128 {
        self.clock.last_reading()
    }

    /// An empty cache remembering packets for `max_age_secs` seconds.
    pub fn new(max_age_secs: u64) -> (r: Self)
        ensures
            r@ == Map::<SignatureView, u128>::empty(),
            r.max_age_ns() == max_age_secs as u128 * 1_000_000_000,
            r.clock_reading() == 0,
    {
        let r = PacketCache {
            clock: Clock::new(),
            entries: Vec::new(),
            max_age: (max_age_secs as u128) * 1_000_000_000,
        };
        proof {
            assert(entry_views(r.entries@) =~= Seq::<(SignatureView, u128)>::empty());
        }
        r
    }

    /// A new reading of this cache's clock, never below the last one.
    pub fn clock_now(&mut self) -> (r: u128)
        ensures
            r >= old(self).clock_reading(),
            final(self).clock_reading() == r,
            final(self)@ == old(self)@,
            final(self).max_age_ns() == old(self).max_age_ns(),
    {
        proof {
            use_type_invariant(&*self);
        }
        let mut clock = self.clock;
        let r = clock.now_ns();
        self.clock = clock;
        r
    }

    fn find(&self, sig: &PacketSignature) -> (r: Option<usize>)
        ensures
            match r {
                Some(i) => i < self.entries@.len() && self.entries@[i as int].0@ == sig@,
                None => !self@.contains_key(sig@),
            },
    {
        proof {
            use_type_invariant(self);
        }
        let ghost ev = entry_views(self.entries@);
        proof {
            lemma_entries_map(ev);
        }
        let mut i: usize = 0;
        while i < self.entries.len()
            invariant
                ev == entry_views(self.entries@),
                i <= self.entries@.len(),
                forall|j: int| 0 <= j < i ==> ev[j].0 != sig@,
            decreases self.entries@.len() - i,
        {
            if self.entries[i].0.same(sig) {
                return Some(i);
            }
            i = i + 1;
        }
        None
    }

    /// Whether a packet with this signature was seen less than the maximum
    /// age before `now`.
    pub fn contains_sig_at(&self, sig: &PacketSignature, now: u128) -> (r: bool)
        ensures
            r == seen_recently(self@, self.max_age_ns(), sig@, now),
    {
        proof {
            use_type_invariant(self);
            lemma_entries_map(entry_views(self.entries@));
        }
        match self.find(sig) {
            Some(i) => {
                let t = self.entries[i].1;
                proof {
                    assert(entry_views(self.entries@)[i as int].0 == sig@);
                }
                now >= t && now - t < self.max_age || now < t && 0 < self.max_age
            },
            None => false,
        }
    }

    /// Whether the packet was seen less than the maximum age before `now`.
    pub fn contains_at(&self, packet: &MdnsPacket, now: u128) -> (r: bool)
        ensures
            r == seen_recently(
                self@,
                self.max_age_ns(),
                signature_of(packet.contents(), packet.src_addr),
                now,
            ),
    {
        let sig = PacketSignature::from_packet(packet);
        self.contains_sig_at(&sig, now)
    }

    /// Record that a packet with this signature was seen at `now`.
    pub fn insert_sig_at(&mut self, sig: PacketSignature, now: u128)
        ensures
            final(self)@ == old(self)@.insert(sig@, now),
            final(self).max_age_ns() == old(self).max_age_ns(),
            final(self).clock_reading() == old(self).clock_reading(),
    {
        proof {
            use_type_invariant(&*self);
        }
        let ghost ev = entry_views(self.entries@);
        let ghost key = sig@;
        proof {
            lemma_entries_map(ev);
        }
        let found = self.find(&sig);
        let mut entries: Vec<(PacketSignature, u128)> = Vec::new();
        std::mem::swap(&mut entries, &mut self.entries);
        match found {
            Some(i) => {
                entries.set(i, (sig, now));
                proof {
                    let nv = entry_views(entries@);
                    assert(ev[i as int].0 == key);
                    assert(nv =~= ev.update(i as int, (key, now)));
                    assert forall|a: int| 0 <= a < nv.len() implies #[trigger] nv[a].0 == ev[a].0 by {}
                    assert forall|a: int, b: int| 0 <= a < b < nv.len() implies #[trigger] nv[a].0
                        != #[trigger] nv[b].0 by {
                        assert(nv[a].0 == ev[a].0);
                        assert(nv[b].0 == ev[b].0);
                    }
                    lemma_entries_map(nv);
                    let target = entries_map(ev).insert(key, now);
                    assert forall|k: SignatureView| entries_map(nv).contains_key(k) <==> target.contains_key(k) by {
                        if entries_map(nv).contains_key(k) {
                            let a = choose|a: int| 0 <= a < nv.len() && nv[a].0 == k;
                            assert(ev[a].0 == k);
                        }
                        if target.contains_key(k) && k != key {
                            let a = choose|a: int| 0 <= a < ev.len() && ev[a].0 == k;
                            assert(nv[a].0 == k);
                        }
                        if k == key {
                            assert(nv[i as int].0 == k);
                        }
                    }
                    assert forall|k: SignatureView| entries_map(nv).contains_key(k) implies entries_map(nv)[k]
                        == target[k] by {
                        let a = choose|a: int| 0 <= a < nv.len() && nv[a].0 == k;
                        assert(entries_map(nv)[nv[a].0] == nv[a].1);
                        if a != i {
                            assert(entries_map(ev)[ev[a].0] == ev[a].1);
                        }
                    }
                    assert(entries_map(nv) =~= target);
                }
            },
            None => {
                entries.push((sig, now));
                proof {
                    let nv = entry_views(entries@);
                    assert(nv =~= ev.push((key, now)));
                    assert(nv.drop_last() =~= ev);
                    assert forall|a: int, b: int| 0 <= a < b < nv.len() implies #[trigger] nv[a].0
                        != #[trigger] nv[b].0 by {
                        if b == ev.len() {
                            assert(entries_map(ev).contains_key(ev[a].0));
                        }
                    }
                }
            },
        }
        self.entries = entries;
    }

    /// Record that the packet was seen at `now`.
    pub fn insert_at(&mut self, packet: &MdnsPacket, now: u128)
        ensures
            final(self)@ == old(self)@.insert(signature_of(packet.contents(), packet.src_addr), now),
            final(self).max_age_ns() == old(self).max_age_ns(),
            final(self).clock_reading() == old(self).clock_reading(),
    {
        let sig = PacketSignature::from_packet(packet);
        self.insert_sig_at(sig, now);
    }

    /// Forget the entries that have expired at `now`.
    pub fn cleanup_at(&mut self, now: u128)
        ensures
            final(self)@ == fresh_entries(old(self)@, old(self).max_age_ns(), now),
            final(self).max_age_ns() == old(self).max_age_ns(),
            final(self).clock_reading() == old(self).clock_reading(),
    {
        proof {
            use_type_invariant(&*self);
        }
        let ghost ev = entry_views(self.entries@);
        let ghost max_age = self.max_age;
        let mut pending: Vec<(PacketSignature, u128)> = Vec::new();
        std::mem::swap(&mut pending, &mut self.entries);
        let mut kept: Vec<(PacketSignature, u128)> = Vec::new();
        proof {
            assert(entry_views(kept@) =~= Seq::<(SignatureView, u128)>::empty());
            assert(entry_views(pending@) == ev);
            assert(ev.take(ev.len() as int) =~= ev);
            reveal(kept_from);
        }
        while pending.len() > 0
            invariant
                max_age == self.max_age,
                distinct_keys(ev),
                entry_views(pending@) == ev.take(pending@.len() as int),
                pending@.len() <= ev.len(),
                distinct_keys(entry_views(kept@)),
                kept_from(entry_views(kept@), ev, pending@.len() as int, now, max_age),
            decreases pending@.len(),
        {
            let ghost rem = pending@.len() as int;
            let ghost cur = entry_views(kept@);
            let e = pending.pop().unwrap();
            proof {
                assert(ev.take(rem)[rem - 1] == ev[rem - 1]);
                assert(entry_views(pending@) =~= ev.take(rem - 1));
                assert((e.0@, e.1) == ev[rem - 1]);
            }
            let t = e.1;
            if now >= t && now - t < self.max_age || now < t && 0 < self.max_age {
                kept.push(e);
                proof {
                    assert(entry_views(kept@) =~= cur.push(ev[rem - 1]));
                    lemma_kept_step_keep(cur, ev, rem, now, max_age);
                }
            } else {
                proof {
                    lemma_kept_step_drop(cur, ev, rem, now, max_age);
                }
            }
        }
        proof {
            lemma_kept_final(entry_views(kept@), ev, now, max_age);
        }
        self.entries = kept;
    }

    /// Whether the packet was seen recently, by this cache's clock (read
    /// anew, never below its last reading).
    pub fn contains(&mut self, packet: &MdnsPacket) -> (r: bool)
        ensures
            final(self)@ == old(self)@,
            final(self).max_age_ns() == old(self).max_age_ns(),
            exists|now: u128|
                {
                    &&& now >= old(self).clock_reading()
                    &&& final(self).clock_reading() == now
                    &&& r == #[trigger] seen_recently(
                        old(self)@,
                        old(self).max_age_ns(),
                        signature_of(packet.contents(), packet.src_addr),
                        now,
                    )
                },
    {
        let now = self.clock_now();
        self.contains_at(packet, now)
    }

    /// Record that the packet was seen now, by this cache's clock.
    pub fn insert(&mut self, packet: &MdnsPacket)
        ensures
            exists|now: u128|
                {
                    &&& now >= old(self).clock_reading()
                    &&& final(self).clock_reading() == now
                    &&& final(self)@ == #[trigger] old(self)@.insert(
                        signature_of(packet.contents(), packet.src_addr),
                        now,
                    )
                },
            final(self).max_age_ns() == old(self).max_age_ns(),
    {
        let now = self.clock_now();
        self.insert_at(packet, now);
    }

    /// Forget the entries that have expired, by this cache's clock.
    pub fn cleanup(&mut self)
        ensures
            exists|now: u128|
                {
                    &&& now >= old(self).clock_reading()
                    &&& final(self).clock_reading() == now
                    &&& final(self)@ == #[trigger] fresh_entries(
                        old(self)@,
                        old(self).max_age_ns(),
                        now,
                    )
                },
            final(self).max_age_ns() == old(self).max_age_ns(),
    {
        let now = self.clock_now();
        self.cleanup_at(now);
    }
}


/// Two packets have the same signature only if they have the same message
/// id and source address and ask the same questions: as many, with the same
/// names (in lower case) and types, in the same order.
pub proof fn lemma_signature_identifies_questions(
    c1: DnsContents,
    a1: SocketAddress,
    c2: DnsContents,
    a2: SocketAddress,
)
    requires
        signature_of(c1, a1) == signature_of(c2, a2),
    ensures
        c1.id == c2.id,
        a1 == a2,
        c1.questions.len() == c2.questions.len(),
        forall|i: int|
            0 <= i < c1.questions.len() ==> #[trigger] c1.questions[i].key == c2.questions[i].key
                && c1.questions[i].qtype == c2.questions[i].qtype,
{
    let q1 = signature_of(c1, a1).questions;
    let q2 = signature_of(c2, a2).questions;
    assert(q1.len() == c1.questions.len());
    assert(q2.len() == c2.questions.len());
    assert forall|i: int| 0 <= i < c1.questions.len() implies #[trigger] c1.questions[i].key
        == c2.questions[i].key && c1.questions[i].qtype == c2.questions[i].qtype by {
        assert(q1[i] == q2[i]);
    }
}

/// A packet that asks other questions than one just recorded is not taken
/// for it: recording a packet leaves unchanged whether a packet with a
/// different question list counts as seen.
pub proof fn lemma_other_questions_not_duplicate(
    m: Map<SignatureView, u128>,
    max_age: u128,
    c1: DnsContents,
    c2: DnsContents,
    a: SocketAddress,
    t: u128,
    now: u128,
    i: int,
)
    requires
        0 <= i < c1.questions.len(),
        i < c2.questions.len(),
        c1.questions[i].key != c2.questions[i].key || c1.questions[i].qtype
            != c2.questions[i].qtype,
    ensures
        seen_recently(m.insert(signature_of(c1, a), t), max_age, signature_of(c2, a), now)
            == seen_recently(m, max_age, signature_of(c2, a), now),
        !seen_recently(
            Map::<SignatureView, u128>::empty().insert(signature_of(c1, a), t),
            max_age,
            signature_of(c2, a),
            now,
        ),
{
    if signature_of(c1, a) == signature_of(c2, a) {
        lemma_signature_identifies_questions(c1, a, c2, a);
    }
}

/// A packet is recognised as seen exactly while less than the maximum age
/// has passed since it was recorded.
pub proof fn lemma_seen_after_insert(
    m: Map<SignatureView, u128>,
    max_age: u128,
    sig: SignatureView,
    t: u128,
    later: u128,
)
    ensures
        seen_recently(m.insert(sig, t), max_age, sig, later) == (elapsed_ns(later, t) < max_age),
{
}

/// Recording one packet does not change what is known of another.
pub proof fn lemma_insert_keeps_others(
    m: Map<SignatureView, u128>,
    max_age: u128,
    sig: SignatureView,
    other: SignatureView,
    t: u128,
    now: u128,
)
    requires
        sig != other,
    ensures
        seen_recently(m.insert(sig, t), max_age, other, now) == seen_recently(m, max_age, other, now),
{
}

/// Sweeping expired entries at `now` changes no answer given at `now`.
pub proof fn lemma_cleanup_keeps_lookups(
    m: Map<SignatureView, u128>,
    max_age: u128,
    sig: SignatureView,
    now: u128,
)
    ensures
        seen_recently(fresh_entries(m, max_age, now), max_age, sig, now) == seen_recently(
            m,
            max_age,
            sig,
            now,
        ),
{
}

/// A discovered service held in the cache.
#[derive(Debug, Clone)]
pub struct CachedService {
    pub name: String,
    /// Clock reading (nanoseconds) at which the entry expires
    pub expires_at: u128,
}

/// An entry of the service cache: key, service name, expiry.
pub open spec fn service_entry_view(e: (String, CachedService)) -> (Seq<char>, Seq<char>, u128) {
    (e.0@, e.1.name@, e.1.expires_at)
}

/// The entry is still valid at `now`.
pub open spec fn unexpired(now: u128) -> spec_fn((Seq<char>, Seq<char>, u128)) -> bool {
    |e: (Seq<char>, Seq<char>, u128)| now < e.2
}

/// Keeping some entries of a list with distinct keys keeps them distinct.
pub proof fn lemma_filter_keeps_keys_distinct(
    s: Seq<(Seq<char>, Seq<char>, u128)>,
    pred: spec_fn((Seq<char>, Seq<char>, u128)) -> bool,
)
    requires
        service_keys(s).no_duplicates(),
    ensures
        service_keys(s.filter(pred)).no_duplicates(),
    decreases s.len(),
{
    reveal(Seq::filter);
    if s.len() > 0 {
        let p = s.drop_last();
        assert(service_keys(p) =~= service_keys(s).drop_last());
        lemma_filter_keeps_keys_distinct(p, pred);
        let f = p.filter(pred);
        if pred(s.last()) {
            let g = f.push(s.last());
            assert(s.filter(pred) == g);
            assert forall|i: int, j: int|
                0 <= i < j < g.len() implies service_keys(g)[i] != service_keys(g)[j] by {
                if j == g.len() - 1 {
                    p.lemma_filter_contains_rev(pred, f[i]);
                    let m = choose|m: int| 0 <= m < p.len() && p[m] == f[i];
                    assert(service_keys(s)[m] != service_keys(s)[s.len() - 1]);
                } else {
                    assert(service_keys(g)[i] == service_keys(f)[i]);
                    assert(service_keys(g)[j] == service_keys(f)[j]);
                }
            }
        }
    }
}

/// Service cache for discovered services.
pub struct ServiceCache {
    clock: Clock,
    services: Vec<(String, CachedService)>,
}

impl View for ServiceCache {
    type V = Seq<(Seq<char>, Seq<char>, u128)>;

    closed spec fn view(&self) -> Seq<(Seq<char>, Seq<char>, u128)> {
        service_views(self.services@)
    }
}

/// The entries as values.
pub open spec fn service_views(v: Seq<(String, CachedService)>) -> Seq<(Seq<char>, Seq<char>, u128)> {
    v.map_values(|e: (String, CachedService)| service_entry_view(e))
}

/// The keys of the entries, in order.
pub open spec fn service_keys(s: Seq<(Seq<char>, Seq<char>, u128)>) -> Seq<Seq<char>> {
    s.map_values(|e: (Seq<char>, Seq<char>, u128)| e.0)
}

impl ServiceCache {
    /// No key is held twice.
    #[verifier::type_invariant]
    closed spec fn inv(&self) -> bool {
        service_keys(self@).no_duplicates()
    }

    /// The latest reading of this cache's clock.
    pub closed spec fn clock_reading(&self) -> u128 {
        self.clock.last_reading()
    }

    /// An empty cache.
    pub fn new() -> (r: Self)
        ensures
            r@ == Seq::<(Seq<char>, Seq<char>, u128)>::empty(),
            r.clock_reading() == 0,
    {
        let r = ServiceCache { clock: Clock::new(), services: Vec::new() };
        proof {
            assert(r@ =~= Seq::<(Seq<char>, Seq<char>, u128)>::empty());
            assert(service_keys(r@) =~= Seq::<Seq<char>>::empty());
        }
        r
    }

    /// A new reading of this cache's clock, never below the last one.
    pub fn clock_now(&mut self) -> (r: u128)
        ensures
            r >= old(self).clock_reading(),
            final(self).clock_reading() == r,
            final(self)@ == old(self)@,
    {
        proof {
            use_type_invariant(&*self);
        }
        let mut clock = self.clock;
        let r = clock.now_ns();
        self.clock = clock;
        r
    }

    /// Drop the entries that have expired at `now`, keeping the others in
    /// order.
    pub fn cleanup_at(&mut self, now: u128)
        ensures
            final(self)@ == old(self)@.filter(unexpired(now)),
            final(self).clock_reading() == old(self).clock_reading(),
    {
        broadcast use Seq::lemma_filter_push;
        proof {
            use_type_invariant(&*self);
        }
        let ghost all = self@;
        let mut pending: Vec<(String, CachedService)> = Vec::new();
        std::mem::swap(&mut pending, &mut self.services);
        let mut kept: Vec<(String, CachedService)> = Vec::new();
        let ghost total = pending@.len();
        proof {
            assert(service_views(kept@) =~= all.take(0).filter(unexpired(now)));
            assert(service_views(pending@) =~= all.skip(0));
        }
        while pending.len() > 0
            invariant
                total == all.len(),
                service_keys(all).no_duplicates(),
                pending@.len() <= total,
                service_views(pending@) == all.skip(total - pending@.len()),
                service_views(kept@) == all.take(total - pending@.len()).filter(unexpired(now)),
            decreases pending@.len(),
        {
            let ghost k = total - pending@.len();
            let ghost before = service_views(kept@);
            let ghost pv = service_views(pending@);
            let ghost old_pending = pending@;
            let e = pending.remove(0);
            proof {
                assert(pending@ =~= old_pending.subrange(1, old_pending.len() as int));
                assert(all.skip(k + 1) =~= pv.subrange(1, pv.len() as int));
                assert(pv[0] == all[k]);
                assert(service_entry_view(e) == all[k]);
                assert(service_views(pending@) =~= all.skip(k + 1));
                assert(all.take(k + 1) =~= all.take(k).push(all[k]));
            }
            proof {
                Seq::lemma_filter_push(all.take(k), all[k], unexpired(now));
                assert(unexpired(now)(all[k]) == (now < e.1.expires_at));
            }
            if now < e.1.expires_at {
                kept.push(e);
                proof {
                    assert(service_views(kept@) =~= before.push(all[k]));
                }
            }
        }
        proof {
            assert(all.take(total as int) =~= all);
            lemma_filter_keeps_keys_distinct(all, unexpired(now));
        }
        self.services = kept;
    }

    /// Drop the entries that have expired, by this cache's clock.
    pub fn cleanup(&mut self)
        ensures
            exists|now: u128|
                {
                    &&& now >= old(self).clock_reading()
                    &&& final(self).clock_reading() == now
                    &&& final(self)@ == #[trigger] old(self)@.filter(unexpired(now))
                },
    {
        let now = self.clock_now();
        self.cleanup_at(now);
    }
}

} // verus!
