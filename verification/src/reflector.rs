//! The reflection engine: for each received packet, the rate limit, loop
//! prevention, service filters and zone rules decide whether and where it is
//! reflected, and with which TTLs.

use vstd::prelude::*;
use vstd::string::*;
use crate::config::{Config, ConfigError, config_error_view};
use crate::dns::DnsContents;
use crate::mdns::{
    MdnsPacket, MdnsError, SocketAddress, needs_capping, service_types, capped_contents,
    lemma_capped_ttls, lemma_capping_without_excess,
};
use crate::rate::{RateLimiter, RateState, rate_step};
use crate::cache::{
    PacketCache, ServiceCache, SignatureView, signature_of, seen_recently, fresh_entries,
    unexpired,
};
use crate::policy::{
    ZoneView, zones_view, filters_view, passes_filters, reflection_targets, passes_service_filters,
    targets_for, is_reflection_allowed, reflection_allowed, lemma_no_filters_pass, zone_name,
    zone_name_of,
};
use crate::clock::elapsed_ns;

verus! {

/// Why a reflector cannot be made.
#[derive(Debug, Clone)]
pub enum ReflectorError {
    /// The configuration is refused.
    InvalidConfig(ConfigError),
    /// No interface has a usable socket.
    NoSockets,
}

/// What becomes of a received packet.
pub enum Decision {
    /// Dropped by the rate limiter.
    RateLimited,
    /// Dropped as a packet seen recently (loop prevention).
    Duplicate,
    /// Dropped by the service filters.
    Filtered,
    /// Sent on these interfaces, over IPv6 or IPv4.
    Reflect { targets: Seq<Seq<char>>, ipv6: bool },
}

/// The decision on one packet, with the rate limiter and the packet cache
/// that follow it. The rate limiter sees the packet first; with loop
/// prevention on, a packet seen recently is dropped and any other is
/// remembered; then the service filters apply; then the packet goes to the
/// other interfaces that the zones allow.
pub open spec fn reflect_decision(
    config: Config,
    interfaces: Seq<Seq<char>>,
    limiter: RateState,
    cache: Map<SignatureView, u128>,
    max_age: u128,
    contents: DnsContents,
    src_addr: SocketAddress,
    source: Seq<char>,
    limiter_now: u128,
    cache_now: u128,
) -> (RateState, Map<SignatureView, u128>, Decision) {
    let (limiter2, allowed) = rate_step(limiter, config.settings.rate_limit, limiter_now);
    if !allowed {
        (limiter2, cache, Decision::RateLimited)
    } else {
        let sig = signature_of(contents, src_addr);
        if config.settings.loop_prevention && seen_recently(cache, max_age, sig, cache_now) {
            (limiter2, cache, Decision::Duplicate)
        } else {
            let cache2 = if config.settings.loop_prevention {
                cache.insert(sig, cache_now)
            } else {
                cache
            };
            if !passes_filters(
                service_types(contents),
                filters_view(config.service_filters@),
                zone_name_of(zones_view(config.zones@), source),
            ) {
                (limiter2, cache2, Decision::Filtered)
            } else {
                (
                    limiter2,
                    cache2,
                    Decision::Reflect {
                        targets: reflection_targets(interfaces, zones_view(config.zones@), source),
                        ipv6: !(src_addr.ip is V4),
                    },
                )
            }
        }
    }
}

/// The bytes to send: the packet's message with its TTLs capped at
/// `max_ttl` (`None` where it cannot be written) when `max_ttl` is below
/// 255 or some answer or additional record has a TTL above it; else the
/// packet as received.
pub open spec fn reflected_data(packet: MdnsPacket, max_ttl: u32) -> Option<Seq<u8>> {
    if max_ttl < 255 || needs_capping(packet.contents(), max_ttl) {
        packet.capped_bytes(max_ttl)
    } else {
        Some(packet.raw_data@)
    }
}

/// A packet to send and the interfaces to send it on.
pub struct ReflectionPlan {
    pub data: Vec<u8>,
    pub targets: Vec<String>,
    pub ipv6: bool,
}

/// Main reflector engine.
pub struct Reflector {
    config: Config,
    interfaces: Vec<String>,
    packet_cache: PacketCache,
    service_cache: ServiceCache,
    rate_limiter: RateLimiter,
}

impl Reflector {
    pub closed spec fn spec_config(&self) -> Config {
        self.config
    }

    /// The interfaces that have sockets, in order.
    pub closed spec fn spec_interfaces(&self) -> Seq<Seq<char>> {
        self.interfaces.deep_view()
    }

    pub closed spec fn limiter_state(&self) -> RateState {
        self.rate_limiter@
    }

    pub closed spec fn cache_state(&self) -> Map<SignatureView, u128> {
        self.packet_cache@
    }

    pub closed spec fn cache_max_age(&self) -> u128 {
        self.packet_cache.max_age_ns()
    }

    pub closed spec fn services_state(&self) -> Seq<(Seq<char>, Seq<char>, u128)> {
        self.service_cache@
    }

    /// The latest readings of the clocks of the rate limiter, the packet
    /// cache and the service cache.
    pub closed spec fn clock_readings(&self) -> (u128, u128, u128) {
        (
            self.rate_limiter.clock_reading(),
            self.packet_cache.clock_reading(),
            self.service_cache.clock_reading(),
        )
    }

    /// A reflector for `config` over the interfaces that have sockets.
    pub fn new(config: Config, interfaces: Vec<String>) -> (r: Result<Self, ReflectorError>)
        ensures
            match r {
                Ok(refl) => {
                    &&& config.validation() is Ok
                    &&& interfaces@.len() > 0
                    &&& refl.spec_config() == config
                    &&& refl.spec_interfaces() == interfaces.deep_view()
                    &&& refl.limiter_state().count == 0
                    &&& refl.cache_state() == Map::<SignatureView, u128>::empty()
                    &&& refl.cache_max_age() == config.settings.packet_cache_ttl as u128 * 1_000_000_000
                    &&& refl.services_state().len() == 0
                    &&& refl.clock_readings() == (0u128, 0u128, 0u128)
                },
                Err(ReflectorError::InvalidConfig(e)) => config.validation() == Err::<
                    (),
                    Option<Seq<char>>,
                >(config_error_view(e)),
                Err(ReflectorError::NoSockets) => config.validation() is Ok && interfaces@.len()
                    == 0,
            },
    {
        match config.validate() {
            Ok(()) => {},
            Err(e) => {
                return Err(ReflectorError::InvalidConfig(e));
            },
        }
        if interfaces.len() == 0 {
            return Err(ReflectorError::NoSockets);
        }
        let packet_cache = PacketCache::new(config.settings.packet_cache_ttl);
        Ok(
            Reflector {
                config,
                interfaces,
                packet_cache,
                service_cache: ServiceCache::new(),
                rate_limiter: RateLimiter::new(),
            },
        )
    }

    /// The configuration.
    pub fn config(&self) -> (r: &Config)
        ensures
            *r == self.spec_config(),
    {
        &self.config
    }

    /// The interfaces that have sockets.
    pub fn interfaces(&self) -> (r: &Vec<String>)
        ensures
            r.deep_view() == self.spec_interfaces(),
    {
        &self.interfaces
    }

    /// Check if a packet received on `source_interface` should be reflected
    /// based on the service filters that apply to that interface's zone.
    pub fn should_reflect_packet(&self, packet: &MdnsPacket, source_interface: &str) -> (r: bool)
        ensures
            r == passes_filters(
                service_types(packet.contents()),
                filters_view(self.spec_config().service_filters@),
                zone_name_of(zones_view(self.spec_config().zones@), source_interface@),
            ),
    {
        if self.config.service_filters.len() == 0 {
            proof {
                lemma_no_filters_pass(
                    service_types(packet.contents()),
                    filters_view(self.config.service_filters@),
                    zone_name_of(zones_view(self.config.zones@), source_interface@),
                );
            }
            return true;
        }
        let types = packet.get_service_types();
        let zone = zone_name(&self.config.zones, source_interface);
        passes_service_filters(&types, &self.config.service_filters, zone)
    }

    /// Check if reflection is allowed between two interfaces based on zones.
    pub fn is_reflection_allowed(&self, source: &str, target: &str) -> (r: bool)
        ensures
            r == reflection_allowed(zones_view(self.spec_config().zones@), source@, target@),
    {
        is_reflection_allowed(&self.config.zones, source, target)
    }

    /// Decide on a packet received on `source_interface`, at the given
    /// readings of the rate limiter's and the packet cache's clocks; the
    /// sending is left to the caller.
    pub fn reflect_packet_at(
        &mut self,
        packet: &MdnsPacket,
        source_interface: &str,
        limiter_now: u128,
        cache_now: u128,
    ) -> (r: Result<Option<ReflectionPlan>, MdnsError>)
        ensures
            final(self).clock_readings() == old(self).clock_readings(),
            final(self).spec_config() == old(self).spec_config(),
            final(self).spec_interfaces() == old(self).spec_interfaces(),
            final(self).cache_max_age() == old(self).cache_max_age(),
            final(self).services_state() == old(self).services_state(),
            ({
                let (limiter, cache, decision) = reflect_decision(
                    old(self).spec_config(),
                    old(self).spec_interfaces(),
                    old(self).limiter_state(),
                    old(self).cache_state(),
                    old(self).cache_max_age(),
                    packet.contents(),
                    packet.src_addr,
                    source_interface@,
                    limiter_now,
                    cache_now,
                );
                &&& final(self).limiter_state() == limiter
                &&& final(self).cache_state() == cache
                &&& match decision {
                    Decision::Reflect { targets, ipv6 } => match r {
                        Ok(Some(plan)) => {
                            &&& plan.targets.deep_view() == targets
                            &&& plan.ipv6 == ipv6
                            &&& reflected_data(
                                *packet,
                                old(self).spec_config().settings.max_ttl,
                            ) == Some(plan.data@)
                        },
                        Ok(None) => false,
                        Err(e) => reflected_data(
                            *packet,
                            old(self).spec_config().settings.max_ttl,
                        ) is None && e == MdnsError::Encode,
                    },
                    _ => r matches Ok(None),
                }
            }),
    {
        let rate_limit = self.config.settings.rate_limit;
        if !self.rate_limiter.allow_packet_at(rate_limit, limiter_now) {
            return Ok(None);
        }
        if self.config.settings.loop_prevention {
            if self.packet_cache.contains_at(packet, cache_now) {
                return Ok(None);
            }
            self.packet_cache.insert_at(packet, cache_now);
        }
        if !self.should_reflect_packet(packet, source_interface) {
            return Ok(None);
        }
        let max_ttl = self.config.settings.max_ttl;
        let data = if max_ttl < 255 || packet.needs_ttl_cap(max_ttl) {
            match packet.with_ttl(max_ttl) {
                Ok(v) => v,
                Err(e) => {
                    return Err(e);
                },
            }
        } else {
            packet.raw_data.clone()
        };
        let targets = targets_for(&self.interfaces, &self.config.zones, source_interface);
        let ipv6 = !packet.src_addr.is_ipv4();
        Ok(Some(ReflectionPlan { data, targets, ipv6 }))
    }

    /// Decide on a packet received on `source_interface` now.
    pub fn reflect_packet(&mut self, packet: &MdnsPacket, source_interface: &str) -> (r: Result<
        Option<ReflectionPlan>,
        MdnsError,
    >)
        ensures
            final(self).spec_config() == old(self).spec_config(),
            final(self).spec_interfaces() == old(self).spec_interfaces(),
            final(self).cache_max_age() == old(self).cache_max_age(),
            final(self).services_state() == old(self).services_state(),
            exists|limiter_now: u128, cache_now: u128|
                {
                    let (limiter, cache, decision) = #[trigger] reflect_decision(
                        old(self).spec_config(),
                        old(self).spec_interfaces(),
                        old(self).limiter_state(),
                        old(self).cache_state(),
                        old(self).cache_max_age(),
                        packet.contents(),
                        packet.src_addr,
                        source_interface@,
                        limiter_now,
                        cache_now,
                    );
                    &&& limiter_now >= old(self).clock_readings().0
                    &&& cache_now >= old(self).clock_readings().1
                    &&& final(self).clock_readings() == (
                        limiter_now,
                        cache_now,
                        old(self).clock_readings().2,
                    )
                    &&& final(self).limiter_state() == limiter
                    &&& final(self).cache_state() == cache
                    &&& match decision {
                        Decision::Reflect { targets, ipv6 } => match r {
                            Ok(Some(plan)) => {
                                &&& plan.targets.deep_view() == targets
                                &&& plan.ipv6 == ipv6
                                &&& reflected_data(
                                    *packet,
                                    old(self).spec_config().settings.max_ttl,
                                ) == Some(plan.data@)
                            },
                            Ok(None) => false,
                            Err(e) => reflected_data(
                                *packet,
                                old(self).spec_config().settings.max_ttl,
                            ) is None && e == MdnsError::Encode,
                        },
                        _ => r matches Ok(None),
                    }
                },
    {
        let ghost before = *self;
        let limiter_now = self.rate_limiter.clock_now();
        let cache_now = self.packet_cache.clock_now();
        proof {
            assert(self.limiter_state() == before.limiter_state());
            assert(self.cache_state() == before.cache_state());
            assert(self.cache_max_age() == before.cache_max_age());
            assert(self.clock_readings() == (limiter_now, cache_now, before.clock_readings().2));
        }
        self.reflect_packet_at(packet, source_interface, limiter_now, cache_now)
    }

    /// Sweep both caches at the given readings of their clocks.
    pub fn cleanup_caches_at(&mut self, packet_now: u128, service_now: u128)
        ensures
            final(self).clock_readings() == old(self).clock_readings(),
            final(self).spec_config() == old(self).spec_config(),
            final(self).spec_interfaces() == old(self).spec_interfaces(),
            final(self).limiter_state() == old(self).limiter_state(),
            final(self).cache_max_age() == old(self).cache_max_age(),
            final(self).cache_state() == fresh_entries(
                old(self).cache_state(),
                old(self).cache_max_age(),
                packet_now,
            ),
            final(self).services_state() == old(self).services_state().filter(
                unexpired(service_now),
            ),
    {
        self.packet_cache.cleanup_at(packet_now);
        self.service_cache.cleanup_at(service_now);
    }

    /// Sweep both caches now.
    pub fn cleanup_caches(&mut self)
        ensures
            final(self).spec_config() == old(self).spec_config(),
            final(self).spec_interfaces() == old(self).spec_interfaces(),
            final(self).limiter_state() == old(self).limiter_state(),
            final(self).cache_max_age() == old(self).cache_max_age(),
            exists|packet_now: u128, service_now: u128|
                {
                    &&& packet_now >= old(self).clock_readings().1
                    &&& service_now >= old(self).clock_readings().2
                    &&& final(self).clock_readings() == (
                        old(self).clock_readings().0,
                        packet_now,
                        service_now,
                    )
                    &&& final(self).cache_state() == #[trigger] fresh_entries(
                        old(self).cache_state(),
                        old(self).cache_max_age(),
                        packet_now,
                    )
                    &&& final(self).services_state() == #[trigger] old(self).services_state().filter(
                        unexpired(service_now),
                    )
                },
    {
        let ghost before = *self;
        let packet_now = self.packet_cache.clock_now();
        let service_now = self.service_cache.clock_now();
        proof {
            assert(self.cache_state() == before.cache_state());
            assert(self.services_state() == before.services_state());
            assert(self.cache_max_age() == before.cache_max_age());
            assert(self.clock_readings() == (before.clock_readings().0, packet_now, service_now));
        }
        self.cleanup_caches_at(packet_now, service_now);
    }
}


/// The TTL bound holds of what is sent: where the received bytes are not
/// sent as they are, the bytes sent are those of the packet's message with
/// its TTLs capped, which carries no TTL above `max_ttl`; where the received
/// bytes go out, no TTL of their message is above `max_ttl`, so capping
/// would change nothing.
pub proof fn lemma_reflected_ttls_bounded(packet: MdnsPacket, max_ttl: u32)
    ensures
        !needs_capping(capped_contents(packet.contents(), max_ttl), max_ttl),
        reflected_data(packet, max_ttl) == packet.capped_bytes(max_ttl) || {
            &&& !needs_capping(packet.contents(), max_ttl)
            &&& capped_contents(packet.contents(), max_ttl) == packet.contents()
            &&& reflected_data(packet, max_ttl) == Some(packet.raw_data@)
        },
        needs_capping(packet.contents(), max_ttl) ==> reflected_data(packet, max_ttl)
            == packet.capped_bytes(max_ttl),
{
    let c = packet.contents();
    lemma_capped_ttls(c, max_ttl);
    let d = capped_contents(c, max_ttl);
    assert forall|i: int| 0 <= i < d.answers.len() implies !(#[trigger] d.answers[i].ttl > max_ttl) by {}
    assert forall|i: int| 0 <= i < d.additionals.len() implies !(#[trigger] d.additionals[i].ttl > max_ttl) by {}
    if !needs_capping(c, max_ttl) {
        lemma_capping_without_excess(c, max_ttl);
    }
}

/// The decision leaves the packet past the loop check.
pub open spec fn passed_loop_check(d: Decision) -> bool {
    d is Filtered || d is Reflect
}

/// Loop prevention: with loop prevention on, once a packet has passed the
/// loop check, a packet with the same signature (message id, source address,
/// questions) arriving less than the cache age later is not reflected: it is
/// dropped as a duplicate, or by the rate limiter.
pub proof fn lemma_duplicate_not_reflected(
    config: Config,
    interfaces: Seq<Seq<char>>,
    limiter: RateState,
    cache: Map<SignatureView, u128>,
    max_age: u128,
    first: DnsContents,
    first_src: SocketAddress,
    first_iface: Seq<char>,
    second: DnsContents,
    second_src: SocketAddress,
    second_iface: Seq<char>,
    l1: u128,
    t1: u128,
    l2: u128,
    t2: u128,
)
    requires
        config.settings.loop_prevention,
        signature_of(first, first_src) == signature_of(second, second_src),
        passed_loop_check(
            reflect_decision(
                config,
                interfaces,
                limiter,
                cache,
                max_age,
                first,
                first_src,
                first_iface,
                l1,
                t1,
            ).2,
        ),
        elapsed_ns(t2, t1) < max_age,
    ensures
        ({
            let (limiter1, cache1, _) = reflect_decision(
                config,
                interfaces,
                limiter,
                cache,
                max_age,
                first,
                first_src,
                first_iface,
                l1,
                t1,
            );
            let d2 = reflect_decision(
                config,
                interfaces,
                limiter1,
                cache1,
                max_age,
                second,
                second_src,
                second_iface,
                l2,
                t2,
            ).2;
            d2 is RateLimited || d2 is Duplicate
        }),
{
}

/// Without a rate limit, loop prevention or filters, and without zones, a
/// packet reaches every interface but the one it came from.
pub proof fn lemma_open_reflector_reflects_everywhere(
    config: Config,
    interfaces: Seq<Seq<char>>,
    limiter: RateState,
    cache: Map<SignatureView, u128>,
    max_age: u128,
    contents: DnsContents,
    src_addr: SocketAddress,
    source: Seq<char>,
    l: u128,
    t: u128,
)
    requires
        config.settings.rate_limit == 0,
        !config.settings.loop_prevention,
        config.service_filters@.len() == 0,
        config.zones@.len() == 0,
    ensures
        reflect_decision(
            config,
            interfaces,
            limiter,
            cache,
            max_age,
            contents,
            src_addr,
            source,
            l,
            t,
        ) == (limiter, cache, Decision::Reflect {
            targets: interfaces.filter(crate::policy::other_than(source)),
            ipv6: !(src_addr.ip is V4),
        }),
{
    lemma_no_filters_pass(
        service_types(contents),
        filters_view(config.service_filters@),
        zone_name_of(zones_view(config.zones@), source),
    );
    crate::policy::lemma_no_zones_reach_all(interfaces, source);
    assert(zones_view(config.zones@) =~= Seq::<ZoneView>::empty());
}

} // verus!
