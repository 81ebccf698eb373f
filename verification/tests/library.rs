use mdns_reflector::cache::{PacketCache, PacketSignature, ServiceCache};
use mdns_reflector::clock::Clock;
use mdns_reflector::cli::{Cli, Commands, ConfigSource};
use mdns_reflector::config::{
    default_cache_ttl, default_max_ttl, default_true, is_valid_mac_address, ConfigError, Config, DeviceConfig,
    FilterAction, ServiceFilter, Settings, Zone,
};
use mdns_reflector::mdns::{
    extract_service_type, IpAddress, MdnsError, MdnsPacket, ServiceInfo, SocketAddress,
};
use mdns_reflector::network::{InterfaceAddress, InterfaceInfo, NetworkError, SocketPlan};
use mdns_reflector::policy::{is_reflection_allowed, passes_service_filters, targets_for, zone_name};
use mdns_reflector::rate::RateLimiter;
use mdns_reflector::reflector::ReflectorError;
use mdns_reflector::text::{join_dotted, split_str, str_less, str_starts_with};
use mdns_reflector::Reflector;
use trust_dns_proto::op::{Message, MessageType, Query};
use trust_dns_proto::rr::DNSClass;
use trust_dns_proto::rr::rdata::{A, PTR, SRV};
use trust_dns_proto::rr::{Name, RData, Record, RecordType};

fn name(s: &str) -> Name {
    Name::from_ascii(s).unwrap()
}

fn src() -> SocketAddress {
    SocketAddress::new(IpAddress::V4(0xC0A8_0001), 5353)
}

fn query_message(id: u16, names: &[&str]) -> Vec<u8> {
    let mut m = Message::new();
    m.set_id(id);
    m.set_message_type(MessageType::Query);
    for n in names {
        m.add_query(Query::query(name(n), RecordType::PTR));
    }
    m.to_vec().unwrap()
}

fn response_message() -> Vec<u8> {
    let mut m = Message::new();
    m.set_id(0);
    m.set_message_type(MessageType::Response);
    m.add_answer(Record::from_rdata(
        name("_ipp._tcp.local."),
        4500,
        RData::PTR(PTR(name("Printer._ipp._tcp.local."))),
    ));
    m.add_answer(Record::from_rdata(
        name("Printer._ipp._tcp.local."),
        120,
        RData::SRV(SRV::new(0, 0, 631, name("printer.local."))),
    ));
    m.add_additional(Record::from_rdata(
        name("printer.local."),
        600,
        RData::A("192.168.1.20".parse::<A>().unwrap()),
    ));
    m.to_vec().unwrap()
}

fn strings(v: &[&str]) -> Vec<String> {
    v.iter().map(|s| s.to_string()).collect()
}

#[test]
fn parse_rejects_garbage() {
    assert_eq!(MdnsPacket::parse(&[1, 2, 3], src(), 1).err(), Some(MdnsError::Decode));
}

#[test]
fn parse_keeps_packet_fields() {
    let data = query_message(7, &["_airplay._tcp.local."]);
    let p = MdnsPacket::parse(&data, src(), 3).unwrap();
    assert_eq!(p.raw_data, data);
    assert_eq!(p.interface_index, 3);
    assert_eq!(p.src_addr, src());
    assert!(p.is_query());
    assert!(!p.is_response());
    assert!(!p.is_unicast_response_requested());
    assert_eq!(p.extract_mac_address(), None);
}

#[test]
fn unicast_bit_read_from_questions() {
    let mut m = Message::new();
    m.set_message_type(MessageType::Query);
    m.add_query(Query::query(name("_a._tcp.local."), RecordType::PTR));
    let mut qu = Query::query(name("_b._tcp.local."), RecordType::PTR);
    qu.set_mdns_unicast_response(true);
    m.add_query(qu);
    let p = MdnsPacket::parse(&m.to_vec().unwrap(), src(), 1).unwrap();
    assert!(p.is_unicast_response_requested());
    let mut plain = Message::new();
    let mut q = Query::query(name("_a._tcp.local."), RecordType::PTR);
    q.set_query_class(DNSClass::IN);
    plain.add_query(q);
    let p = MdnsPacket::parse(&plain.to_vec().unwrap(), src(), 1).unwrap();
    assert!(!p.is_unicast_response_requested());
}

#[test]
fn response_is_response() {
    let p = MdnsPacket::parse(&response_message(), src(), 1).unwrap();
    assert!(p.is_response());
    assert!(!p.is_query());
    assert!(!p.is_unicast_response_requested());
}

#[test]
fn service_types_sorted_and_unique() {
    let data = query_message(
        1,
        &["_ssh._tcp.local.", "_airplay._tcp.local.", "_ssh._tcp.local.", "host.local.", "_dns._udp.local."],
    );
    let p = MdnsPacket::parse(&data, src(), 1).unwrap();
    assert_eq!(p.get_service_types(), vec!["_airplay._tcp", "_dns._udp", "_ssh._tcp"]);
}

#[test]
fn service_types_from_answers() {
    let p = MdnsPacket::parse(&response_message(), src(), 1).unwrap();
    assert_eq!(p.get_service_types(), vec!["_ipp._tcp"]);
}

#[test]
fn extract_service_type_cases() {
    assert_eq!(extract_service_type("Printer._ipp._tcp.local."), Some("_ipp._tcp".to_string()));
    assert_eq!(extract_service_type("tv1._airplay._tcp.local."), Some("_airplay._tcp".to_string()));
    assert_eq!(extract_service_type("_tcp.local."), None);
    assert_eq!(extract_service_type("_a._tcp.x._udp.local."), Some("x._udp".to_string()));
    assert_eq!(extract_service_type("_a._udp.local._b._tcp.local."), Some("_b._tcp".to_string()));
    assert_eq!(extract_service_type("host.local."), None);
    assert_eq!(extract_service_type("._tcp.local."), None);
    assert_eq!(extract_service_type("_x._udp.local"), Some("_x._udp".to_string()));
    assert_eq!(extract_service_type("_x._tcp.localhost."), Some("_x._tcp".to_string()));
}

#[test]
fn with_ttl_caps_answers_and_additionals() {
    let p = MdnsPacket::parse(&response_message(), src(), 1).unwrap();
    let bytes = p.with_ttl(300).unwrap();
    assert_ne!(bytes, p.raw_data);
    let m = Message::from_vec(&bytes).unwrap();
    let ttls: Vec<u32> = m.answers().iter().map(|r| r.ttl()).collect();
    assert_eq!(ttls, vec![300, 120]);
    let extra: Vec<u32> = m.additionals().iter().map(|r| r.ttl()).collect();
    assert_eq!(extra, vec![300]);
    assert_eq!(m.answers()[1].name(), &name("Printer._ipp._tcp.local."));
}

#[test]
fn with_ttl_high_bound_keeps_ttls() {
    let p = MdnsPacket::parse(&response_message(), src(), 1).unwrap();
    let m = Message::from_vec(&p.with_ttl(10000).unwrap()).unwrap();
    let ttls: Vec<u32> = m.answers().iter().map(|r| r.ttl()).collect();
    assert_eq!(ttls, vec![4500, 120]);
}

#[test]
fn service_info_from_srv_and_ptr() {
    let p = MdnsPacket::parse(&response_message(), src(), 1).unwrap();
    let services = ServiceInfo::from_packet(&p);
    assert_eq!(services.len(), 2);
    assert_eq!(services[0].name, "Printer._ipp._tcp.local.");
    assert_eq!(services[0].service_type, "_ipp._tcp");
    assert_eq!(services[0].domain, "local");
    assert_eq!(services[0].hostname, "Printer._ipp._tcp.local.");
    assert_eq!(services[0].port, 0);
    assert_eq!(services[0].ttl, 4500);
    assert_eq!(services[1].name, "Printer");
    assert_eq!(services[1].service_type, "_ipp._tcp");
    assert_eq!(services[1].domain, "local.");
    assert_eq!(services[1].hostname, "printer.local.");
    assert_eq!(services[1].port, 631);
    assert_eq!(services[1].ttl, 120);
    assert!(services[1].addresses.is_empty());
    assert!(services[1].txt_records.is_empty());
}

#[test]
fn split_and_join() {
    assert_eq!(split_str("a.b..c", '.'), vec!["a", "b", "", "c"]);
    assert_eq!(split_str("", '.'), vec![""]);
    assert_eq!(split_str("x.", '.'), vec!["x", ""]);
    let parts = strings(&["a", "b", "c", "d", ""]);
    assert_eq!(join_dotted(&parts, 2), "c.d.");
    assert_eq!(join_dotted(&parts, 5), "");
    assert!(str_starts_with("localhost", "local"));
    assert!(!str_starts_with("loca", "local"));
    assert!(str_starts_with("x", ""));
    assert!(str_less("ab", "abc"));
    assert!(str_less("B", "a"));
    assert!(!str_less("b", "b"));
}

#[test]
fn mac_address_edge_cases() {
    assert!(is_valid_mac_address("aa:bb:cc:dd:ee:0f"));
    assert!(!is_valid_mac_address("aa:bb:cc:dd:ee:0f:"));
    assert!(!is_valid_mac_address("aabb:cc:dd:ee:0f:1"));
    assert!(!is_valid_mac_address("é:bb:cc:dd:ee:ff"));
    assert!(!is_valid_mac_address(""));
}

#[test]
fn defaults() {
    assert!(default_true());
    assert_eq!(default_max_ttl(), 255);
    assert_eq!(default_cache_ttl(), 300);
    let s = Settings::default();
    assert_eq!(s.max_ttl, 255);
    assert_eq!(s.rate_limit, 0);
    assert!(s.loop_prevention);
    assert!(s.enable_cache);
    assert_eq!(s.cache_ttl, 300);
    assert_eq!(s.packet_cache_ttl, 2);
    assert_eq!(s.cache_cleanup_interval, 60);
    let c = Config::from_interfaces(strings(&["eth0"]));
    assert_eq!(c.interfaces, vec!["eth0"]);
    assert!(c.zones.is_empty());
}

fn device() -> DeviceConfig {
    DeviceConfig { description: String::new(), origin_pool: 10, shared_pools: vec![20], enabled: true }
}

#[test]
fn validation_errors() {
    let mut c = Config::default();
    assert!(matches!(c.validate(), Err(ConfigError::NoInterfaceOrZone)));
    c.zones.push(Zone { name: "z".to_string(), interfaces: vec![], allowed_zones: vec![] });
    assert!(c.validate().is_ok());
    c.devices.push(("AA:BB:CC:DD:EE:FF".to_string(), device()));
    c.devices.push(("bad".to_string(), device()));
    c.devices.push(("worse".to_string(), device()));
    match c.validate() {
        Err(ConfigError::InvalidMacAddress(m)) => assert_eq!(m, "bad"),
        _ => panic!("expected an invalid MAC address"),
    }
}

fn zone(name: &str, ifaces: &[&str], allowed: &[&str]) -> Zone {
    Zone { name: name.to_string(), interfaces: strings(ifaces), allowed_zones: strings(allowed) }
}

#[test]
fn zone_rules() {
    let zones = vec![
        zone("trusted", &["eth0"], &["iot", "guest"]),
        zone("iot", &["eth1"], &["trusted"]),
        zone("guest", &["wlan0"], &["trusted"]),
        zone("open", &["eth2"], &[]),
    ];
    assert!(is_reflection_allowed(&zones, "eth0", "eth1"));
    assert!(is_reflection_allowed(&zones, "eth1", "eth0"));
    assert!(!is_reflection_allowed(&zones, "eth1", "wlan0"));
    assert!(is_reflection_allowed(&zones, "eth2", "wlan0"));
    assert!(!is_reflection_allowed(&zones, "eth0", "eth9"));
    assert!(!is_reflection_allowed(&zones, "eth9", "eth0"));
    assert!(is_reflection_allowed(&zones, "eth8", "eth9"));
    assert!(is_reflection_allowed(&Vec::new(), "eth8", "eth9"));
    let targets = targets_for(&strings(&["eth0", "eth1", "wlan0", "eth2"]), &zones, "eth0");
    assert_eq!(targets, vec!["eth1", "wlan0"]);
}

fn filter(t: &str, action: FilterAction) -> ServiceFilter {
    ServiceFilter { service_type: t.to_string(), action, zones: vec![] }
}

#[test]
fn service_filter_rules() {
    let filters = vec![filter("_ssh._tcp", FilterAction::Deny), filter("*", FilterAction::Allow)];
    assert!(!passes_service_filters(&strings(&["_ssh._tcp"]), &filters, None));
    assert!(passes_service_filters(&strings(&["_airplay._tcp", "_ssh._tcp"]), &filters, None));
    assert!(passes_service_filters(&strings(&[]), &filters, None));
    let deny_all = vec![filter("*", FilterAction::Deny)];
    assert!(!passes_service_filters(&strings(&["_x._tcp"]), &deny_all, Some("main")));
    assert!(passes_service_filters(&strings(&["_x._tcp"]), &Vec::new(), None));
}

#[test]
fn service_filters_apply_to_their_zones() {
    let guest_deny = vec![ServiceFilter {
        service_type: "_airplay._tcp".to_string(),
        action: FilterAction::Deny,
        zones: strings(&["guest"]),
    }];
    let types = strings(&["_airplay._tcp"]);
    assert!(passes_service_filters(&types, &guest_deny, Some("main")));
    assert!(passes_service_filters(&types, &guest_deny, None));
    assert!(!passes_service_filters(&types, &guest_deny, Some("guest")));
    let zones = vec![zone("main", &["eth0"], &[]), zone("iot", &["eth1"], &[]), zone("guest", &["wlan0"], &[])];
    assert_eq!(zone_name(&zones, "wlan0"), Some("guest"));
    assert_eq!(zone_name(&zones, "eth9"), None);
    let mut config = Config::from_interfaces(vec![]);
    config.zones = zones;
    config.service_filters = guest_deny;
    let r = Reflector::new(config, strings(&["eth0", "eth1", "wlan0"])).ok().unwrap();
    let p = MdnsPacket::parse(&query_message(4, &["_airplay._tcp.local."]), src(), 1).unwrap();
    assert!(r.should_reflect_packet(&p, "eth0"));
    assert!(!r.should_reflect_packet(&p, "wlan0"));
}

#[test]
fn reflection_interfaces_include_zones() {
    let mut c = Config::from_interfaces(strings(&["eth0", "eth1", "eth0"]));
    c.zones = vec![zone("a", &["eth1", "wlan0"], &[]), zone("b", &["eth2", "wlan0"], &[])];
    assert_eq!(c.reflection_interfaces(), vec!["eth0", "eth1", "wlan0", "eth2"]);
    let mut z = Config::default();
    z.zones = vec![zone("a", &["eth3"], &[])];
    assert_eq!(z.reflection_interfaces(), vec!["eth3"]);
}

#[test]
fn rate_limit_window() {
    let mut l = RateLimiter::new();
    assert!(l.allow_packet_at(3, 0));
    assert!(l.allow_packet_at(3, 10_000_000));
    assert!(l.allow_packet_at(3, 999_999_999));
    assert!(!l.allow_packet_at(3, 999_999_999));
    assert!(l.allow_packet_at(0, 999_999_999));
    assert!(l.allow_packet_at(3, 1_000_000_000));
    assert!(l.allow_packet_at(3, 1_000_000_001));
    let mut fresh = RateLimiter::new();
    assert!(fresh.allow_packet_at(1, 999_999_999));
    assert!(!fresh.allow_packet_at(1, 999_999_999));
}

#[test]
fn packet_cache_remembers_and_forgets() {
    let a = MdnsPacket::parse(&query_message(1, &["_a._tcp.local."]), src(), 1).unwrap();
    let upper = MdnsPacket::parse(&query_message(1, &["_A._tcp.local."]), src(), 1).unwrap();
    let b = MdnsPacket::parse(&query_message(2, &["_a._tcp.local."]), src(), 1).unwrap();
    let mut cache = PacketCache::new(2);
    assert!(!cache.contains_at(&a, 0));
    cache.insert_at(&a, 100);
    assert!(cache.contains_at(&a, 100));
    assert!(cache.contains_at(&upper, 2_000_000_099));
    assert!(!cache.contains_at(&a, 2_000_000_100));
    assert!(!cache.contains_at(&b, 100));
    cache.insert_at(&b, 1_000_000_000);
    cache.cleanup_at(2_500_000_000);
    assert!(!cache.contains_at(&a, 2_500_000_000));
    assert!(cache.contains_at(&b, 2_500_000_000));
    assert!(PacketSignature::from_packet(&a).same(&PacketSignature::from_packet(&upper)));
    assert!(!PacketSignature::from_packet(&a).same(&PacketSignature::from_packet(&b)));
}

#[test]
fn service_cache_sweeps() {
    let mut c = ServiceCache::new();
    c.cleanup_at(10);
    c.cleanup();
}

fn reflector(settings: Settings, zones: Vec<Zone>, filters: Vec<ServiceFilter>) -> Reflector {
    let mut config = Config::from_interfaces(strings(&["eth0", "eth1", "wlan0"]));
    config.settings = settings;
    config.zones = zones;
    config.service_filters = filters;
    Reflector::new(config, strings(&["eth0", "eth1", "wlan0"])).ok().unwrap()
}

#[test]
fn reflector_new_errors() {
    assert!(matches!(
        Reflector::new(Config::default(), strings(&["eth0"])),
        Err(ReflectorError::InvalidConfig(ConfigError::NoInterfaceOrZone))
    ));
    let mut bad = Config::from_interfaces(strings(&["eth0"]));
    bad.devices.push(("nope".to_string(), device()));
    match Reflector::new(bad, strings(&["eth0"])) {
        Err(ReflectorError::InvalidConfig(ConfigError::InvalidMacAddress(m))) => assert_eq!(m, "nope"),
        _ => panic!("expected an invalid MAC address"),
    }
    assert!(matches!(
        Reflector::new(Config::from_interfaces(strings(&["eth0"])), Vec::new()),
        Err(ReflectorError::NoSockets)
    ));
}

#[test]
fn reflector_drops_duplicates() {
    let mut r = reflector(Settings::default(), vec![], vec![]);
    let data = query_message(9, &["_airplay._tcp.local."]);
    let p = MdnsPacket::parse(&data, src(), 1).unwrap();
    let plan = r.reflect_packet_at(&p, "eth0", 0, 0).unwrap().unwrap();
    assert_eq!(plan.targets, vec!["eth1", "wlan0"]);
    assert!(!plan.ipv6);
    assert_eq!(plan.data, data);
    assert!(r.reflect_packet_at(&p, "eth1", 10, 1_999_999_999).unwrap().is_none());
    assert!(r.reflect_packet_at(&p, "eth1", 20, 2_000_000_000).unwrap().is_some());
}

#[test]
fn reflector_rate_limits_filters_and_caps() {
    let mut s = Settings::default();
    s.rate_limit = 1;
    s.loop_prevention = false;
    s.max_ttl = 60;
    let mut r = reflector(
        s,
        vec![zone("a", &["eth0", "eth1"], &[]), zone("b", &["wlan0"], &["b"])],
        vec![filter("_ipp._tcp", FilterAction::Deny)],
    );
    let q = MdnsPacket::parse(&query_message(1, &["_x._tcp.local."]), src(), 1).unwrap();
    let plan = r.reflect_packet_at(&q, "eth1", 0, 0).unwrap().unwrap();
    assert_eq!(plan.targets, vec!["eth0", "wlan0"]);
    assert_eq!(plan.data, q.with_ttl(60).unwrap());
    assert!(r.reflect_packet_at(&q, "eth1", 500_000_000, 0).unwrap().is_none());
    let resp = MdnsPacket::parse(&response_message(), src(), 1).unwrap();
    assert!(r.reflect_packet_at(&resp, "eth0", 1_500_000_000, 0).unwrap().is_none());
    let a = MdnsPacket::parse(
        &{
            let mut m = Message::new();
            m.set_message_type(MessageType::Response);
            m.add_answer(Record::from_rdata(
                name("host.local."),
                4500,
                RData::A("10.0.0.1".parse::<A>().unwrap()),
            ));
            m.to_vec().unwrap()
        },
        SocketAddress::new(IpAddress::V6(1), 5353),
        1,
    )
    .unwrap();
    let plan = r.reflect_packet_at(&a, "wlan0", 3_000_000_000, 0).unwrap().unwrap();
    assert!(plan.ipv6);
    assert!(plan.targets.is_empty());
    let m = Message::from_vec(&plan.data).unwrap();
    assert_eq!(m.answers()[0].ttl(), 60);
    r.cleanup_caches();
    r.cleanup_caches_at(10, 10);
    assert_eq!(r.interfaces().len(), 3);
    assert_eq!(r.config().settings.max_ttl, 60);
}

#[test]
fn reflector_reflect_now() {
    let mut r = reflector(Settings::default(), vec![], vec![]);
    let p = MdnsPacket::parse(&query_message(3, &["_a._tcp.local."]), src(), 1).unwrap();
    assert!(r.reflect_packet(&p, "eth0").unwrap().is_some());
    assert!(r.reflect_packet(&p, "eth0").unwrap().is_none());
    assert!(r.should_reflect_packet(&p, "eth0"));
    assert!(r.is_reflection_allowed("eth0", "eth1"));
}

#[test]
fn interfaces_gathered_by_name() {
    let addrs = vec![
        InterfaceAddress { name: "eth0".to_string(), index: Some(2), ip: IpAddress::V4(1) },
        InterfaceAddress { name: "lo".to_string(), index: None, ip: IpAddress::V6(1) },
        InterfaceAddress { name: "eth0".to_string(), index: Some(7), ip: IpAddress::V6(5) },
        InterfaceAddress { name: "eth0".to_string(), index: Some(2), ip: IpAddress::V4(3) },
    ];
    let ifaces = InterfaceInfo::from_addresses(&addrs);
    assert_eq!(ifaces.len(), 2);
    assert_eq!(ifaces[0].name, "eth0");
    assert_eq!(ifaces[0].index, 2);
    assert_eq!(ifaces[0].ipv4_addr, Some(3));
    assert_eq!(ifaces[0].ipv6_addr, Some(5));
    assert_eq!(ifaces[1].index, 0);
    assert_eq!(ifaces[1].ipv4_addr, None);
    assert_eq!(InterfaceInfo::list_names(&ifaces), vec!["eth0", "lo"]);
    assert_eq!(InterfaceInfo::find_by_name(&ifaces, "lo").unwrap().ipv6_addr, Some(1));
    assert!(InterfaceInfo::find_by_name(&ifaces, "wlan0").is_none());
    let plan = SocketPlan::for_interface(&ifaces[1], true, true);
    assert_eq!(plan, SocketPlan { ipv4: false, ipv6: true });
    let plan = SocketPlan::for_interface(&ifaces[0], true, false);
    assert_eq!(plan, SocketPlan { ipv4: true, ipv6: false });
    assert_eq!(SocketPlan::check_created(false, false), Err(NetworkError::NoSocket));
    assert_eq!(SocketPlan::check_created(false, true), Ok(()));
}

fn cli() -> Cli {
    Cli {
        interfaces: vec![],
        config_file: None,
        foreground: false,
        verbose: 0,
        no_ipv4: false,
        no_ipv6: false,
        max_ttl: 255,
        rate_limit: 0,
        no_loop_prevention: false,
        command: Some(Commands::Run),
    }
}

#[test]
fn cli_sources_and_overrides() {
    let mut c = cli();
    assert!(matches!(c.config_source(), ConfigSource::Missing));
    c.interfaces = strings(&["eth0"]);
    match c.config_source() {
        ConfigSource::Interfaces(v) => assert_eq!(v, vec!["eth0"]),
        _ => panic!("expected interfaces"),
    }
    c.config_file = Some("x.toml".to_string());
    match c.config_source() {
        ConfigSource::File(p) => assert_eq!(p, "x.toml"),
        _ => panic!("expected a file"),
    }
    let mut s = Settings::default();
    c.apply_overrides(&mut s);
    assert_eq!(s.max_ttl, 255);
    assert!(s.enable_ipv4 && s.loop_prevention);
    c.no_ipv6 = true;
    c.max_ttl = 120;
    c.rate_limit = 50;
    c.no_loop_prevention = true;
    c.apply_overrides(&mut s);
    assert!(s.enable_ipv4);
    assert!(!s.enable_ipv6);
    assert_eq!(s.max_ttl, 120);
    assert_eq!(s.rate_limit, 50);
    assert!(!s.loop_prevention);
    c.verbose = 7;
    assert_eq!(c.log_level(), "trace");
}

#[test]
fn reflector_caps_ttls_above_any_bound() {
    let mut s = Settings::default();
    s.max_ttl = 1000;
    let mut r = reflector(s, vec![], vec![]);
    let resp = MdnsPacket::parse(&response_message(), src(), 1).unwrap();
    let plan = r.reflect_packet_at(&resp, "eth0", 0, 0).unwrap().unwrap();
    let m = Message::from_vec(&plan.data).unwrap();
    let ttls: Vec<u32> = m.answers().iter().map(|r| r.ttl()).collect();
    assert_eq!(ttls, vec![1000, 120]);
    assert_eq!(m.additionals()[0].ttl(), 600);
    let mut s = Settings::default();
    s.max_ttl = 5000;
    let mut r = reflector(s, vec![], vec![]);
    let plan = r.reflect_packet_at(&resp, "eth0", 0, 0).unwrap().unwrap();
    assert_eq!(plan.data, resp.raw_data);
}

#[test]
fn ttl_check_finds_excess() {
    let p = MdnsPacket::parse(&response_message(), src(), 1).unwrap();
    assert!(p.needs_ttl_cap(4499));
    assert!(p.needs_ttl_cap(599));
    assert!(!p.needs_ttl_cap(4500));
    let q = MdnsPacket::parse(&query_message(1, &["_a._tcp.local."]), src(), 1).unwrap();
    assert!(!q.needs_ttl_cap(0));
}

#[test]
fn capping_again_at_a_looser_bound_changes_nothing() {
    let p = MdnsPacket::parse(&response_message(), src(), 1).unwrap();
    let once = p.with_ttl(300).unwrap();
    let q = MdnsPacket::parse(&once, src(), 1).unwrap();
    assert!(!q.needs_ttl_cap(300));
    assert_eq!(q.with_ttl(300).unwrap(), once);
    assert_eq!(q.with_ttl(600).unwrap(), once);
}

#[test]
fn config_error_messages() {
    assert_eq!(
        ConfigError::NoInterfaceOrZone.message(),
        "At least one interface or zone must be specified"
    );
    assert_eq!(
        ConfigError::InvalidMacAddress("zz".to_string()).message(),
        "Invalid MAC address: zz"
    );
    match Config::default().validate() {
        Err(e) => assert_eq!(e.message(), "At least one interface or zone must be specified"),
        Ok(()) => panic!("expected an error"),
    }
}

#[test]
fn low_bound_reencodes_every_packet() {
    let mut s = Settings::default();
    s.max_ttl = 10000;
    s.loop_prevention = false;
    let mut r = reflector(s, vec![], vec![]);
    let resp = MdnsPacket::parse(&response_message(), src(), 1).unwrap();
    let plan = r.reflect_packet_at(&resp, "eth0", 0, 0).unwrap().unwrap();
    assert_eq!(plan.data, resp.raw_data);
    let mut s = Settings::default();
    s.max_ttl = 254;
    s.loop_prevention = false;
    let mut r = reflector(s, vec![], vec![]);
    let q = MdnsPacket::parse(&query_message(5, &["_a._tcp.local."]), src(), 1).unwrap();
    let plan = r.reflect_packet_at(&q, "eth0", 0, 0).unwrap().unwrap();
    assert_eq!(plan.data, q.with_ttl(254).unwrap());
}

#[test]
fn clocks_never_go_back() {
    let mut c = Clock::new();
    let a = c.now_ns();
    let b = c.now_ns();
    assert!(b >= a);
    let mut cache = PacketCache::new(2);
    let p = MdnsPacket::parse(&query_message(1, &["_a._tcp.local."]), src(), 1).unwrap();
    assert!(!cache.contains(&p));
    cache.insert(&p);
    assert!(cache.contains(&p));
    let first = cache.clock_now();
    assert!(cache.clock_now() >= first);
}
