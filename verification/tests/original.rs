use clap::{Arg, ArgAction, Command};
use mdns_reflector::cli::Cli;
use mdns_reflector::config::{is_valid_mac_address, Config};
use mdns_reflector::mdns::{
    extract_service_type, mdns_ipv4_socket_addr, mdns_ipv6_socket_addr, IpAddress, MDNS_IPV4_ADDR,
    MDNS_IPV6_ADDR,
};
use mdns_reflector::rate::RateLimiter;
use trust_dns_proto::rr::Name;

/// The command line as the program reads it (the options of `Cli`).
fn parse_cli(args: &[&str]) -> Cli {
    let m = Command::new("mdns-reflector")
        .arg(Arg::new("interfaces").short('f').long("interfaces").action(ArgAction::Append))
        .arg(Arg::new("config").short('c').long("config"))
        .arg(Arg::new("foreground").short('n').long("foreground").action(ArgAction::SetTrue))
        .arg(Arg::new("verbose").short('v').long("verbose").action(ArgAction::Count))
        .arg(Arg::new("no-ipv4").long("no-ipv4").action(ArgAction::SetTrue))
        .arg(Arg::new("no-ipv6").long("no-ipv6").action(ArgAction::SetTrue))
        .arg(Arg::new("max-ttl").long("max-ttl").default_value("255"))
        .arg(Arg::new("rate-limit").long("rate-limit").default_value("0"))
        .arg(Arg::new("no-loop-prevention").long("no-loop-prevention").action(ArgAction::SetTrue))
        .get_matches_from(args.iter().copied());
    Cli {
        interfaces: m
            .get_many::<String>("interfaces")
            .map(|v| v.cloned().collect())
            .unwrap_or_default(),
        config_file: m.get_one::<String>("config").cloned(),
        foreground: m.get_flag("foreground"),
        verbose: m.get_count("verbose"),
        no_ipv4: m.get_flag("no-ipv4"),
        no_ipv6: m.get_flag("no-ipv6"),
        max_ttl: m.get_one::<String>("max-ttl").unwrap().parse::<u32>().unwrap(),
        rate_limit: m.get_one::<String>("rate-limit").unwrap().parse::<u64>().unwrap(),
        no_loop_prevention: m.get_flag("no-loop-prevention"),
        command: None,
    }
}

#[test]
fn test_cli_parse() {
    let cli = parse_cli(&["mdns-reflector", "-f", "eth0", "-f", "eth1"]);
    assert_eq!(cli.interfaces, vec!["eth0", "eth1"]);
}

#[test]
fn test_log_level() {
    let cli = parse_cli(&["mdns-reflector"]);
    assert_eq!(cli.log_level(), "info");

    let cli = parse_cli(&["mdns-reflector", "-v"]);
    assert_eq!(cli.log_level(), "debug");

    let cli = parse_cli(&["mdns-reflector", "-vv"]);
    assert_eq!(cli.log_level(), "trace");
}

#[test]
fn test_default_config() {
    let config = Config::default();
    assert!(config.settings.enable_ipv4);
    assert!(config.settings.enable_ipv6);
}

#[test]
fn test_valid_mac_address() {
    assert!(is_valid_mac_address("AA:BB:CC:DD:EE:FF"));
    assert!(is_valid_mac_address("00:11:22:33:44:55"));
    assert!(!is_valid_mac_address("AA:BB:CC:DD:EE"));
    assert!(!is_valid_mac_address("GG:BB:CC:DD:EE:FF"));
}

#[test]
fn test_config_validation() {
    let mut config = Config::default();
    assert!(config.validate().is_err());

    config.interfaces.push("eth0".to_string());
    assert!(config.validate().is_ok());
}

#[test]
fn test_mdns_addresses() {
    let ipv4_addr = mdns_ipv4_socket_addr();
    assert_eq!(ipv4_addr.port(), 5353);
    assert_eq!(ipv4_addr.ip(), IpAddress::V4(MDNS_IPV4_ADDR));

    let ipv6_addr = mdns_ipv6_socket_addr();
    assert_eq!(ipv6_addr.port(), 5353);
    assert_eq!(ipv6_addr.ip(), IpAddress::V6(MDNS_IPV6_ADDR));
}

#[test]
fn test_extract_service_type() {
    let name = Name::from_ascii("_airplay._tcp.local.").unwrap();
    let service = extract_service_type(&name.to_string());
    assert_eq!(service, Some("_airplay._tcp".to_string()));

    let name = Name::from_ascii("_http._udp.local.").unwrap();
    let service = extract_service_type(&name.to_string());
    assert_eq!(service, Some("_http._udp".to_string()));
}

#[test]
fn test_rate_limiter() {
    let mut limiter = RateLimiter::new();

    // No limit
    assert!(limiter.allow_packet(0));
    assert!(limiter.allow_packet(0));

    // With limit
    limiter = RateLimiter::new();
    assert!(limiter.allow_packet(2));
    assert!(limiter.allow_packet(2));
    assert!(!limiter.allow_packet(2)); // Third packet should be rejected
}
