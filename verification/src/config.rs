//! Reflector configuration: interfaces, zones, device rules, service filters
//! and general settings, with the validation that precedes any use.

use vstd::prelude::*;
use vstd::string::*;
use crate::text::{split_on, split_str, contains_str};

verus! {

/// Zone configuration for grouping interfaces.
#[derive(Debug, Clone)]
pub struct Zone {
    /// Zone name
    pub name: String,
    /// Interfaces in this zone
    pub interfaces: Vec<String>,
    /// Zones that this zone can communicate with (empty: all)
    pub allowed_zones: Vec<String>,
}

/// Device-specific configuration with MAC-based filtering.
#[derive(Debug, Clone)]
pub struct DeviceConfig {
    /// Human-readable description
    pub description: String,
    /// Origin VLAN tag where the device resides
    pub origin_pool: u16,
    /// VLAN tags where the device should be discoverable
    pub shared_pools: Vec<u16>,
    /// Whether this device is enabled
    pub enabled: bool,
}

/// Action of a service filter.
#[derive(Debug, Clone, Copy, PartialEq, Eq, Structural)]
pub enum FilterAction {
    Allow,
    Deny,
}

/// Service filtering rule.
#[derive(Debug, Clone)]
pub struct ServiceFilter {
    /// Service type pattern (e.g. "_airplay._tcp"), or "*" for every type
    pub service_type: String,
    /// Action to take
    pub action: FilterAction,
    /// Zones this filter applies to
    pub zones: Vec<String>,
}

/// General settings for the reflector.
#[derive(Debug, Clone)]
pub struct Settings {
    /// Enable IPv4 reflection
    pub enable_ipv4: bool,
    /// Enable IPv6 reflection
    pub enable_ipv6: bool,
    /// Maximum TTL for reflected packets
    pub max_ttl: u32,
    /// Rate limit in packets per second (0 = unlimited)
    pub rate_limit: u64,
    /// Enable loop prevention
    pub loop_prevention: bool,
    /// Enable service caching
    pub enable_cache: bool,
    /// Cache TTL in seconds
    pub cache_ttl: u64,
    /// How long, in seconds, a seen packet is remembered for loop prevention
    pub packet_cache_ttl: u64,
    /// Seconds between two sweeps of the caches
    pub cache_cleanup_interval: u64,
}

/// Main configuration structure for the mDNS reflector.
#[derive(Debug, Clone)]
pub struct Config {
    /// Network interface to bind to
    pub net_interface: Option<String>,
    /// Interfaces to reflect mDNS traffic between
    pub interfaces: Vec<String>,
    /// Zone-based configuration for interface grouping
    pub zones: Vec<Zone>,
    /// Device-specific rules, keyed by MAC address
    pub devices: Vec<(String, DeviceConfig)>,
    /// Service filtering rules
    pub service_filters: Vec<ServiceFilter>,
    /// General reflector settings
    pub settings: Settings,
}

/// Why a configuration is refused.
#[derive(Debug, Clone)]
pub enum ConfigError {
    /// Neither an interface nor a zone is given.
    NoInterfaceOrZone,
    /// A device key is not a MAC address of the form `XX:XX:XX:XX:XX:XX`.
    InvalidMacAddress(String),
}

/// The text that reports a configuration error.
pub open spec fn config_error_text(e: ConfigError) -> Seq<char> {
    match e {
        ConfigError::NoInterfaceOrZone => "At least one interface or zone must be specified"@,
        ConfigError::InvalidMacAddress(m) => "Invalid MAC address: "@ + m@,
    }
}

impl ConfigError {
    /// The error's message.
    pub fn message(&self) -> (r: String)
        ensures
            r@ == config_error_text(*self),
    {
        proof {
            reveal_strlit("At least one interface or zone must be specified");
            reveal_strlit("Invalid MAC address: ");
        }
        match self {
            ConfigError::NoInterfaceOrZone => String::from_str(
                "At least one interface or zone must be specified",
            ),
            ConfigError::InvalidMacAddress(m) => {
                let mut t = String::from_str("Invalid MAC address: ");
                t.append(m.as_str());
                t
            },
        }
    }
}

pub fn default_true() -> (r: bool)
    ensures
        r,
{
    true
}

pub fn default_max_ttl() -> (r: u32)
    ensures
        r == 255,
{
    255
}

pub fn default_cache_ttl() -> (r: u64)
    ensures
        r == 300,
{
    300
}

pub fn default_packet_cache_ttl() -> (r: u64)
    ensures
        r == 2,
{
    2
}

pub fn default_cache_cleanup_interval() -> (r: u64)
    ensures
        r == 60,
{
    60
}

/// The default settings, field by field.
pub open spec fn is_default_settings(s: Settings) -> bool {
    &&& s.enable_ipv4
    &&& s.enable_ipv6
    &&& s.max_ttl == 255
    &&& s.rate_limit == 0
    &&& s.loop_prevention
    &&& s.enable_cache
    &&& s.cache_ttl == 300
    &&& s.packet_cache_ttl == 2
    &&& s.cache_cleanup_interval == 60
}

impl Default for Settings {
    fn default() -> (r: Self)
        ensures
            is_default_settings(r),
    {
        Settings {
            enable_ipv4: default_true(),
            enable_ipv6: default_true(),
            max_ttl: default_max_ttl(),
            rate_limit: 0,
            loop_prevention: default_true(),
            enable_cache: default_true(),
            cache_ttl: default_cache_ttl(),
            packet_cache_ttl: default_packet_cache_ttl(),
            cache_cleanup_interval: default_cache_cleanup_interval(),
        }
    }
}

impl Default for Config {
    fn default() -> (r: Self)
        ensures
            r.net_interface is None,
            r.interfaces@.len() == 0,
            r.zones@.len() == 0,
            r.devices@.len() == 0,
            r.service_filters@.len() == 0,
            is_default_settings(r.settings),
    {
        Config {
            net_interface: None,
            interfaces: Vec::new(),
            zones: Vec::new(),
            devices: Vec::new(),
            service_filters: Vec::new(),
            settings: Settings::default(),
        }
    }
}

/// An ASCII hexadecimal digit.
pub open spec fn is_hex_digit(c: char) -> bool {
    ('0' <= c && c <= '9') || ('a' <= c && c <= 'f') || ('A' <= c && c <= 'F')
}

/// The hexadecimal digits are exactly the characters of
/// `0123456789abcdefABCDEF`.
pub proof fn lemma_hex_digits_table(c: char)
    ensures
        is_hex_digit(c) <==> "0123456789abcdefABCDEF"@.contains(c),
{
    reveal_strlit("0123456789abcdefABCDEF");
    let table = "0123456789abcdefABCDEF"@;
    assert(table.len() == 22);
    if table.contains(c) {
        let i = choose|i: int| 0 <= i < table.len() && table[i] == c;
        assert(is_hex_digit(table[i]));
    }
    if is_hex_digit(c) {
        let i: int = if '0' <= c && c <= '9' {
            (c as u32 - '0' as u32) as int
        } else if 'a' <= c && c <= 'f' {
            (c as u32 - 'a' as u32) as int + 10
        } else {
            (c as u32 - 'A' as u32) as int + 16
        };
        assert(table[i] == c);
    }
}

/// A MAC address: six colon-separated groups of two hex digits. (The
/// groups are two bytes long and hex digits are ASCII, so two characters.)
pub open spec fn is_mac_address(s: Seq<char>) -> bool {
    let parts = split_on(s, ':');
    &&& parts.len() == 6
    &&& forall|i: int|
        0 <= i < 6 ==> #[trigger] parts[i].len() == 2 && is_hex_digit(parts[i][0])
            && is_hex_digit(parts[i][1])
}

fn is_hex_char(c: char) -> (r: bool)
    ensures
        r == is_hex_digit(c),
{
    ('0' <= c && c <= '9') || ('a' <= c && c <= 'f') || ('A' <= c && c <= 'F')
}

/// Validate MAC address format.
pub fn is_valid_mac_address(mac: &str) -> (r: bool)
    ensures
        r == is_mac_address(mac@),
{
    let parts = split_str(mac, ':');
    let ghost pv = parts.deep_view();
    if parts.len() != 6 {
        return false;
    }
    let mut i: usize = 0;
    while i < 6
        invariant
            pv == parts.deep_view(),
            parts.len() == 6,
            pv == split_on(mac@, ':'),
            i <= 6,
            forall|j: int|
                0 <= j < i ==> #[trigger] pv[j].len() == 2 && is_hex_digit(pv[j][0])
                    && is_hex_digit(pv[j][1]),
        decreases 6 - i,
    {
        let p = parts[i].as_str();
        assert(p@ == pv[i as int]);
        if p.unicode_len() != 2 {
            return false;
        }
        if !is_hex_char(p.get_char(0)) || !is_hex_char(p.get_char(1)) {
            return false;
        }
        i = i + 1;
    }
    true
}

/// The MAC address keys of the device rules.
pub open spec fn device_keys(devices: Seq<(String, DeviceConfig)>) -> Seq<Seq<char>> {
    devices.map_values(|d: (String, DeviceConfig)| d.0@)
}

/// What `Config::validate` answers: an error when there is nothing to reflect
/// between, else an error naming the first invalid device key, else success.
pub open spec fn validation_result(
    n_interfaces: nat,
    n_zones: nat,
    keys: Seq<Seq<char>>,
) -> Result<(), Option<Seq<char>>> {
    if n_interfaces == 0 && n_zones == 0 {
        Err(None)
    } else if exists|i: int| 0 <= i < keys.len() && !is_mac_address(#[trigger] keys[i]) {
        let i = choose|i: int|
            0 <= i < keys.len() && !is_mac_address(#[trigger] keys[i]) && forall|j: int|
                0 <= j < i ==> is_mac_address(#[trigger] keys[j]);
        Err(Some(keys[i]))
    } else {
        Ok(())
    }
}

/// `ConfigError` as the value of `validation_result`.
pub open spec fn config_error_view(e: ConfigError) -> Option<Seq<char>> {
    match e {
        ConfigError::NoInterfaceOrZone => None,
        ConfigError::InvalidMacAddress(m) => Some(m@),
    }
}

impl Config {
    pub open spec fn validation(&self) -> Result<(), Option<Seq<char>>> {
        validation_result(
            self.interfaces@.len(),
            self.zones@.len(),
            device_keys(self.devices@),
        )
    }

    /// Create a default configuration with the provided interfaces.
    pub fn from_interfaces(interfaces: Vec<String>) -> (r: Self)
        ensures
            r.interfaces == interfaces,
            r.net_interface is None,
            r.zones@.len() == 0,
            r.devices@.len() == 0,
            r.service_filters@.len() == 0,
            is_default_settings(r.settings),
    {
        let d = Config::default();
        Config { interfaces, ..d }
    }

    /// Validate the configuration.
    pub fn validate(&self) -> (r: Result<(), ConfigError>)
        ensures
            match r {
                Ok(()) => self.validation() is Ok,
                Err(e) => self.validation() == Err::<(), Option<Seq<char>>>(config_error_view(e)),
            },
    {
        if self.interfaces.len() == 0 && self.zones.len() == 0 {
            return Err(ConfigError::NoInterfaceOrZone);
        }
        let ghost keys = device_keys(self.devices@);
        let mut i: usize = 0;
        while i < self.devices.len()
            invariant
                keys == device_keys(self.devices@),
                self.interfaces@.len() != 0 || self.zones@.len() != 0,
                i <= self.devices@.len(),
                forall|j: int| 0 <= j < i ==> is_mac_address(#[trigger] keys[j]),
            decreases self.devices@.len() - i,
        {
            let mac: &String = &self.devices[i].0;
            assert(mac@ == keys[i as int]);
            if !is_valid_mac_address(mac.as_str()) {
                proof {
                    assert(0 <= i < keys.len() && !is_mac_address(keys[i as int]) && forall|j: int|
                            0 <= j < i ==> is_mac_address(#[trigger] keys[j]));
                    let k = choose|k: int|
                        0 <= k < keys.len() && !is_mac_address(#[trigger] keys[k]) && forall|j: int|
                            0 <= j < k ==> is_mac_address(#[trigger] keys[j]);
                    assert(k == i) by {
                        if k < i {
                            assert(is_mac_address(keys[k]));
                        }
                        if k > i {
                            assert(is_mac_address(keys[i as int]));
                        }
                    }
                    assert(self.interfaces@.len() != 0 || self.zones@.len() != 0);
                    assert(self.validation() == Err::<(), Option<Seq<char>>>(Some(keys[k])));
                }
                return Err(ConfigError::InvalidMacAddress(mac.clone()));
            }
            i = i + 1;
        }
        Ok(())
    }
}


/// `p` with `x` added at the end unless it already holds it.
pub open spec fn push_new(p: Seq<Seq<char>>, x: Seq<char>) -> Seq<Seq<char>> {
    if p.contains(x) {
        p
    } else {
        p.push(x)
    }
}

/// `p` with the items of `s` added in order, each unless already there.
pub open spec fn add_all_new(p: Seq<Seq<char>>, s: Seq<Seq<char>>) -> Seq<Seq<char>>
    decreases s.len(),
{
    if s.len() == 0 {
        p
    } else {
        push_new(add_all_new(p, s.drop_last()), s.last())
    }
}

/// `p` with the interfaces of each zone added in order, each unless
/// already there.
pub open spec fn add_zone_interfaces(p: Seq<Seq<char>>, zones: Seq<Zone>) -> Seq<Seq<char>>
    decreases zones.len(),
{
    if zones.len() == 0 {
        p
    } else {
        add_all_new(add_zone_interfaces(p, zones.drop_last()), zones.last().interfaces.deep_view())
    }
}

/// Adding items unless already there keeps a list free of repetitions and
/// gives it exactly the items of both.
pub proof fn lemma_add_all_new(p: Seq<Seq<char>>, s: Seq<Seq<char>>)
    requires
        p.no_duplicates(),
    ensures
        add_all_new(p, s).no_duplicates(),
        forall|x: Seq<char>| #[trigger] add_all_new(p, s).contains(x) <==> p.contains(x) || s.contains(x),
    decreases s.len(),
{
    if s.len() > 0 {
        let q = add_all_new(p, s.drop_last());
        lemma_add_all_new(p, s.drop_last());
        assert forall|x: Seq<char>| #[trigger] add_all_new(p, s).contains(x) <==> p.contains(x) || s.contains(x) by {
            if s.drop_last().contains(x) {
                let i = choose|i: int| 0 <= i < s.drop_last().len() && s.drop_last()[i] == x;
                assert(s[i] == x);
            }
            if s.contains(x) && x != s.last() {
                let i = choose|i: int| 0 <= i < s.len() && s[i] == x;
                assert(s.drop_last()[i] == x);
            }
            if !q.contains(s.last()) {
                if q.push(s.last()).contains(x) && x != s.last() {
                    let i = choose|i: int| 0 <= i < q.push(s.last()).len() && q.push(s.last())[i] == x;
                    assert(q[i] == x);
                }
                if x == s.last() {
                    assert(q.push(s.last())[q.len() as int] == x);
                }
                if q.contains(x) {
                    let i = choose|i: int| 0 <= i < q.len() && q[i] == x;
                    assert(q.push(s.last())[i] == x);
                }
            }
        }
    }
}

/// Adding the zones' interfaces keeps a list free of repetitions and gives
/// it exactly the items of the list and of the zones.
pub proof fn lemma_add_zone_interfaces(p: Seq<Seq<char>>, zones: Seq<Zone>)
    requires
        p.no_duplicates(),
    ensures
        add_zone_interfaces(p, zones).no_duplicates(),
        forall|x: Seq<char>|
            #[trigger] add_zone_interfaces(p, zones).contains(x) <==> p.contains(x) || exists|i: int|
                0 <= i < zones.len() && #[trigger] zones[i].interfaces.deep_view().contains(x),
    decreases zones.len(),
{
    if zones.len() > 0 {
        let init = zones.drop_last();
        lemma_add_zone_interfaces(p, init);
        let q = add_zone_interfaces(p, init);
        lemma_add_all_new(q, zones.last().interfaces.deep_view());
        assert forall|x: Seq<char>|
            #[trigger] add_zone_interfaces(p, zones).contains(x) <==> p.contains(x) || exists|i: int|
                0 <= i < zones.len() && #[trigger] zones[i].interfaces.deep_view().contains(x) by {
            if exists|i: int| 0 <= i < zones.len() && #[trigger] zones[i].interfaces.deep_view().contains(x) {
                let i = choose|i: int| 0 <= i < zones.len() && #[trigger] zones[i].interfaces.deep_view().contains(x);
                if i < init.len() {
                    assert(init[i] == zones[i]);
                }
            }
            if exists|i: int| 0 <= i < init.len() && #[trigger] init[i].interfaces.deep_view().contains(x) {
                let i = choose|i: int| 0 <= i < init.len() && #[trigger] init[i].interfaces.deep_view().contains(x);
                assert(init[i] == zones[i]);
            }
        }
    }
}

/// The reflector works on every configured interface and every interface of
/// a zone, and on each only once.
pub proof fn lemma_reflection_interfaces(c: Config)
    ensures
        c.spec_reflection_interfaces().no_duplicates(),
        forall|x: Seq<char>|
            #[trigger] c.spec_reflection_interfaces().contains(x) <==> c.interfaces.deep_view().contains(x)
                || exists|i: int|
                0 <= i < c.zones@.len() && #[trigger] c.zones@[i].interfaces.deep_view().contains(x),
{
    let e = Seq::<Seq<char>>::empty();
    lemma_add_all_new(e, c.interfaces.deep_view());
    lemma_add_zone_interfaces(add_all_new(e, c.interfaces.deep_view()), c.zones@);
}

impl Config {
    /// The interfaces that the reflector works on: the configured
    /// interfaces, then those of each zone in order, each once.
    pub open spec fn spec_reflection_interfaces(&self) -> Seq<Seq<char>> {
        add_zone_interfaces(add_all_new(Seq::empty(), self.interfaces.deep_view()), self.zones@)
    }

    /// The interfaces to open sockets on: the configured interfaces, then
    /// those of each zone, each once, in order of first mention.
    pub fn reflection_interfaces(&self) -> (r: Vec<String>)
        ensures
            r.deep_view() == self.spec_reflection_interfaces(),
    {
        let mut out: Vec<String> = Vec::new();
        proof {
            assert(out.deep_view() =~= Seq::<Seq<char>>::empty());
        }
        add_names(&mut out, &self.interfaces);
        let ghost base = out.deep_view();
        let mut k: usize = 0;
        proof {
            assert(self.zones@.take(0) =~= Seq::<Zone>::empty());
        }
        while k < self.zones.len()
            invariant
                base == add_all_new(Seq::empty(), self.interfaces.deep_view()),
                k <= self.zones@.len(),
                out.deep_view() == add_zone_interfaces(base, self.zones@.take(k as int)),
            decreases self.zones@.len() - k,
        {
            proof {
                assert(self.zones@.take(k + 1).drop_last() =~= self.zones@.take(k as int));
            }
            add_names(&mut out, &self.zones[k].interfaces);
            k = k + 1;
        }
        proof {
            assert(self.zones@.take(k as int) =~= self.zones@);
        }
        out
    }
}

/// Add each of `names` to `out` in order, unless already there.
fn add_names(out: &mut Vec<String>, names: &Vec<String>)
    ensures
        final(out).deep_view() == add_all_new(old(out).deep_view(), names.deep_view()),
{
    let ghost start = out.deep_view();
    let ghost nv = names.deep_view();
    let mut i: usize = 0;
    proof {
        assert(nv.take(0) =~= Seq::<Seq<char>>::empty());
    }
    while i < names.len()
        invariant
            nv == names.deep_view(),
            i <= names@.len(),
            out.deep_view() == add_all_new(start, nv.take(i as int)),
        decreases names@.len() - i,
    {
        proof {
            assert(nv.take(i + 1).drop_last() =~= nv.take(i as int));
        }
        if !contains_str(out, names[i].as_str()) {
            let ghost before = out.deep_view();
            out.push(names[i].clone());
            proof {
                assert(out.deep_view() =~= before.push(nv[i as int]));
            }
        }
        i = i + 1;
    }
    proof {
        assert(nv.take(i as int) =~= nv);
    }
}

/// A configuration made from an interface list is valid exactly when the
/// list is not empty.
pub proof fn lemma_interface_config_valid(interfaces: Seq<Seq<char>>)
    ensures
        validation_result(interfaces.len(), 0, Seq::empty()) is Ok <==> interfaces.len() > 0,
{
}

} // verus!
