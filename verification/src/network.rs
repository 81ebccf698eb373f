//! Network interfaces as the reflector sees them, and which multicast
//! sockets an interface gets.

use vstd::prelude::*;
use vstd::string::*;
use crate::mdns::IpAddress;
use crate::text::str_eq;

verus! {

/// Network interface information.
#[derive(Debug, Clone)]
pub struct InterfaceInfo {
    /// Interface name
    pub name: String,
    /// Interface index
    pub index: u32,
    /// IPv4 address (if any), as a big-endian integer
    pub ipv4_addr: Option<u32>,
    /// IPv6 address (if any), as a big-endian integer
    pub ipv6_addr: Option<u128>,
    /// MAC address
    pub mac_addr: Option<String>,
}

pub struct InterfaceView {
    pub name: Seq<char>,
    pub index: u32,
    pub ipv4_addr: Option<u32>,
    pub ipv6_addr: Option<u128>,
    pub mac_addr: Option<Seq<char>>,
}

impl View for InterfaceInfo {
    type V = InterfaceView;

    open spec fn view(&self) -> InterfaceView {
        InterfaceView {
            name: self.name@,
            index: self.index,
            ipv4_addr: self.ipv4_addr,
            ipv6_addr: self.ipv6_addr,
            mac_addr: match self.mac_addr {
                Some(m) => Some(m@),
                None => None,
            },
        }
    }
}

/// One address of the system as the operating system lists it: the
/// interface name, its index when known, and the address.
#[derive(Debug, Clone)]
pub struct InterfaceAddress {
    pub name: String,
    pub index: Option<u32>,
    pub ip: IpAddress,
}

pub open spec fn address_view(a: InterfaceAddress) -> (Seq<char>, Option<u32>, IpAddress) {
    (a.name@, a.index, a.ip)
}

/// The interface with `ip` recorded as its IPv4 or IPv6 address.
pub open spec fn with_address(v: InterfaceView, ip: IpAddress) -> InterfaceView {
    match ip {
        IpAddress::V4(x) => InterfaceView { ipv4_addr: Some(x), ..v },
        IpAddress::V6(x) => InterfaceView { ipv6_addr: Some(x), ..v },
    }
}

/// The first interface in `v` with this name.
pub open spec fn position_of(v: Seq<InterfaceView>, name: Seq<char>) -> Option<int> {
    if exists|k: int| 0 <= k < v.len() && #[trigger] v[k].name == name {
        Some(
            choose|k: int|
                0 <= k < v.len() && #[trigger] v[k].name == name && forall|j: int|
                    0 <= j < k ==> #[trigger] v[j].name != name,
        )
    } else {
        None
    }
}

/// The interfaces that a list of addresses describes, one per name in the
/// order names first appear: the index is that of the first address of the
/// name (0 when unknown), the IPv4 and IPv6 addresses are the last ones
/// listed for the name, and no MAC address is known.
pub open spec fn interfaces_from(addrs: Seq<(Seq<char>, Option<u32>, IpAddress)>) -> Seq<InterfaceView>
    decreases addrs.len(),
{
    if addrs.len() == 0 {
        Seq::empty()
    } else {
        let rest = interfaces_from(addrs.drop_last());
        let a = addrs.last();
        match position_of(rest, a.0) {
            Some(k) => rest.update(k, with_address(rest[k], a.2)),
            None => rest.push(
                with_address(
                    InterfaceView {
                        name: a.0,
                        index: match a.1 {
                            Some(i) => i,
                            None => 0,
                        },
                        ipv4_addr: None,
                        ipv6_addr: None,
                        mac_addr: None,
                    },
                    a.2,
                ),
            ),
        }
    }
}

/// No two interfaces share a name.
pub open spec fn distinct_names(v: Seq<InterfaceView>) -> bool {
    forall|i: int, j: int| 0 <= i < j < v.len() ==> #[trigger] v[i].name != #[trigger] v[j].name
}

fn position_in(v: &Vec<InterfaceInfo>, name: &str) -> (r: Option<usize>)
    ensures
        match r {
            Some(k) => k < v@.len() && position_of(v@.map_values(|i: InterfaceInfo| i@), name@)
                == Some(k as int),
            None => position_of(v@.map_values(|i: InterfaceInfo| i@), name@) is None,
        },
{
    let ghost vv = v@.map_values(|i: InterfaceInfo| i@);
    let mut k: usize = 0;
    while k < v.len()
        invariant
            vv == v@.map_values(|i: InterfaceInfo| i@),
            k <= v@.len(),
            forall|j: int| 0 <= j < k ==> #[trigger] vv[j].name != name@,
        decreases v@.len() - k,
    {
        if str_eq(v[k].name.as_str(), name) {
            proof {
                assert(vv[k as int].name == name@);
                assert(0 <= k < vv.len() && vv[k as int].name == name@ && forall|j: int|
                    0 <= j < k ==> #[trigger] vv[j].name != name@);
                let m = choose|m: int|
                    0 <= m < vv.len() && #[trigger] vv[m].name == name@ && forall|j: int|
                        0 <= j < m ==> #[trigger] vv[j].name != name@;
                if m < k {
                    assert(vv[m].name != name@);
                }
                if m > k {
                    assert(vv[k as int].name != name@);
                }
            }
            return Some(k);
        }
        k = k + 1;
    }
    None
}

fn record_address(info: &mut InterfaceInfo, ip: IpAddress)
    ensures
        final(info)@ == with_address(old(info)@, ip),
{
    match ip {
        IpAddress::V4(x) => {
            info.ipv4_addr = Some(x);
        },
        IpAddress::V6(x) => {
            info.ipv6_addr = Some(x);
        },
    }
}

impl InterfaceInfo {
    /// Gather a list of system addresses into interfaces, one per name.
    pub fn from_addresses(addrs: &Vec<InterfaceAddress>) -> (r: Vec<Self>)
        ensures
            r@.map_values(|i: InterfaceInfo| i@) == interfaces_from(
                addrs@.map_values(|a: InterfaceAddress| address_view(a)),
            ),
    {
        let ghost av = addrs@.map_values(|a: InterfaceAddress| address_view(a));
        let mut out: Vec<InterfaceInfo> = Vec::new();
        let mut i: usize = 0;
        proof {
            assert(av.take(0) =~= Seq::<(Seq<char>, Option<u32>, IpAddress)>::empty());
            assert(out@.map_values(|i: InterfaceInfo| i@) =~= Seq::<InterfaceView>::empty());
        }
        while i < addrs.len()
            invariant
                av == addrs@.map_values(|a: InterfaceAddress| address_view(a)),
                i <= addrs@.len(),
                out@.map_values(|i: InterfaceInfo| i@) == interfaces_from(av.take(i as int)),
            decreases addrs@.len() - i,
        {
            let a = &addrs[i];
            let ghost before = out@;
            proof {
                assert(av.take(i + 1).drop_last() =~= av.take(i as int));
                assert(av.take(i + 1).last() == av[i as int]);
            }
            match position_in(&out, a.name.as_str()) {
                Some(k) => {
                    let mut entry = out.remove(k);
                    record_address(&mut entry, a.ip);
                    out.insert(k, entry);
                    proof {
                        assert(out@ =~= before.update(k as int, out@[k as int]));
                        assert(out@.map_values(|i: InterfaceInfo| i@) =~= before.map_values(
                            |i: InterfaceInfo| i@,
                        ).update(k as int, with_address(before[k as int]@, a.ip)));
                    }
                },
                None => {
                    let index: u32 = match a.index {
                        Some(x) => x,
                        None => 0,
                    };
                    let mut entry = InterfaceInfo {
                        name: a.name.clone(),
                        index,
                        ipv4_addr: None,
                        ipv6_addr: None,
                        mac_addr: None,
                    };
                    record_address(&mut entry, a.ip);
                    out.push(entry);
                    proof {
                        assert(out@.map_values(|i: InterfaceInfo| i@) =~= before.map_values(
                            |i: InterfaceInfo| i@,
                        ).push(out@[before.len() as int]@));
                    }
                },
            }
            i = i + 1;
        }
        proof {
            assert(av.take(addrs@.len() as int) =~= av);
        }
        out
    }

    /// Find the interface with this name.
    pub fn find_by_name(interfaces: &Vec<Self>, name: &str) -> (r: Option<Self>)
        ensures
            match r {
                Some(found) => exists|k: int|
                    position_of(interfaces@.map_values(|i: InterfaceInfo| i@), name@) == Some(k)
                        && found@ == #[trigger] interfaces@[k]@,
                None => position_of(interfaces@.map_values(|i: InterfaceInfo| i@), name@) is None,
            },
    {
        match position_in(interfaces, name) {
            Some(k) => {
                let f = &interfaces[k];
                let mac_addr = match &f.mac_addr {
                    Some(m) => Some(m.clone()),
                    None => None,
                };
                let found = InterfaceInfo {
                    name: f.name.clone(),
                    index: f.index,
                    ipv4_addr: f.ipv4_addr,
                    ipv6_addr: f.ipv6_addr,
                    mac_addr,
                };
                proof {
                    assert(found@ == interfaces@[k as int]@);
                }
                Some(found)
            },
            None => None,
        }
    }

    /// The interface names, in order.
    pub fn list_names(interfaces: &Vec<Self>) -> (r: Vec<String>)
        ensures
            r.deep_view() == interfaces@.map_values(|i: InterfaceInfo| i.name@),
    {
        let mut names: Vec<String> = Vec::new();
        let mut k: usize = 0;
        while k < interfaces.len()
            invariant
                k <= interfaces@.len(),
                names.deep_view() == interfaces@.take(k as int).map_values(|i: InterfaceInfo| i.name@),
            decreases interfaces@.len() - k,
        {
            let ghost before = names.deep_view();
            names.push(interfaces[k].name.clone());
            proof {
                assert(names.deep_view() =~= before.push(interfaces@[k as int].name@));
                assert(names.deep_view() =~= interfaces@.take(k + 1).map_values(
                    |i: InterfaceInfo| i.name@,
                ));
            }
            k = k + 1;
        }
        proof {
            assert(interfaces@.take(interfaces@.len() as int) =~= interfaces@);
        }
        names
    }
}

/// The names of a list of interfaces.
pub open spec fn interface_names(v: Seq<InterfaceView>) -> Set<Seq<char>> {
    Set::new(|n: Seq<char>| exists|i: int| 0 <= i < v.len() && #[trigger] v[i].name == n)
}

/// The names in a list of addresses.
pub open spec fn address_names(addrs: Seq<(Seq<char>, Option<u32>, IpAddress)>) -> Set<Seq<char>> {
    Set::new(|n: Seq<char>| exists|j: int| 0 <= j < addrs.len() && #[trigger] addrs[j].0 == n)
}

/// Gathering addresses gives each name once, and exactly the names listed.
pub proof fn lemma_interfaces_from_names(addrs: Seq<(Seq<char>, Option<u32>, IpAddress)>)
    ensures
        distinct_names(interfaces_from(addrs)),
        interface_names(interfaces_from(addrs)) == address_names(addrs),
    decreases addrs.len(),
{
    if addrs.len() > 0 {
        let p = addrs.drop_last();
        lemma_interfaces_from_names(p);
        let rest = interfaces_from(p);
        let v = interfaces_from(addrs);
        let a = addrs.last();
        match position_of(rest, a.0) {
            Some(k) => {
                assert(0 <= k < rest.len() && rest[k].name == a.0) by {
                    assert(exists|k: int| 0 <= k < rest.len() && #[trigger] rest[k].name == a.0);
                }
                assert forall|i: int| 0 <= i < v.len() implies #[trigger] v[i].name == rest[i].name by {}
            },
            None => {
                assert forall|i: int| 0 <= i < rest.len() implies #[trigger] rest[i].name != a.0 by {}
            },
        }
        assert forall|n: Seq<char>| interface_names(v).contains(n) <==> address_names(addrs).contains(n) by {
            assert(interface_names(rest).contains(n) == address_names(p).contains(n));
            if interface_names(v).contains(n) {
                let i = choose|i: int| 0 <= i < v.len() && #[trigger] v[i].name == n;
                if i < rest.len() && rest[i].name == n {
                    assert(interface_names(rest).contains(n));
                    let j = choose|j: int| 0 <= j < p.len() && #[trigger] p[j].0 == n;
                    assert(addrs[j] == p[j]);
                } else {
                    assert(addrs[addrs.len() - 1].0 == n);
                }
            }
            if address_names(addrs).contains(n) {
                let j = choose|j: int| 0 <= j < addrs.len() && #[trigger] addrs[j].0 == n;
                if j < p.len() {
                    assert(p[j] == addrs[j]);
                    assert(address_names(p).contains(n));
                    let i = choose|i: int| 0 <= i < rest.len() && #[trigger] rest[i].name == n;
                    assert(v[i].name == n);
                } else {
                    match position_of(rest, a.0) {
                        Some(k) => {
                            assert(v[k].name == n);
                        },
                        None => {
                            assert(v[rest.len() as int].name == n);
                        },
                    }
                }
            }
        }
        assert(interface_names(v) =~= address_names(addrs));
    } else {
        assert(interface_names(interfaces_from(addrs)) =~= address_names(addrs));
    }
}

/// Why no socket serves an interface.
#[derive(Debug, Clone, Copy, PartialEq, Eq, Structural)]
pub enum NetworkError {
    /// Neither an IPv4 nor an IPv6 socket could be made.
    NoSocket,
}

/// Which multicast sockets an interface gets.
#[derive(Debug, Clone, Copy, PartialEq, Eq, Structural)]
pub struct SocketPlan {
    pub ipv4: bool,
    pub ipv6: bool,
}

impl SocketPlan {
    /// An IPv4 socket when IPv4 is enabled and the interface has an IPv4
    /// address; likewise for IPv6.
    pub fn for_interface(interface: &InterfaceInfo, enable_ipv4: bool, enable_ipv6: bool) -> (r: Self)
        ensures
            r.ipv4 == (enable_ipv4 && interface.ipv4_addr is Some),
            r.ipv6 == (enable_ipv6 && interface.ipv6_addr is Some),
    {
        SocketPlan {
            ipv4: enable_ipv4 && interface.ipv4_addr.is_some(),
            ipv6: enable_ipv6 && interface.ipv6_addr.is_some(),
        }
    }

    /// An interface is served when at least one of its sockets was made.
    pub fn check_created(ipv4_created: bool, ipv6_created: bool) -> (r: Result<(), NetworkError>)
        ensures
            r is Ok <==> ipv4_created || ipv6_created,
    {
        if !ipv4_created && !ipv6_created {
            Err(NetworkError::NoSocket)
        } else {
            Ok(())
        }
    }
}

} // verus!
