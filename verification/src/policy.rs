//! Which packets are reflected, and where: service filters and zone rules.

use vstd::prelude::*;
use vstd::string::*;
use crate::config::{Zone, ServiceFilter, FilterAction};
use crate::text::{str_eq, contains_str};

verus! {

/// A zone as plain values: name, member interfaces, zones it may reach.
pub struct ZoneView {
    pub name: Seq<char>,
    pub interfaces: Seq<Seq<char>>,
    pub allowed: Seq<Seq<char>>,
}

pub open spec fn zone_view(z: Zone) -> ZoneView {
    ZoneView {
        name: z.name@,
        interfaces: z.interfaces.deep_view(),
        allowed: z.allowed_zones.deep_view(),
    }
}

pub open spec fn zones_view(zones: Seq<Zone>) -> Seq<ZoneView> {
    zones.map_values(|z: Zone| zone_view(z))
}

/// The first zone that has `iface` among its interfaces.
#[verifier::opaque]
pub open spec fn zone_of(zones: Seq<ZoneView>, iface: Seq<char>) -> Option<int> {
    if exists|i: int| 0 <= i < zones.len() && #[trigger] zones[i].interfaces.contains(iface) {
        Some(
            choose|i: int|
                0 <= i < zones.len() && #[trigger] zones[i].interfaces.contains(iface) && forall|j: int|
                    0 <= j < i ==> !(#[trigger] zones[j].interfaces.contains(iface)),
        )
    } else {
        None
    }
}

/// Whether traffic from `source` may be reflected onto `target`: always when
/// no zone is configured; when both lie in zones, if the source's zone allows
/// every zone (empty list) or names the target's zone; when neither lies in a
/// zone, yes; when only one does, no.
pub open spec fn reflection_allowed(zones: Seq<ZoneView>, source: Seq<char>, target: Seq<char>) -> bool {
    if zones.len() == 0 {
        true
    } else {
        match (zone_of(zones, source), zone_of(zones, target)) {
            (Some(a), Some(b)) => zones[a].allowed.len() == 0 || zones[a].allowed.contains(
                zones[b].name,
            ),
            (None, None) => true,
            _ => false,
        }
    }
}

/// The first zone that lists `iface`.
pub fn find_zone(zones: &Vec<Zone>, iface: &str) -> (r: Option<usize>)
    ensures
        match r {
            Some(i) => i < zones@.len() && zone_of(zones_view(zones@), iface@) == Some(i as int),
            None => zone_of(zones_view(zones@), iface@) is None,
        },
{
    let ghost zv = zones_view(zones@);
    proof {
        reveal(zone_of);
    }
    let mut i: usize = 0;
    while i < zones.len()
        invariant
            zv == zones_view(zones@),
            i <= zones@.len(),
            forall|j: int| 0 <= j < i ==> !(#[trigger] zv[j].interfaces.contains(iface@)),
        decreases zones@.len() - i,
    {
        if contains_str(&zones[i].interfaces, iface) {
            proof {
                reveal(zone_of);
                assert(zv[i as int].interfaces.contains(iface@));
                assert(0 <= i < zv.len() && zv[i as int].interfaces.contains(iface@) && forall|j: int|
                    0 <= j < i ==> !(#[trigger] zv[j].interfaces.contains(iface@)));
                let k = choose|k: int|
                    0 <= k < zv.len() && #[trigger] zv[k].interfaces.contains(iface@) && forall|j: int|
                        0 <= j < k ==> !(#[trigger] zv[j].interfaces.contains(iface@));
                if k < i {
                    assert(!zv[k].interfaces.contains(iface@));
                }
                if k > i {
                    assert(!zv[i as int].interfaces.contains(iface@));
                }
            }
            return Some(i);
        }
        i = i + 1;
    }
    proof {
        reveal(zone_of);
    }
    None
}

/// Check if reflection is allowed between two interfaces based on zones.
pub fn is_reflection_allowed(zones: &Vec<Zone>, source: &str, target: &str) -> (r: bool)
    ensures
        r == reflection_allowed(zones_view(zones@), source@, target@),
{
    if zones.len() == 0 {
        return true;
    }
    let source_zone = find_zone(zones, source);
    let target_zone = find_zone(zones, target);
    match (source_zone, target_zone) {
        (Some(a), Some(b)) => {
            let src = &zones[a];
            if src.allowed_zones.len() == 0 {
                return true;
            }
            contains_str(&src.allowed_zones, zones[b].name.as_str())
        },
        (None, None) => true,
        _ => false,
    }
}

/// A service filter as plain values: the service type it names (or `*`),
/// its action and the zones it applies to (every zone where none is named).
pub struct FilterView {
    pub service_type: Seq<char>,
    pub action: FilterAction,
    pub zones: Seq<Seq<char>>,
}

pub open spec fn filter_view(f: ServiceFilter) -> FilterView {
    FilterView { service_type: f.service_type@, action: f.action, zones: f.zones.deep_view() }
}

pub open spec fn filters_view(filters: Seq<ServiceFilter>) -> Seq<FilterView> {
    filters.map_values(|f: ServiceFilter| filter_view(f))
}

/// The name of the first zone that has `iface` among its interfaces.
pub open spec fn zone_name_of(zones: Seq<ZoneView>, iface: Seq<char>) -> Option<Seq<char>> {
    match zone_of(zones, iface) {
        Some(i) => Some(zones[i].name),
        None => None,
    }
}

/// A string that may be absent, as a value.
pub open spec fn opt_str_view(s: Option<&str>) -> Option<Seq<char>> {
    match s {
        Some(t) => Some(t@),
        None => None,
    }
}

/// A filter applies to a packet from an interface in zone `zone` (`None`:
/// in no zone) and to a service type when it names that type, or is `*`,
/// and names no zone or names `zone`.
pub open spec fn filter_applies(f: FilterView, service_type: Seq<char>, zone: Option<Seq<char>>) -> bool {
    &&& (f.service_type == service_type || f.service_type == "*"@)
    &&& (f.zones.len() == 0 || (zone matches Some(z) && f.zones.contains(z)))
}

/// The action of the first filter that applies to `service_type`.
pub open spec fn first_filter_action(
    filters: Seq<FilterView>,
    service_type: Seq<char>,
    zone: Option<Seq<char>>,
) -> Option<FilterAction> {
    if exists|j: int|
        0 <= j < filters.len() && filter_applies(#[trigger] filters[j], service_type, zone) {
        let j = choose|j: int|
            0 <= j < filters.len() && filter_applies(#[trigger] filters[j], service_type, zone)
                && forall|k: int|
                0 <= k < j ==> !filter_applies(#[trigger] filters[k], service_type, zone);
        Some(filters[j].action)
    } else {
        None
    }
}

/// The action decided for a packet with these service types: that of the
/// first filter applying to the first service type any filter applies to.
pub open spec fn filter_decision(
    types: Seq<Seq<char>>,
    filters: Seq<FilterView>,
    zone: Option<Seq<char>>,
) -> Option<FilterAction>
    decreases types.len(),
{
    if types.len() == 0 {
        None
    } else {
        match first_filter_action(filters, types[0], zone) {
            Some(a) => Some(a),
            None => filter_decision(types.drop_first(), filters, zone),
        }
    }
}

/// A packet passes the filters unless the deciding filter denies it.
pub open spec fn passes_filters(
    types: Seq<Seq<char>>,
    filters: Seq<FilterView>,
    zone: Option<Seq<char>>,
) -> bool {
    match filter_decision(types, filters, zone) {
        Some(a) => a == FilterAction::Allow,
        None => true,
    }
}

/// With no filter, every packet passes.
pub proof fn lemma_no_filters_pass(
    types: Seq<Seq<char>>,
    filters: Seq<FilterView>,
    zone: Option<Seq<char>>,
)
    requires
        filters.len() == 0,
    ensures
        filter_decision(types, filters, zone) is None,
        passes_filters(types, filters, zone),
    decreases types.len(),
{
    if types.len() > 0 {
        lemma_no_filters_pass(types.drop_first(), filters, zone);
    }
}

/// The first filter that applies to a type decides for it: where filter
/// `k` applies to `t` and no earlier one does, its action is the one taken.
pub proof fn lemma_first_applying_filter_acts(
    filters: Seq<FilterView>,
    t: Seq<char>,
    zone: Option<Seq<char>>,
    k: int,
)
    requires
        0 <= k < filters.len(),
        filter_applies(filters[k], t, zone),
        forall|m: int| 0 <= m < k ==> !filter_applies(#[trigger] filters[m], t, zone),
    ensures
        first_filter_action(filters, t, zone) == Some(filters[k].action),
{
    let c = choose|c: int|
        0 <= c < filters.len() && filter_applies(#[trigger] filters[c], t, zone) && forall|m: int|
            0 <= m < c ==> !filter_applies(#[trigger] filters[m], t, zone);
    if c < k {
        assert(!filter_applies(filters[c], t, zone));
    }
    if c > k {
        assert(!filter_applies(filters[k], t, zone));
    }
}

/// A service type that no filter applies to does not decide: the decision
/// is that of the types after it.
pub proof fn lemma_unmatched_type_skipped(
    types: Seq<Seq<char>>,
    filters: Seq<FilterView>,
    zone: Option<Seq<char>>,
)
    requires
        types.len() > 0,
        forall|m: int| 0 <= m < filters.len() ==> !filter_applies(#[trigger] filters[m], types[0], zone),
    ensures
        filter_decision(types, filters, zone) == filter_decision(types.drop_first(), filters, zone),
{
}

/// The first service type that some filter applies to decides the packet,
/// by the first filter that applies to it: the packet passes exactly when
/// that filter allows, whatever the types and filters after them.
pub proof fn lemma_first_matched_type_decides(
    types: Seq<Seq<char>>,
    filters: Seq<FilterView>,
    zone: Option<Seq<char>>,
    i: int,
    k: int,
)
    requires
        0 <= i < types.len(),
        0 <= k < filters.len(),
        filter_applies(filters[k], types[i], zone),
        forall|m: int| 0 <= m < k ==> !filter_applies(#[trigger] filters[m], types[i], zone),
        forall|j: int, m: int|
            0 <= j < i && 0 <= m < filters.len() ==> !filter_applies(
                #[trigger] filters[m],
                #[trigger] types[j],
                zone,
            ),
    ensures
        filter_decision(types, filters, zone) == Some(filters[k].action),
        passes_filters(types, filters, zone) == (filters[k].action == FilterAction::Allow),
    decreases i,
{
    if i == 0 {
        lemma_first_applying_filter_acts(filters, types[0], zone, k);
    } else {
        assert forall|m: int| 0 <= m < filters.len() implies !filter_applies(
            #[trigger] filters[m],
            types[0],
            zone,
        ) by {
            assert(!filter_applies(filters[m], types[0], zone));
        }
        lemma_unmatched_type_skipped(types, filters, zone);
        let rest = types.drop_first();
        assert forall|j: int, m: int|
            0 <= j < i - 1 && 0 <= m < filters.len() implies !filter_applies(
            #[trigger] filters[m],
            #[trigger] rest[j],
            zone,
        ) by {
            assert(rest[j] == types[j + 1]);
            assert(!filter_applies(filters[m], types[j + 1], zone));
        }
        assert(rest[i - 1] == types[i]);
        lemma_first_matched_type_decides(rest, filters, zone, i - 1, k);
    }
}

/// Filters that name zones other than the source's never decide: a packet
/// from an interface whose zone none of them names passes them all.
pub proof fn lemma_other_zones_filters_pass(
    types: Seq<Seq<char>>,
    filters: Seq<FilterView>,
    zone: Option<Seq<char>>,
)
    requires
        forall|j: int|
            0 <= j < filters.len() ==> #[trigger] filters[j].zones.len() > 0 && !(zone matches Some(
                z,
            ) && filters[j].zones.contains(z)),
    ensures
        filter_decision(types, filters, zone) is None,
        passes_filters(types, filters, zone),
    decreases types.len(),
{
    if types.len() > 0 {
        assert forall|j: int| 0 <= j < filters.len() implies !filter_applies(
            #[trigger] filters[j],
            types[0],
            zone,
        ) by {
            assert(filters[j].zones.len() > 0);
        }
        lemma_other_zones_filters_pass(types.drop_first(), filters, zone);
    }
}

fn filter_applies_to(f: &ServiceFilter, service_type: &str, zone: Option<&str>) -> (r: bool)
    ensures
        r == filter_applies(filter_view(*f), service_type@, opt_str_view(zone)),
{
    proof {
        reveal_strlit("*");
    }
    if !(str_eq(f.service_type.as_str(), service_type) || str_eq(f.service_type.as_str(), "*")) {
        return false;
    }
    if f.zones.len() == 0 {
        return true;
    }
    match zone {
        Some(z) => contains_str(&f.zones, z),
        None => false,
    }
}

/// Whether a packet naming these service types (in this order), received on
/// an interface in zone `source_zone` (`None`: in no zone), passes the
/// service filters.
pub fn passes_service_filters(
    types: &Vec<String>,
    filters: &Vec<ServiceFilter>,
    source_zone: Option<&str>,
) -> (r: bool)
    ensures
        r == passes_filters(types.deep_view(), filters_view(filters@), opt_str_view(source_zone)),
{
    let ghost tv = types.deep_view();
    let ghost fv = filters_view(filters@);
    let ghost zone = opt_str_view(source_zone);
    let mut i: usize = 0;
    proof {
        assert(tv.skip(0) =~= tv);
    }
    while i < types.len()
        invariant
            tv == types.deep_view(),
            fv == filters_view(filters@),
            zone == opt_str_view(source_zone),
            i <= types.len(),
            filter_decision(tv, fv, zone) == filter_decision(tv.skip(i as int), fv, zone),
        decreases types.len() - i,
    {
        let ghost t = tv[i as int];
        proof {
            assert(tv.skip(i as int)[0] == t);
            assert(tv.skip(i as int).drop_first() =~= tv.skip(i + 1));
        }
        let mut j: usize = 0;
        while j < filters.len()
            invariant
                fv == filters_view(filters@),
                zone == opt_str_view(source_zone),
                t == tv[i as int],
                i < types.len(),
                tv == types.deep_view(),
                filter_decision(tv, fv, zone) == filter_decision(tv.skip(i as int), fv, zone),
                tv.skip(i as int)[0] == t,
                tv.skip(i as int).drop_first() == tv.skip(i + 1),
                j <= filters.len(),
                forall|k: int| 0 <= k < j ==> !filter_applies(#[trigger] fv[k], t, zone),
            decreases filters.len() - j,
        {
            if filter_applies_to(&filters[j], types[i].as_str(), source_zone) {
                proof {
                    assert(filter_applies(fv[j as int], t, zone));
                    assert(0 <= j < fv.len() && filter_applies(fv[j as int], t, zone) && forall|
                        k: int,
                    |
                        0 <= k < j ==> !filter_applies(#[trigger] fv[k], t, zone));
                    let m = choose|m: int|
                        0 <= m < fv.len() && filter_applies(#[trigger] fv[m], t, zone) && forall|
                            k: int,
                        |
                            0 <= k < m ==> !filter_applies(#[trigger] fv[k], t, zone);
                    if m < j {
                        assert(!filter_applies(fv[m], t, zone));
                    }
                    if m > j {
                        assert(!filter_applies(fv[j as int], t, zone));
                    }
                    assert(first_filter_action(fv, t, zone) == Some(fv[j as int].action));
                    assert(fv[j as int].action == filters@[j as int].action);
                    assert(filter_decision(tv.skip(i as int), fv, zone) == Some(
                        fv[j as int].action,
                    ));
                }
                return match filters[j].action {
                    FilterAction::Allow => true,
                    FilterAction::Deny => false,
                };
            }
            j = j + 1;
        }
        proof {
            assert(first_filter_action(fv, t, zone) is None);
        }
        i = i + 1;
    }
    proof {
        assert(tv.skip(i as int).len() == 0);
    }
    true
}

/// The name of the first zone that lists `iface`.
pub fn zone_name<'a>(zones: &'a Vec<Zone>, iface: &str) -> (r: Option<&'a str>)
    ensures
        opt_str_view(r) == zone_name_of(zones_view(zones@), iface@),
{
    match find_zone(zones, iface) {
        Some(i) => Some(zones[i].name.as_str()),
        None => None,
    }
}

/// The interfaces a packet from `source` is reflected onto, in order.
pub open spec fn reflection_targets(
    interfaces: Seq<Seq<char>>,
    zones: Seq<ZoneView>,
    source: Seq<char>,
) -> Seq<Seq<char>> {
    interfaces.filter(reaches(zones, source))
}

/// The interfaces that a packet from `source` may be reflected onto.
pub open spec fn reaches(zones: Seq<ZoneView>, source: Seq<char>) -> spec_fn(Seq<char>) -> bool {
    |i: Seq<char>| i != source && reflection_allowed(zones, source, i)
}

/// Every interface other than `source`.
pub open spec fn other_than(source: Seq<char>) -> spec_fn(Seq<char>) -> bool {
    |i: Seq<char>| i != source
}

/// The interfaces, other than `source`, that zones let a packet from
/// `source` reach.
pub fn targets_for(interfaces: &Vec<String>, zones: &Vec<Zone>, source: &str) -> (r: Vec<String>)
    ensures
        r.deep_view() == reflection_targets(interfaces.deep_view(), zones_view(zones@), source@),
{
    let ghost iv = interfaces.deep_view();
    let ghost zv = zones_view(zones@);
    let ghost pred = reaches(zv, source@);
    let mut out: Vec<String> = Vec::new();
    let mut k: usize = 0;
    proof {
        assert(out.deep_view() =~= iv.take(0).filter(pred));
    }
    while k < interfaces.len()
        invariant
            iv == interfaces.deep_view(),
            zv == zones_view(zones@),
            pred == reaches(zv, source@),
            k <= interfaces.len(),
            out.deep_view() == iv.take(k as int).filter(pred),
        decreases interfaces.len() - k,
    {
        let name = &interfaces[k];
        let ghost before = out.deep_view();
        proof {
            assert(iv.take(k + 1) =~= iv.take(k as int).push(iv[k as int]));
            Seq::lemma_filter_push(iv.take(k as int), iv[k as int], pred);
        }
        if !str_eq(name.as_str(), source) && is_reflection_allowed(zones, source, name.as_str()) {
            out.push(name.clone());
            proof {
                assert(out.deep_view() =~= before.push(iv[k as int]));
            }
        }
        k = k + 1;
    }
    proof {
        assert(iv.take(interfaces.len() as int) =~= iv);
    }
    out
}

/// A packet is never reflected back onto the interface it came from.
pub proof fn lemma_targets_exclude_source(
    interfaces: Seq<Seq<char>>,
    zones: Seq<ZoneView>,
    source: Seq<char>,
)
    ensures
        !reflection_targets(interfaces, zones, source).contains(source),
{
    let pred = reaches(zones, source);
    if reflection_targets(interfaces, zones, source).contains(source) {
        interfaces.lemma_filter_contains_rev(pred, source);
    }
}

/// Without zones a packet reaches every other interface, in order.
pub proof fn lemma_no_zones_reach_all(interfaces: Seq<Seq<char>>, source: Seq<char>)
    ensures
        reflection_targets(interfaces, Seq::<ZoneView>::empty(), source) == interfaces.filter(
            other_than(source),
        ),
{
    assert(reaches(Seq::<ZoneView>::empty(), source) =~= other_than(source));
}

/// An interface in a zone that allows every zone reaches every interface
/// that lies in some zone.
pub proof fn lemma_open_zone_reaches_zoned(zones: Seq<ZoneView>, source: Seq<char>, target: Seq<char>)
    requires
        zone_of(zones, source) matches Some(a) && zones[a].allowed.len() == 0,
        zone_of(zones, target) is Some,
    ensures
        reflection_allowed(zones, source, target),
{
}

/// An interface in a zone never reaches one outside every zone, nor the
/// other way round.
pub proof fn lemma_zoned_and_unzoned_separated(
    zones: Seq<ZoneView>,
    source: Seq<char>,
    target: Seq<char>,
)
    requires
        zones.len() > 0,
        zone_of(zones, source) is Some != zone_of(zones, target) is Some,
    ensures
        !reflection_allowed(zones, source, target),
{
}


/// A first filter `"*"` that names no zone decides every packet that names
/// a service type: an allow lets it through, a deny drops it.
pub proof fn lemma_catch_all_first_filter_decides(
    types: Seq<Seq<char>>,
    filters: Seq<FilterView>,
    zone: Option<Seq<char>>,
)
    requires
        types.len() > 0,
        filters.len() > 0,
        filters[0].service_type == "*"@,
        filters[0].zones.len() == 0,
    ensures
        passes_filters(types, filters, zone) == (filters[0].action == FilterAction::Allow),
{
    assert(filter_applies(filters[0], types[0], zone));
    let j = choose|j: int|
        0 <= j < filters.len() && filter_applies(#[trigger] filters[j], types[0], zone) && forall|
            k: int,
        | 0 <= k < j ==> !filter_applies(#[trigger] filters[k], types[0], zone);
    assert(0 <= 0 < filters.len() && filter_applies(filters[0], types[0], zone) && forall|k: int|
        0 <= k < 0 ==> !filter_applies(#[trigger] filters[k], types[0], zone));
    if j > 0 {
        assert(!filter_applies(filters[0], types[0], zone));
    }
}

/// A packet that names no service type passes whatever the filters.
pub proof fn lemma_untyped_packet_passes(filters: Seq<FilterView>, zone: Option<Seq<char>>)
    ensures
        passes_filters(Seq::<Seq<char>>::empty(), filters, zone),
{
}

} // verus!
