//! What a filter comes to where its rules do what its documentation says.
//!
//! How the entries of a filter match hosts is decided outside, and nothing here
//! relies on it. Each law below names, as a premise, what it needs the rules to
//! do, and says what then holds of the filter as a whole.
use crate::filter::{ips_of, with_port, AllowlistView, FilterView, IpAddr, SocketAddr};
use crate::filter_laws::{
    checked_in, is_metadata, judged_in, law_refused_by_rules, law_resolved_addresses_are_judged,
    resolved_in, ruled, HostWorld,
};
use vstd::prelude::*;

verus! {

/// Whether an address is in the link-local range of IPv4.
pub open spec fn link_local(ip: IpAddr) -> bool {
    ip matches IpAddr::V4(octets) && octets[0] == 169 && octets[1] == 254
}

/// Whether one of the addresses is link-local.
pub open spec fn any_link_local(ips: Seq<IpAddr>) -> bool {
    exists|i: int| 0 <= i < ips.len() && link_local(#[trigger] ips[i])
}

/// Whether a text is without upper-case letters.
pub open spec fn lower_case(text: Seq<char>) -> bool {
    forall|i: int| 0 <= i < text.len() ==> !('A' <= #[trigger] text[i] <= 'Z')
}

/// Whether a list is without upper-case letters.
pub open spec fn all_lower_case(list: Seq<Seq<char>>) -> bool {
    forall|i: int| 0 <= i < list.len() ==> lower_case(#[trigger] list[i])
}

/// Whether an entry matches a host: it is the host, or it is `*.` and a name that
/// the host ends in, after a dot and something before that.
pub open spec fn entry_matches(entry: Seq<char>, host: Seq<char>) -> bool {
    entry == host || {
        &&& entry.len() > 2
        &&& entry[0] == '*'
        &&& entry[1] == '.'
        &&& host.len() > entry.len() - 1
        &&& host.skip(host.len() - (entry.len() - 1)) == entry.skip(1)
    }
}

/// Whether one of the entries matches a host, by whichever way of matching.
pub open spec fn any_matches(
    matching: spec_fn(Seq<char>, Seq<char>) -> bool,
    entries: Seq<Seq<char>>,
    host: Seq<char>,
) -> bool {
    exists|i: int| 0 <= i < entries.len() && matching(#[trigger] entries[i], host)
}

/// Whether a way of matching is the documented one on entries and hosts without
/// upper-case letters.
pub open spec fn as_documented(matching: spec_fn(Seq<char>, Seq<char>) -> bool) -> bool {
    forall|entry: Seq<char>, host: Seq<char>|
        lower_case(entry) && lower_case(host) ==> #[trigger] matching(entry, host)
            == entry_matches(entry, host)
}

/// The filter with more denied hosts.
pub open spec fn denying(filter: FilterView, denied: Seq<Seq<char>>) -> FilterView {
    FilterView { denied: filter.denied + denied, ..filter }
}

/// The filter that allows all hosts.
pub open spec fn allowing_all() -> FilterView {
    FilterView { allowed: AllowlistView::All, denied: Seq::empty() }
}

impl HostWorld {
    /// Whether the rules allow a host with these addresses.
    pub open spec fn allows(
        self,
        filter: FilterView,
        host: Seq<char>,
        ips: Seq<IpAddr>,
    ) -> bool {
        (self.rules)(filter, host, ips) is Allow
    }

    /// Whether the rules allow no host with a link-local address.
    pub open spec fn refuses_link_local(self) -> bool {
        forall|filter: FilterView, host: Seq<char>, ips: Seq<IpAddr>|
            any_link_local(ips) ==> !(#[trigger] self.allows(filter, host, ips))
    }

    /// Whether further deny entries take from what the rules allow the hosts that
    /// one of them matches, and no other.
    pub open spec fn honours_denied_hosts(
        self,
        matching: spec_fn(Seq<char>, Seq<char>) -> bool,
    ) -> bool {
        forall|
            filter: FilterView,
            denied: Seq<Seq<char>>,
            host: Seq<char>,
            ips: Seq<IpAddr>,
        | #[trigger]
            self.allows(denying(filter, denied), host, ips) == (self.allows(filter, host, ips)
                && !any_matches(matching, denied, host))
    }

    /// Whether the rules of a strict filter without allowed hosts allow nothing.
    pub open spec fn honours_strictness(self) -> bool {
        forall|filter: FilterView, host: Seq<char>, ips: Seq<IpAddr>|
            filter.allowed == AllowlistView::Strict(Seq::empty()) ==> !(#[trigger] self.allows(
                filter,
                host,
                ips,
            ))
    }

    /// Whether the rules of a filter for all hosts allow all but those with a
    /// link-local address and those that `metadata_name` says are names of
    /// metadata services.
    pub open spec fn honours_allow_all(self, metadata_name: spec_fn(Seq<char>) -> bool) -> bool {
        forall|host: Seq<char>, ips: Seq<IpAddr>| #[trigger]
            self.allows(allowing_all(), host, ips) == (!metadata_name(host) && !any_link_local(ips))
    }
}

/// A host that resolves to a link-local address or to one of a metadata service,
/// among whichever others, is denied and has no address, whatever the allowlist.
pub proof fn law_link_local_is_denied(
    world: HostWorld,
    filter: FilterView,
    host: Seq<char>,
    port: u16,
    at: int,
)
    requires
        world.refuses_link_local(),
        0 <= at < resolved_in(world, host, port).len(),
        link_local(resolved_in(world, host, port)[at].ip) || (world.metadata)(
            resolved_in(world, host, port)[at].ip,
        ),
    ensures
        !(checked_in(world, filter, host, port).result is Allow),
        checked_in(world, filter, host, port).resolved_addrs.len() == 0,
{
    let ips = ips_of(resolved_in(world, host, port));
    assert(ips[at] == resolved_in(world, host, port)[at].ip);
    if link_local(ips[at]) {
        assert(any_link_local(ips));
        assert(!world.allows(filter, host, ips));
        assert(!world.allows(filter, with_port(host, port), ips));
    }
    law_resolved_addresses_are_judged(world, filter, host, port);
}

/// No address that a check returns is link-local or one of a metadata service.
pub proof fn law_no_such_address_is_returned(
    world: HostWorld,
    filter: FilterView,
    host: Seq<char>,
    port: u16,
)
    requires
        world.refuses_link_local(),
    ensures
        forall|i: int|
            0 <= i < checked_in(world, filter, host, port).resolved_addrs.len() ==> {
                let addr = #[trigger] checked_in(world, filter, host, port).resolved_addrs[i];
                !link_local(addr.ip) && !(world.metadata)(addr.ip)
            },
{
    let addrs = checked_in(world, filter, host, port).resolved_addrs;
    law_resolved_addresses_are_judged(world, filter, host, port);
    assert forall|i: int| 0 <= i < addrs.len() implies {
        let addr = #[trigger] addrs[i];
        !link_local(addr.ip) && !(world.metadata)(addr.ip)
    } by {
        if link_local(addrs[i].ip) || (world.metadata)(addrs[i].ip) {
            law_link_local_is_denied(world, filter, host, port, i);
        }
    }
}

/// Further deny entries beat the allowlist, and change the verdict on a host with
/// known addresses only where one of them matches the host.
pub proof fn law_denied_hosts_are_denied(
    world: HostWorld,
    matching: spec_fn(Seq<char>, Seq<char>) -> bool,
    filter: FilterView,
    denied: Seq<Seq<char>>,
    host: Seq<char>,
    ips: Seq<IpAddr>,
)
    requires
        world.honours_denied_hosts(matching),
    ensures
        judged_in(world, denying(filter, denied), host, None, ips) is Allow <==> judged_in(
            world,
            filter,
            host,
            None,
            ips,
        ) is Allow && !any_matches(matching, denied, host),
{
    assert(world.allows(denying(filter, denied), host, ips) == (world.allows(filter, host, ips)
        && !any_matches(matching, denied, host)));
}

/// Where entries match as documented, a host is denied by a further entry that is
/// the host, or that is `*.` and a name that the host ends in, after a dot and
/// something before that; the bare name is not.
pub proof fn law_denied_hosts_match_as_documented(
    world: HostWorld,
    matching: spec_fn(Seq<char>, Seq<char>) -> bool,
    filter: FilterView,
    denied: Seq<Seq<char>>,
    host: Seq<char>,
    ips: Seq<IpAddr>,
)
    requires
        world.honours_denied_hosts(matching),
        as_documented(matching),
        all_lower_case(denied),
        lower_case(host),
    ensures
        judged_in(world, denying(filter, denied), host, None, ips) is Allow <==> judged_in(
            world,
            filter,
            host,
            None,
            ips,
        ) is Allow && forall|i: int|
            0 <= i < denied.len() ==> !entry_matches(#[trigger] denied[i], host),
{
    law_denied_hosts_are_denied(world, matching, filter, denied, host, ips);
    if any_matches(matching, denied, host) {
        let at = choose|i: int| 0 <= i < denied.len() && matching(#[trigger] denied[i], host);
        assert(lower_case(denied[at]));
        assert(entry_matches(denied[at], host));
    } else {
        assert forall|i: int| 0 <= i < denied.len() implies !entry_matches(
            #[trigger] denied[i],
            host,
        ) by {
            assert(lower_case(denied[i]));
            assert(!matching(denied[i], host));
        }
    }
}

/// Deny entries of two calls are those of one call with both lists; without any
/// entry the filter stays as it is.
pub proof fn law_denied_hosts_add_up(
    filter: FilterView,
    first: Seq<Seq<char>>,
    second: Seq<Seq<char>>,
)
    ensures
        denying(denying(filter, first), second) == denying(filter, first + second),
        denying(filter, Seq::empty()) == filter,
{
    assert((filter.denied + first) + second =~= filter.denied + (first + second));
    assert(filter.denied + Seq::<Seq<char>>::empty() =~= filter.denied);
}

/// In which order deny entries are added does not matter, and neither does in how
/// many calls, whatever the entries are and however they match hosts.
pub proof fn law_order_of_denied_hosts(
    world: HostWorld,
    matching: spec_fn(Seq<char>, Seq<char>) -> bool,
    filter: FilterView,
    first: Seq<Seq<char>>,
    second: Seq<Seq<char>>,
    host: Seq<char>,
    ips: Seq<IpAddr>,
)
    requires
        world.honours_denied_hosts(matching),
    ensures
        judged_in(world, denying(denying(filter, first), second), host, None, ips) is Allow
            <==> judged_in(world, denying(denying(filter, second), first), host, None, ips) is Allow,
        judged_in(world, denying(denying(filter, first), second), host, None, ips) is Allow
            <==> judged_in(world, denying(filter, first + second), host, None, ips) is Allow,
{
    law_denied_hosts_are_denied(world, matching, filter, first, host, ips);
    law_denied_hosts_are_denied(world, matching, filter, second, host, ips);
    law_denied_hosts_are_denied(world, matching, denying(filter, first), second, host, ips);
    law_denied_hosts_are_denied(world, matching, denying(filter, second), first, host, ips);
    law_denied_hosts_add_up(filter, first, second);
}

/// A strict filter without allowed hosts denies every host, with its port and
/// without, and without a lookup.
pub proof fn law_strict_without_hosts_denies_all(
    world: HostWorld,
    filter: FilterView,
    host: Seq<char>,
    port: u16,
    ips: Seq<IpAddr>,
)
    requires
        world.honours_strictness(),
        filter.allowed == AllowlistView::Strict(Seq::empty()),
    ensures
        !(judged_in(world, filter, host, None, ips) is Allow),
        !(ruled(world, filter, host, Some(port), ips) is Allow),
        !(checked_in(world, filter, host, port).result is Allow),
        checked_in(world, filter, host, port).resolved_addrs.len() == 0,
        forall|addresses: spec_fn(Seq<char>) -> Option<Seq<SocketAddr>>|
            checked_in(world, filter, host, port) == #[trigger] checked_in(
                HostWorld { addresses, ..world },
                filter,
                host,
                port,
            ),
{
    assert(!world.allows(filter, host, ips));
    assert(!world.allows(filter, with_port(host, port), ips));
    assert(!world.allows(filter, host, Seq::empty()));
    assert(!world.allows(filter, with_port(host, port), Seq::empty()));
    law_refused_by_rules(world, filter, host, port);
}

/// A filter for all hosts allows exactly those that are no name and no address of
/// a metadata service, and that have neither a link-local address nor one of a
/// metadata service.
pub proof fn law_allow_all_except_metadata(
    world: HostWorld,
    metadata_name: spec_fn(Seq<char>) -> bool,
    host: Seq<char>,
    ips: Seq<IpAddr>,
)
    requires
        world.honours_allow_all(metadata_name),
    ensures
        judged_in(world, allowing_all(), host, None, ips) is Allow <==> !metadata_name(host)
            && !any_link_local(ips) && !is_metadata(world, host, ips),
{
    assert(world.allows(allowing_all(), host, ips) == (!metadata_name(host) && !any_link_local(
        ips,
    )));
}

} // verus!
