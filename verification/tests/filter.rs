use sandbox_policy::filter::{
    host_port, proxy_metadata_filter_result, Allowlist, CheckResult, Checked, FilterResult,
    HostAnswer, HostCheck, HostQuestion, IpAddr, Judged, Judging, ProxyFilter, SocketAddr,
};

const AWS_METADATA: IpAddr = IpAddr::V6([0xfd00, 0x0ec2, 0, 0, 0, 0, 0, 0x0254]);

/// Whether a host is an address, and then whether it is that of the metadata
/// service.
fn literal(host: &str) -> Option<bool> {
    let bare = host.trim_start_matches('[').trim_end_matches(']');
    match bare {
        "fd00:ec2::254" | "fd00:0ec2::254" | "fd00:ec2:0:0:0:0:0:254" => Some(true),
        "fd00::1" | "10.0.0.1" => Some(false),
        _ => None,
    }
}

fn matches_entry(entry: &str, host: &str) -> bool {
    match entry.strip_prefix('*') {
        Some(suffix) => host.len() > suffix.len() && host.ends_with(suffix),
        None => entry == host,
    }
}

/// Rules to ask: denied hosts first, then link-local addresses, then the
/// allowlist.
fn rules(filter: &ProxyFilter, host: &str, ips: &[IpAddr]) -> FilterResult {
    if host == "metadata.google.internal"
        || filter.denied_hosts().iter().any(|entry| matches_entry(entry, host))
    {
        return FilterResult::DenyHost { host: host.to_string() };
    }
    for ip in ips {
        if matches!(ip, IpAddr::V4([169, 254, _, _])) {
            return FilterResult::DenyLinkLocal { ip: *ip };
        }
    }
    let allowed = match filter.allowlist() {
        Allowlist::All => true,
        Allowlist::Listed(hosts) => {
            hosts.is_empty() || hosts.iter().any(|entry| matches_entry(entry, host))
        }
        Allowlist::Strict(hosts) => hosts.iter().any(|entry| matches_entry(entry, host)),
    };
    if allowed {
        FilterResult::Allow
    } else {
        FilterResult::DenyNotAllowed { host: host.to_string() }
    }
}

fn reply(filter: &ProxyFilter, question: HostQuestion) -> HostAnswer {
    match question {
        HostQuestion::Metadata { host, ips } => HostAnswer::Metadata {
            literal: literal(&host),
            resolved: ips.iter().map(|ip| *ip == AWS_METADATA).collect(),
        },
        HostQuestion::Rules { host, ips } => HostAnswer::Rules(rules(filter, &host, &ips)),
        HostQuestion::Lookup { address } => panic!("lookup of {address}"),
    }
}

fn judge(start: Judging<'_>) -> FilterResult {
    let mut state = start;
    loop {
        let answer = reply(state.filter(), state.question());
        match state.answer(answer) {
            Judged::Pending(next) => state = next,
            Judged::Done(result) => return result,
        }
    }
}

/// Runs a check on a name service that knows one address, and counts lookups.
fn check(start: HostCheck<'_>, known: &[(&str, Vec<SocketAddr>)]) -> (CheckResult, usize) {
    let mut state = start;
    let mut lookups: usize = 0;
    loop {
        let answer = match state.question() {
            HostQuestion::Lookup { address } => {
                lookups += 1;
                HostAnswer::Addresses(
                    known
                        .iter()
                        .find(|(name, _)| *name == address)
                        .map(|(_, addrs)| addrs.clone()),
                )
            }
            question => reply(state.filter(), question),
        };
        match state.answer(answer) {
            Checked::Pending(next) => state = next,
            Checked::Done(result) => return (result, lookups),
        }
    }
}

fn hosts(list: &[&str]) -> Vec<String> {
    list.iter().map(|host| host.to_string()).collect()
}

fn addr(ip: IpAddr, port: u16) -> SocketAddr {
    SocketAddr { ip, port, flowinfo: 0, scope_id: 0 }
}

#[test]
fn test_proxy_filter_delegates_to_host_filter() {
    let filter = ProxyFilter::new(&["api.openai.com".to_string()]);
    let public_ip = vec![IpAddr::V4([104, 18, 7, 96])];

    let result = judge(filter.check_host_with_ips("api.openai.com", &public_ip));
    assert!(result.is_allowed());

    let result = judge(filter.check_host_with_ips("evil.com", &public_ip));
    assert!(!result.is_allowed());
}

#[test]
fn test_proxy_filter_allows_host_port_entries() {
    let filter = ProxyFilter::new(&["platform.example.com:443".to_string()]);
    let public_ip = vec![IpAddr::V4([160, 79, 104, 10])];

    let result = judge(filter.check_host_result("platform.example.com", 443, &public_ip));
    assert!(result.is_allowed());

    let result = judge(filter.check_host_result("platform.example.com", 8443, &public_ip));
    assert!(!result.is_allowed());
}

#[test]
fn test_proxy_filter_host_port_entries_do_not_override_metadata_deny() {
    let filter = ProxyFilter::new(&["metadata.google.internal:443".to_string()]);
    let public_ip = vec![IpAddr::V4([104, 18, 7, 96])];

    let result = judge(filter.check_host_result("metadata.google.internal", 443, &public_ip));
    assert!(!result.is_allowed());
    assert!(matches!(result, FilterResult::DenyHost { .. }));
}

#[test]
fn test_proxy_filter_with_denied_hosts() {
    let filter = ProxyFilter::allow_all().with_denied_hosts(&["evil.com".to_string()]);
    let public_ip = vec![IpAddr::V4([104, 18, 7, 96])];

    let result = judge(filter.check_host_with_ips("evil.com", &public_ip));
    assert!(!result.is_allowed());

    let result = judge(filter.check_host_with_ips("good.com", &public_ip));
    assert!(result.is_allowed());
}

#[test]
fn test_proxy_filter_with_denied_hosts_wildcard() {
    let filter = ProxyFilter::allow_all().with_denied_hosts(&["*.ads.example.com".to_string()]);
    let public_ip = vec![IpAddr::V4([104, 18, 7, 96])];

    let result = judge(filter.check_host_with_ips("tracker.ads.example.com", &public_ip));
    assert!(!result.is_allowed());

    // bare domain must NOT match wildcard
    let result = judge(filter.check_host_with_ips("ads.example.com", &public_ip));
    assert!(result.is_allowed());
}

#[test]
fn test_proxy_filter_allow_all() {
    let filter = ProxyFilter::allow_all();
    let public_ip = vec![IpAddr::V4([104, 18, 7, 96])];
    let result = judge(filter.check_host_with_ips("anything.com", &public_ip));
    assert!(result.is_allowed());
}

#[test]
fn test_proxy_filter_allows_private_networks() {
    let filter = ProxyFilter::allow_all();
    let private_ip = vec![IpAddr::V4([10, 0, 0, 1])];
    let result = judge(filter.check_host_with_ips("corp.internal", &private_ip));
    assert!(result.is_allowed());
}

#[test]
fn test_proxy_filter_denies_link_local() {
    let filter = ProxyFilter::allow_all();
    let link_local = vec![IpAddr::V4([169, 254, 169, 254])];
    let result = judge(filter.check_host_with_ips("evil.com", &link_local));
    assert!(!result.is_allowed());
}

#[test]
fn test_proxy_filter_denies_aws_ipv6_metadata_literals() {
    let filter = ProxyFilter::allow_all();
    for host in [
        "fd00:ec2::254",
        "fd00:0ec2::254",
        "fd00:ec2:0:0:0:0:0:254",
        "[fd00:ec2::254]",
    ] {
        let result = judge(filter.check_host_with_ips(host, &[]));
        assert!(
            !result.is_allowed(),
            "AWS IPv6 metadata literal {host:?} must be denied"
        );
    }
}

#[test]
fn test_pre_resolution_check_denies_disallowed_host_without_ips() {
    let filter = ProxyFilter::new(&["api.openai.com".to_string()]);
    let result = judge(filter.check_host_result("evil.com", 443, &[]));
    assert!(!result.is_allowed());
    assert!(matches!(result, FilterResult::DenyNotAllowed { .. }));
}

#[test]
fn test_pre_resolution_check_allows_allowed_host_without_ips() {
    let filter = ProxyFilter::new(&["api.openai.com".to_string()]);
    let result = judge(filter.check_host_result("api.openai.com", 443, &[]));
    assert!(result.is_allowed());
}

#[test]
fn test_pre_resolution_check_host_port_fallback_without_ips() {
    let filter = ProxyFilter::new(&["platform.example.com:443".to_string()]);
    let result = judge(filter.check_host_result("platform.example.com", 443, &[]));
    assert!(result.is_allowed());

    let result = judge(filter.check_host_result("platform.example.com", 8443, &[]));
    assert!(!result.is_allowed());
}

#[test]
fn test_check_host_denies_disallowed_host_without_dns_resolution() {
    let filter = ProxyFilter::new(&["api.openai.com".to_string()]);
    let (result, lookups) = check(
        filter.check_host("data-exfiltration-secret.example.invalid", 443),
        &[],
    );
    assert!(!result.result.is_allowed());
    assert!(matches!(result.result, FilterResult::DenyNotAllowed { .. }));
    assert!(result.resolved_addrs.is_empty());
    assert_eq!(lookups, 0);
}

#[test]
fn test_proxy_filter_denies_resolved_aws_ipv6_metadata_ip() {
    let filter = ProxyFilter::allow_all();
    let resolved = vec![IpAddr::V6([0xfd00, 0x0ec2, 0, 0, 0, 0, 0, 0x0254])];
    let result = judge(filter.check_host_with_ips("allowed.example", &resolved));
    assert!(!result.is_allowed());
}

#[test]
fn allowed_host_gets_the_addresses_of_the_one_lookup() {
    let filter = ProxyFilter::new(&hosts(&["good.com"]));
    let addrs = vec![
        addr(IpAddr::V4([104, 18, 7, 96]), 443),
        SocketAddr {
            ip: IpAddr::V6([0x2606, 0, 0, 0, 0, 0, 0, 1]),
            port: 443,
            flowinfo: 7,
            scope_id: 9,
        },
    ];
    let (result, lookups) = check(
        filter.check_host("good.com", 443),
        &[("good.com:443", addrs.clone())],
    );
    assert!(result.result.is_allowed());
    assert_eq!(result.resolved_addrs, addrs);
    assert_eq!(lookups, 1);
}

#[test]
fn failed_lookup_leaves_no_addresses() {
    let filter = ProxyFilter::allow_all();
    let (result, lookups) = check(filter.check_host("gone.com", 80), &[]);
    assert!(result.result.is_allowed());
    assert!(result.resolved_addrs.is_empty());
    assert_eq!(lookups, 1);
}

#[test]
fn metadata_address_behind_an_allowed_name_is_denied() {
    let filter = ProxyFilter::new(&hosts(&["rebind.com"]));
    let addrs = vec![addr(IpAddr::V4([104, 18, 7, 96]), 80), addr(AWS_METADATA, 80)];
    let (result, lookups) = check(
        filter.check_host("rebind.com", 80),
        &[("rebind.com:80", addrs)],
    );
    assert!(matches!(result.result, FilterResult::DenyHost { host } if host == "rebind.com"));
    assert!(result.resolved_addrs.is_empty());
    assert_eq!(lookups, 1);
}

#[test]
fn link_local_address_behind_an_allowed_name_is_denied() {
    let filter = ProxyFilter::allow_all();
    let ip = IpAddr::V4([169, 254, 1, 1]);
    let (result, _) = check(
        filter.check_host("rebind.com", 80),
        &[("rebind.com:80", vec![addr(ip, 80)])],
    );
    assert!(matches!(result.result, FilterResult::DenyLinkLocal { ip: denied } if denied == ip));
    assert!(result.resolved_addrs.is_empty());
}

#[test]
fn strict_filter_without_hosts_denies_every_host() {
    let filter = ProxyFilter::new_strict(&[]);
    let (result, lookups) = check(filter.check_host("good.com", 443), &[]);
    assert!(matches!(
        result.result,
        FilterResult::DenyNotAllowed { host } if host == "good.com:443"
    ));
    assert_eq!(lookups, 0);
}

#[test]
fn known_addresses_are_checked_without_the_port() {
    let filter = ProxyFilter::new(&hosts(&["good.com:443"]));
    let result = judge(filter.check_host_with_ips("good.com", &[]));
    assert!(matches!(
        result,
        FilterResult::DenyNotAllowed { host } if host == "good.com"
    ));
}

#[test]
fn rules_are_kept_in_order() {
    let filter = ProxyFilter::new(&hosts(&["a", "b"]))
        .with_denied_hosts(&hosts(&["x"]))
        .with_denied_hosts(&[])
        .with_denied_hosts(&hosts(&["y", "x"]));
    assert_eq!(filter.allowed_count(), 2);
    assert!(matches!(filter.allowlist(), Allowlist::Listed(list) if list == &["a", "b"]));
    assert_eq!(filter.denied_hosts(), &["x", "y", "x"]);
    let strict = ProxyFilter::new_strict(&hosts(&["a"]));
    assert_eq!(strict.allowed_count(), 1);
    assert!(matches!(strict.allowlist(), Allowlist::Strict(list) if list == &["a"]));
    assert_eq!(ProxyFilter::allow_all().allowed_count(), 0);
    assert!(matches!(ProxyFilter::allow_all().allowlist(), Allowlist::All));
    assert_eq!(filter.clone().denied_hosts(), filter.denied_hosts());
}

#[test]
fn any_metadata_address_denies() {
    let denied = proxy_metadata_filter_result("h", None, &[false, true, false]);
    assert!(matches!(denied, Some(FilterResult::DenyHost { host }) if host == "h"));
    assert!(proxy_metadata_filter_result("h", Some(true), &[]).is_some());
    assert!(proxy_metadata_filter_result("h", Some(false), &[false]).is_none());
    assert!(proxy_metadata_filter_result("h", None, &[]).is_none());
}

#[test]
fn ports_are_written_in_decimal() {
    for port in [0u16, 7, 10, 80, 443, 8443, 10000, 65535] {
        assert_eq!(host_port("h", port), format!("h:{port}"));
    }
}

#[test]
fn answers_to_other_questions_leave_a_check_waiting() {
    let filter = ProxyFilter::allow_all();
    let state = filter.check_host("good.com", 80);
    let Checked::Pending(state) = state.answer(HostAnswer::Rules(FilterResult::Allow)) else {
        panic!("metadata comes first");
    };
    let Checked::Pending(state) = state.answer(HostAnswer::Addresses(None)) else {
        panic!("metadata comes first");
    };
    assert!(matches!(
        state.question(),
        HostQuestion::Metadata { host, ips } if host == "good.com" && ips.is_empty()
    ));
}

#[test]
fn each_address_has_to_be_judged() {
    let filter = ProxyFilter::allow_all();
    let ips = vec![IpAddr::V4([104, 18, 7, 96]), AWS_METADATA];
    let mut state = filter.check_host_with_ips("good.com", &ips);
    for marks in [vec![], vec![false], vec![false, false, false]] {
        let answer = HostAnswer::Metadata { literal: None, resolved: marks };
        let Judged::Pending(next) = state.answer(answer) else {
            panic!("two addresses were asked about");
        };
        assert!(matches!(next.question(), HostQuestion::Metadata { ips, .. } if ips.len() == 2));
        state = next;
    }
    let answer = HostAnswer::Metadata { literal: None, resolved: vec![false, true] };
    assert!(matches!(
        state.answer(answer),
        Judged::Done(FilterResult::DenyHost { host }) if host == "good.com"
    ));
}

#[test]
fn order_of_deny_entries_does_not_matter() {
    let one = hosts(&["evil.com"]);
    let two = hosts(&["*.ads.com"]);
    let filters = [
        ProxyFilter::allow_all().with_denied_hosts(&one).with_denied_hosts(&two),
        ProxyFilter::allow_all().with_denied_hosts(&two).with_denied_hosts(&one),
        ProxyFilter::allow_all().with_denied_hosts(&hosts(&["evil.com", "*.ads.com"])),
    ];
    for filter in &filters {
        assert!(!judge(filter.check_host_with_ips("evil.com", &[])).is_allowed());
        assert!(!judge(filter.check_host_with_ips("x.ads.com", &[])).is_allowed());
        assert!(judge(filter.check_host_with_ips("ads.com", &[])).is_allowed());
    }
}
