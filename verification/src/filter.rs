//! Host filtering for a proxy.
//!
//! A host is held against the rules of the filter before its name is resolved,
//! because a lookup alone already tells the name to the nameserver of its
//! domain. The addresses that it resolves to are then held against the ranges of
//! cloud metadata services, and only those addresses may be connected to.
//!
//! The rules, the metadata ranges and the lookup are answers from outside. A
//! [`HostCheck`] is the state between two such [`HostQuestion`]s; each
//! [`HostAnswer`] takes it to the next one or to the result.
use crate::text;
use crate::text::{all_chars, decimal, is_numeral, law_decimal_is_the_numeral, number};
use vstd::prelude::*;

verus! {

/// An IP address, as bytes or as groups of 16 bits.
#[derive(Debug, Clone, Copy, PartialEq, Eq)]
pub enum IpAddr {
    V4([u8; 4]),
    V6([u16; 8]),
}

/// An address that can be connected to.
#[derive(Debug, Clone, Copy, PartialEq, Eq)]
pub struct SocketAddr {
    pub ip: IpAddr,
    pub port: u16,
    /// The flow of an IPv6 address.
    pub flowinfo: u32,
    /// The scope of an IPv6 address.
    pub scope_id: u32,
}

/// What a filter says of a host.
#[derive(Debug)]
pub enum FilterResult {
    Allow,
    /// The host is denied by name.
    DenyHost { host: String },
    /// The host is not on the allowlist.
    DenyNotAllowed { host: String },
    /// The host resolves to a link-local address.
    DenyLinkLocal { ip: IpAddr },
}

/// The contents of a `FilterResult`.
pub enum VerdictView {
    Allow,
    DenyHost { host: Seq<char> },
    DenyNotAllowed { host: Seq<char> },
    DenyLinkLocal { ip: IpAddr },
}

impl View for FilterResult {
    type V = VerdictView;

    open spec fn view(&self) -> VerdictView {
        match self {
            FilterResult::Allow => VerdictView::Allow,
            FilterResult::DenyHost { host } => VerdictView::DenyHost { host: host@ },
            FilterResult::DenyNotAllowed { host } => VerdictView::DenyNotAllowed { host: host@ },
            FilterResult::DenyLinkLocal { ip } => VerdictView::DenyLinkLocal { ip: *ip },
        }
    }
}

impl FilterResult {
    /// Whether the host may be connected to.
    pub fn is_allowed(&self) -> (yes: bool)
        ensures
            yes == (self@ is Allow),
    {
        match self {
            FilterResult::Allow => true,
            _ => false,
        }
    }
}

/// Result of a check, with the addresses that the host resolved to.
///
/// Callers must connect to these addresses and not resolve the name again.
#[derive(Debug)]
pub struct CheckResult {
    /// What the filter says.
    pub result: FilterResult,
    /// The addresses; none where the host is denied or does not resolve.
    pub resolved_addrs: Vec<SocketAddr>,
}

/// The contents of a `CheckResult`.
#[verifier::ext_equal]
pub struct CheckView {
    pub result: VerdictView,
    pub resolved_addrs: Seq<SocketAddr>,
}

impl View for CheckResult {
    type V = CheckView;

    open spec fn view(&self) -> CheckView {
        CheckView { result: self.result@, resolved_addrs: self.resolved_addrs@ }
    }
}

/// Which hosts are allowed.
#[derive(Debug, Clone)]
pub enum Allowlist {
    /// The listed hosts.
    Listed(Vec<String>),
    /// The listed hosts; none where the list is empty.
    Strict(Vec<String>),
    /// Every host.
    All,
}

/// The contents of an `Allowlist`.
pub enum AllowlistView {
    Listed(Seq<Seq<char>>),
    Strict(Seq<Seq<char>>),
    All,
}

impl View for Allowlist {
    type V = AllowlistView;

    open spec fn view(&self) -> AllowlistView {
        match self {
            Allowlist::Listed(hosts) => AllowlistView::Listed(all_chars(hosts@)),
            Allowlist::Strict(hosts) => AllowlistView::Strict(all_chars(hosts@)),
            Allowlist::All => AllowlistView::All,
        }
    }
}

/// The rules that hosts are held against.
#[derive(Debug, Clone)]
pub struct ProxyFilter {
    allowed: Allowlist,
    denied: Vec<String>,
}

/// The contents of a `ProxyFilter`.
pub struct FilterView {
    pub allowed: AllowlistView,
    /// Denied before the allowlist is looked at.
    pub denied: Seq<Seq<char>>,
}

impl View for ProxyFilter {
    type V = FilterView;

    closed spec fn view(&self) -> FilterView {
        FilterView { allowed: self.allowed@, denied: all_chars(self.denied@) }
    }
}

/// How many hosts an allowlist names.
pub open spec fn named_hosts(allowed: AllowlistView) -> nat {
    match allowed {
        AllowlistView::Listed(hosts) => hosts.len(),
        AllowlistView::Strict(hosts) => hosts.len(),
        AllowlistView::All => 0,
    }
}

fn allowing(allowed: Allowlist) -> (filter: ProxyFilter)
    ensures
        filter@ == (FilterView { allowed: allowed@, denied: Seq::empty() }),
{
    let filter = ProxyFilter { allowed, denied: Vec::new() };
    assert(all_chars(filter.denied@) =~= Seq::<Seq<char>>::empty());
    filter
}

impl ProxyFilter {
    /// Creates a filter with the given allowed hosts.
    #[must_use]
    pub fn new(allowed_hosts: &[String]) -> (filter: Self)
        ensures
            filter@ == (FilterView {
                allowed: AllowlistView::Listed(all_chars(allowed_hosts@)),
                denied: Seq::empty(),
            }),
    {
        allowing(Allowlist::Listed(text::copy_list(allowed_hosts)))
    }

    /// Creates a strict filter: an empty allowlist denies every host.
    #[must_use]
    pub fn new_strict(allowed_hosts: &[String]) -> (filter: Self)
        ensures
            filter@ == (FilterView {
                allowed: AllowlistView::Strict(all_chars(allowed_hosts@)),
                denied: Seq::empty(),
            }),
    {
        allowing(Allowlist::Strict(text::copy_list(allowed_hosts)))
    }

    /// Creates a filter that allows all hosts (except cloud metadata).
    #[must_use]
    pub fn allow_all() -> (filter: Self)
        ensures
            filter@ == (FilterView { allowed: AllowlistView::All, denied: Seq::empty() }),
    {
        allowing(Allowlist::All)
    }

    /// Appends deny entries. They are evaluated before the allowlist, and have
    /// its wildcard syntax (`*.example.com`).
    #[must_use]
    pub fn with_denied_hosts(self, denied: &[String]) -> (filter: Self)
        ensures
            filter@ == (FilterView { denied: self@.denied + all_chars(denied@), ..self@ }),
    {
        if denied.len() == 0 {
            assert(self@.denied + all_chars(denied@) =~= self@.denied);
            return self;
        }
        let mut filter: ProxyFilter = self;
        text::append_list(&mut filter.denied, denied);
        filter
    }

    /// The allowed hosts.
    pub fn allowlist(&self) -> (allowed: &Allowlist)
        ensures
            allowed@ == self@.allowed,
    {
        &self.allowed
    }

    /// The denied hosts.
    pub fn denied_hosts(&self) -> (denied: &Vec<String>)
        ensures
            all_chars(denied@) == self@.denied,
    {
        &self.denied
    }

    /// Number of allowed hosts configured.
    #[must_use]
    pub fn allowed_count(&self) -> (count: usize)
        ensures
            count == named_hosts(self@.allowed),
    {
        match &self.allowed {
            Allowlist::Listed(hosts) => hosts.len(),
            Allowlist::Strict(hosts) => hosts.len(),
            Allowlist::All => 0,
        }
    }
}

/// `host` and `port`, as one host of the rules or as the address to look up.
pub open spec fn with_port(host: Seq<char>, port: u16) -> Seq<char> {
    host + ":"@ + decimal(port as nat)
}

/// Writes a host with its port.
pub fn host_port(host: &str, port: u16) -> (address: String)
    ensures
        address@ == with_port(host@, port),
        address@.len() > host@.len() + 1,
        address@.take(host@.len() as int) == host@,
        address@[host@.len() as int] == ':',
        is_numeral(address@.skip(host@.len() as int + 1)),
        number(address@.skip(host@.len() as int + 1)) == port,
{
    proof {
        let text = with_port(host@, port);
        reveal_strlit(":");
        law_decimal_is_the_numeral(port as nat);
        assert(text.take(host@.len() as int) =~= host@);
        assert(text.skip(host@.len() as int + 1) =~= decimal(port as nat));
    }
    host.to_owned().concat(":").concat(text::to_decimal(port).as_str())
}

/// Whether a host is denied for what its addresses are: it is itself an address
/// of a metadata service, or it resolves to one.
pub open spec fn metadata_denied(literal: Option<bool>, resolved: Seq<bool>) -> bool {
    literal == Some(true) || resolved.contains(true)
}

/// Denies a host whose addresses are those of a metadata service.
///
/// `literal` says of a host that is an IP address whether that one is denied,
/// and `resolved` says it of the addresses that the host resolves to.
pub fn proxy_metadata_filter_result(
    host: &str,
    literal: Option<bool>,
    resolved: &[bool],
) -> (result: Option<FilterResult>)
    ensures
        match result {
            Some(result) => metadata_denied(literal, resolved@) && result@
                == (VerdictView::DenyHost { host: host@ }),
            None => !metadata_denied(literal, resolved@),
        },
        result is Some <==> literal == Some(true) || exists|i: int|
            0 <= i < resolved@.len() && #[trigger] resolved@[i],
{
    let mut denied: bool = match literal {
        Some(denied) => denied,
        None => false,
    };
    let mut i: usize = 0;
    while i < resolved.len()
        invariant
            i <= resolved@.len(),
            denied == (literal == Some(true) || resolved@.take(i as int).contains(true)),
        decreases resolved@.len() - i,
    {
        let ghost here = resolved@.take(i as int);
        let ghost next = resolved@.take(i + 1);
        proof {
            assert(next =~= here.push(resolved@[i as int]));
            if here.contains(true) {
                let at = choose|at: int| 0 <= at < here.len() && here[at];
                assert(next[at]);
            }
            if next.contains(true) && !resolved@[i as int] {
                let at = choose|at: int| 0 <= at < next.len() && next[at];
                assert(here[at]);
            }
            assert(next[i as int] == resolved@[i as int]);
        }
        denied = denied || resolved[i];
        i += 1;
    }
    assert(resolved@.take(i as int) =~= resolved@);
    proof {
        if exists|at: int| 0 <= at < resolved@.len() && #[trigger] resolved@[at] {
            let at = choose|at: int| 0 <= at < resolved@.len() && #[trigger] resolved@[at];
            assert(resolved@.contains(resolved@[at]));
        }
    }
    if denied {
        Some(FilterResult::DenyHost { host: host.to_owned() })
    } else {
        None
    }
}

/// What has to be found out before a host can be judged.
#[derive(Debug)]
pub enum HostQuestion {
    /// Is the host an address of a metadata service, or are these such addresses?
    Metadata { host: String, ips: Vec<IpAddr> },
    /// What do the rules of the filter say of a host with these addresses?
    Rules { host: String, ips: Vec<IpAddr> },
    /// What does this name, with its port, resolve to?
    Lookup { address: String },
}

/// The contents of a `HostQuestion`.
pub enum HostQuestionView {
    Metadata { host: Seq<char>, ips: Seq<IpAddr> },
    Rules { host: Seq<char>, ips: Seq<IpAddr> },
    Lookup { address: Seq<char> },
}

impl View for HostQuestion {
    type V = HostQuestionView;

    open spec fn view(&self) -> HostQuestionView {
        match self {
            HostQuestion::Metadata { host, ips } => HostQuestionView::Metadata {
                host: host@,
                ips: ips@,
            },
            HostQuestion::Rules { host, ips } => HostQuestionView::Rules { host: host@, ips: ips@ },
            HostQuestion::Lookup { address } => HostQuestionView::Lookup { address: address@ },
        }
    }
}

/// The answer to a `HostQuestion`.
#[derive(Debug)]
pub enum HostAnswer {
    /// For a host that is an address, whether it is one of a metadata service;
    /// and the same of each address that was asked about, in order.
    Metadata { literal: Option<bool>, resolved: Vec<bool> },
    /// What the rules say.
    Rules(FilterResult),
    /// The addresses, where the lookup succeeds.
    Addresses(Option<Vec<SocketAddr>>),
}

/// The contents of a `HostAnswer`.
pub enum HostAnswerView {
    Metadata { literal: Option<bool>, resolved: Seq<bool> },
    Rules(VerdictView),
    Addresses(Option<Seq<SocketAddr>>),
}

impl View for HostAnswer {
    type V = HostAnswerView;

    open spec fn view(&self) -> HostAnswerView {
        match self {
            HostAnswer::Metadata { literal, resolved } => HostAnswerView::Metadata {
                literal: *literal,
                resolved: resolved@,
            },
            HostAnswer::Rules(result) => HostAnswerView::Rules(result@),
            HostAnswer::Addresses(Some(addrs)) => HostAnswerView::Addresses(Some(addrs@)),
            HostAnswer::Addresses(None) => HostAnswerView::Addresses(None),
        }
    }
}

/// What a judgement waits for.
#[derive(Debug, Clone, Copy, PartialEq, Eq, Structural)]
pub enum JudgingStage {
    /// Whether metadata addresses are involved.
    Metadata,
    /// What the rules say of the host.
    Rules,
    /// What the rules say of the host with its port.
    PortRules,
}

/// The contents of a `Judging`.
#[verifier::ext_equal]
pub struct JudgingView {
    pub filter: FilterView,
    pub host: Seq<char>,
    pub port: Option<u16>,
    pub ips: Seq<IpAddr>,
    pub stage: JudgingStage,
}

/// The contents of a `Judged`.
pub enum JudgedView {
    Pending(JudgingView),
    Done(VerdictView),
}

impl JudgingView {
    /// The question that is waited for.
    pub open spec fn question(self) -> HostQuestionView {
        match self.stage {
            JudgingStage::Metadata => HostQuestionView::Metadata { host: self.host, ips: self.ips },
            JudgingStage::Rules => HostQuestionView::Rules { host: self.host, ips: self.ips },
            JudgingStage::PortRules => HostQuestionView::Rules {
                host: with_port(self.host, self.port->Some_0),
                ips: self.ips,
            },
        }
    }

    /// What an answer leads to. The rules get to see the port only where they
    /// have nothing to say of the host alone. An answer to some other question
    /// leads nowhere, and so does one that does not judge each of the addresses.
    pub open spec fn next(self, answer: HostAnswerView) -> JudgedView {
        match (self.stage, answer) {
            (JudgingStage::Metadata, HostAnswerView::Metadata { literal, resolved }) => {
                if resolved.len() != self.ips.len() {
                    JudgedView::Pending(self)
                } else if metadata_denied(literal, resolved) {
                    JudgedView::Done(VerdictView::DenyHost { host: self.host })
                } else {
                    JudgedView::Pending(JudgingView { stage: JudgingStage::Rules, ..self })
                }
            },
            (JudgingStage::Rules, HostAnswerView::Rules(verdict)) => {
                if verdict is DenyNotAllowed && self.port is Some {
                    JudgedView::Pending(JudgingView { stage: JudgingStage::PortRules, ..self })
                } else {
                    JudgedView::Done(verdict)
                }
            },
            (JudgingStage::PortRules, HostAnswerView::Rules(verdict)) => JudgedView::Done(verdict),
            _ => JudgedView::Pending(self),
        }
    }
}

/// A host with known addresses on its way to a verdict, waiting for the answer
/// to its question.
#[derive(Debug)]
pub struct Judging<'a> {
    filter: &'a ProxyFilter,
    host: String,
    port: Option<u16>,
    ips: Vec<IpAddr>,
    stage: JudgingStage,
}

/// A host that is judged, or that waits for an answer.
#[derive(Debug)]
pub enum Judged<'a> {
    Pending(Judging<'a>),
    Done(FilterResult),
}

impl<'a> View for Judging<'a> {
    type V = JudgingView;

    closed spec fn view(&self) -> JudgingView {
        JudgingView {
            filter: self.filter@,
            host: self.host@,
            port: self.port,
            ips: self.ips@,
            stage: self.stage,
        }
    }
}

impl<'a> View for Judged<'a> {
    type V = JudgedView;

    open spec fn view(&self) -> JudgedView {
        match self {
            Judged::Pending(judging) => JudgedView::Pending(judging@),
            Judged::Done(result) => JudgedView::Done(result@),
        }
    }
}

/// An owned copy of a list of addresses.
fn copy_ips(ips: &[IpAddr]) -> (copy: Vec<IpAddr>)
    ensures
        copy@ == ips@,
{
    let mut copy: Vec<IpAddr> = Vec::new();
    let mut i: usize = 0;
    while i < ips.len()
        invariant
            i <= ips@.len(),
            copy@ == ips@.take(i as int),
        decreases ips@.len() - i,
    {
        copy.push(ips[i]);
        i += 1;
        assert(copy@ =~= ips@.take(i as int));
    }
    assert(ips@.take(i as int) =~= ips@);
    copy
}

impl<'a> Judging<'a> {
    #[verifier::type_invariant]
    closed spec fn inv(self) -> bool {
        self.stage == JudgingStage::PortRules ==> self.port is Some
    }

    /// The filter whose rules are asked.
    pub fn filter(&self) -> (filter: &'a ProxyFilter)
        ensures
            filter@ == self@.filter,
    {
        self.filter
    }

    /// What has to be found out next.
    pub fn question(&self) -> (question: HostQuestion)
        ensures
            question@ == self@.question(),
    {
        proof {
            use_type_invariant(self);
        }
        let ips: Vec<IpAddr> = copy_ips(self.ips.as_slice());
        match (self.stage, self.port) {
            (JudgingStage::Metadata, _) => HostQuestion::Metadata { host: self.host.clone(), ips },
            (JudgingStage::PortRules, Some(port)) => HostQuestion::Rules {
                host: host_port(self.host.as_str(), port),
                ips,
            },
            _ => HostQuestion::Rules { host: self.host.clone(), ips },
        }
    }

    /// Takes the answer to the question and goes on to the next one, or to the
    /// verdict. An answer to some other question changes nothing, and neither does
    /// one on another number of addresses.
    pub fn answer(self, answer: HostAnswer) -> (judged: Judged<'a>)
        ensures
            judged@ == self@.next(answer@),
    {
        proof {
            use_type_invariant(&self);
        }
        let Judging { filter, host, port, ips, stage } = self;
        match (stage, answer) {
            (JudgingStage::Metadata, HostAnswer::Metadata { literal, resolved }) => {
                if resolved.len() != ips.len() {
                    return Judged::Pending(Judging { filter, host, port, ips, stage });
                }
                match proxy_metadata_filter_result(host.as_str(), literal, resolved.as_slice()) {
                    Some(result) => Judged::Done(result),
                    None => Judged::Pending(
                        Judging { filter, host, port, ips, stage: JudgingStage::Rules },
                    ),
                }
            },
            (JudgingStage::Rules, HostAnswer::Rules(result)) => match (&result, port) {
                (FilterResult::DenyNotAllowed { host: _ }, Some(_)) => Judged::Pending(
                    Judging { filter, host, port, ips, stage: JudgingStage::PortRules },
                ),
                _ => Judged::Done(result),
            },
            (JudgingStage::PortRules, HostAnswer::Rules(result)) => Judged::Done(result),
            (stage, _) => Judged::Pending(Judging { filter, host, port, ips, stage }),
        }
    }
}

/// The IP addresses of `addrs`.
pub open spec fn ips_of(addrs: Seq<SocketAddr>) -> Seq<IpAddr> {
    Seq::new(addrs.len(), |i: int| addrs[i].ip)
}

fn collect_ips(addrs: &Vec<SocketAddr>) -> (ips: Vec<IpAddr>)
    ensures
        ips@ == ips_of(addrs@),
        ips@.len() == addrs@.len(),
        forall|i: int| 0 <= i < addrs@.len() ==> #[trigger] ips@[i] == addrs@[i].ip,
{
    let mut ips: Vec<IpAddr> = Vec::new();
    let mut i: usize = 0;
    while i < addrs.len()
        invariant
            i <= addrs@.len(),
            ips@ == ips_of(addrs@.take(i as int)),
        decreases addrs@.len() - i,
    {
        ips.push(addrs[i].ip);
        i += 1;
        assert(ips@ =~= ips_of(addrs@.take(i as int)));
    }
    assert(addrs@.take(i as int) =~= addrs@);
    ips
}

/// What a check waits for.
#[verifier::ext_equal]
pub enum CheckStageView {
    /// The verdict on the host without addresses.
    Before(JudgingView),
    /// The addresses.
    Lookup,
    /// The verdict on the host with its addresses.
    After(JudgingView, Seq<SocketAddr>),
}

/// The contents of a `HostCheck`.
#[verifier::ext_equal]
pub struct HostCheckView {
    pub filter: FilterView,
    pub host: Seq<char>,
    pub port: u16,
    pub stage: CheckStageView,
}

/// The contents of a `Checked`.
pub enum CheckedView {
    Pending(HostCheckView),
    Done(CheckView),
}

/// Where the judgement of a host with known addresses starts.
pub open spec fn judging_start(
    filter: FilterView,
    host: Seq<char>,
    port: Option<u16>,
    ips: Seq<IpAddr>,
) -> JudgingView {
    JudgingView { filter, host, port, ips, stage: JudgingStage::Metadata }
}

/// Where a check starts: with the host alone.
pub open spec fn check_start(filter: FilterView, host: Seq<char>, port: u16) -> HostCheckView {
    HostCheckView {
        filter,
        host,
        port,
        stage: CheckStageView::Before(judging_start(filter, host, Some(port), Seq::empty())),
    }
}

impl HostCheckView {
    /// The question that is waited for.
    pub open spec fn question(self) -> HostQuestionView {
        match self.stage {
            CheckStageView::Before(judging) => judging.question(),
            CheckStageView::Lookup => HostQuestionView::Lookup {
                address: with_port(self.host, self.port),
            },
            CheckStageView::After(judging, resolved) => judging.question(),
        }
    }

    /// What an answer leads to. Only a host that is allowed without addresses is
    /// looked up, and only one that is still allowed with them gets to keep them.
    pub open spec fn next(self, answer: HostAnswerView) -> CheckedView {
        match self.stage {
            CheckStageView::Before(judging) => match judging.next(answer) {
                JudgedView::Pending(judging) => CheckedView::Pending(
                    HostCheckView { stage: CheckStageView::Before(judging), ..self },
                ),
                JudgedView::Done(result) => if result is Allow {
                    CheckedView::Pending(HostCheckView { stage: CheckStageView::Lookup, ..self })
                } else {
                    CheckedView::Done(CheckView { result, resolved_addrs: Seq::empty() })
                },
            },
            CheckStageView::Lookup => match answer {
                HostAnswerView::Addresses(addrs) => {
                    let resolved = match addrs {
                        Some(addrs) => addrs,
                        None => Seq::empty(),
                    };
                    CheckedView::Pending(
                        HostCheckView {
                            stage: CheckStageView::After(
                                judging_start(
                                    self.filter,
                                    self.host,
                                    Some(self.port),
                                    ips_of(resolved),
                                ),
                                resolved,
                            ),
                            ..self
                        },
                    )
                },
                _ => CheckedView::Pending(self),
            },
            CheckStageView::After(judging, resolved) => match judging.next(answer) {
                JudgedView::Pending(judging) => CheckedView::Pending(
                    HostCheckView { stage: CheckStageView::After(judging, resolved), ..self },
                ),
                JudgedView::Done(result) => CheckedView::Done(
                    CheckView {
                        result,
                        resolved_addrs: if result is Allow {
                            resolved
                        } else {
                            Seq::empty()
                        },
                    },
                ),
            },
        }
    }
}

/// What a check waits for.
#[derive(Debug)]
enum CheckStage<'a> {
    Before(Judging<'a>),
    Lookup,
    After(Judging<'a>, Vec<SocketAddr>),
}

/// A host on its way to a result, waiting for the answer to its question.
#[derive(Debug)]
pub struct HostCheck<'a> {
    filter: &'a ProxyFilter,
    host: String,
    port: u16,
    stage: CheckStage<'a>,
}

/// A host that is checked, or that waits for an answer.
#[derive(Debug)]
pub enum Checked<'a> {
    Pending(HostCheck<'a>),
    Done(CheckResult),
}

impl<'a> View for CheckStage<'a> {
    type V = CheckStageView;

    closed spec fn view(&self) -> CheckStageView {
        match self {
            CheckStage::Before(judging) => CheckStageView::Before(judging@),
            CheckStage::Lookup => CheckStageView::Lookup,
            CheckStage::After(judging, resolved) => CheckStageView::After(judging@, resolved@),
        }
    }
}

impl<'a> View for HostCheck<'a> {
    type V = HostCheckView;

    closed spec fn view(&self) -> HostCheckView {
        HostCheckView {
            filter: self.filter@,
            host: self.host@,
            port: self.port,
            stage: self.stage@,
        }
    }
}

impl<'a> View for Checked<'a> {
    type V = CheckedView;

    open spec fn view(&self) -> CheckedView {
        match self {
            Checked::Pending(check) => CheckedView::Pending(check@),
            Checked::Done(result) => CheckedView::Done(result@),
        }
    }
}

impl<'a> HostCheck<'a> {
    /// The filter whose rules are asked.
    pub fn filter(&self) -> (filter: &'a ProxyFilter)
        ensures
            filter@ == self@.filter,
    {
        self.filter
    }

    /// What has to be found out next.
    pub fn question(&self) -> (question: HostQuestion)
        ensures
            question@ == self@.question(),
    {
        match &self.stage {
            CheckStage::Before(judging) => judging.question(),
            CheckStage::Lookup => HostQuestion::Lookup {
                address: host_port(self.host.as_str(), self.port),
            },
            CheckStage::After(judging, _) => judging.question(),
        }
    }

    /// Takes the answer to the question and goes on to the next one, or to the
    /// result. An answer to some other question changes nothing.
    pub fn answer(self, answer: HostAnswer) -> (checked: Checked<'a>)
        ensures
            checked@ == self@.next(answer@),
    {
        let HostCheck { filter, host, port, stage } = self;
        match stage {
            CheckStage::Before(judging) => match judging.answer(answer) {
                Judged::Pending(judging) => Checked::Pending(
                    HostCheck { filter, host, port, stage: CheckStage::Before(judging) },
                ),
                Judged::Done(result) => {
                    if result.is_allowed() {
                        return Checked::Pending(
                            HostCheck { filter, host, port, stage: CheckStage::Lookup },
                        );
                    }
                    let none: Vec<SocketAddr> = Vec::new();
                    assert(none@ =~= Seq::<SocketAddr>::empty());
                    Checked::Done(CheckResult { result, resolved_addrs: none })
                },
            },
            CheckStage::Lookup => match answer {
                HostAnswer::Addresses(addrs) => {
                    let resolved: Vec<SocketAddr> = match addrs {
                        Some(addrs) => addrs,
                        None => Vec::new(),
                    };
                    let judging: Judging<'a> = Judging {
                        filter,
                        host: host.clone(),
                        port: Some(port),
                        ips: collect_ips(&resolved),
                        stage: JudgingStage::Metadata,
                    };
                    let stage: CheckStage<'a> = CheckStage::After(judging, resolved);
                    assert(answer@ matches HostAnswerView::Addresses(None) ==> resolved@ =~= Seq::<
                        SocketAddr,
                    >::empty());
                    Checked::Pending(HostCheck { filter, host, port, stage })
                },
                _ => Checked::Pending(HostCheck { filter, host, port, stage: CheckStage::Lookup }),
            },
            CheckStage::After(judging, resolved) => match judging.answer(answer) {
                Judged::Pending(judging) => Checked::Pending(
                    HostCheck { filter, host, port, stage: CheckStage::After(judging, resolved) },
                ),
                Judged::Done(result) => {
                    let resolved_addrs: Vec<SocketAddr> = if result.is_allowed() {
                        resolved
                    } else {
                        Vec::new()
                    };
                    assert(!(result@ is Allow) ==> resolved_addrs@ =~= Seq::<SocketAddr>::empty());
                    Checked::Done(CheckResult { result, resolved_addrs })
                },
            },
        }
    }
}

impl ProxyFilter {
    /// Starts to check a host, with name resolution.
    ///
    /// The host is judged by its name before it is resolved, and by its addresses
    /// after that. The result holds the addresses of an allowed host: callers must
    /// connect to those.
    pub fn check_host(&self, host: &str, port: u16) -> (check: HostCheck<'_>)
        ensures
            check@ == check_start(self@, host@, port),
    {
        let ips: Vec<IpAddr> = Vec::new();
        assert(ips@ =~= Seq::<IpAddr>::empty());
        let judging: Judging<'_> = Judging {
            filter: self,
            host: host.to_owned(),
            port: Some(port),
            ips,
            stage: JudgingStage::Metadata,
        };
        HostCheck { filter: self, host: host.to_owned(), port, stage: CheckStage::Before(judging) }
    }

    /// Starts to check a host that resolves to `resolved_ips`; there is no lookup,
    /// and no port.
    #[must_use]
    pub fn check_host_with_ips(&self, host: &str, resolved_ips: &[IpAddr]) -> (judging: Judging<'_>)
        ensures
            judging@ == judging_start(self@, host@, None, resolved_ips@),
    {
        Judging {
            filter: self,
            host: host.to_owned(),
            port: None,
            ips: copy_ips(resolved_ips),
            stage: JudgingStage::Metadata,
        }
    }

    /// Starts to hold a host against the rules: by its name, and where that is not
    /// on the allowlist, by its name with the port.
    #[must_use]
    pub fn check_host_result(&self, host: &str, port: u16, resolved_ips: &[IpAddr]) -> (judging:
        Judging<'_>)
        ensures
            judging@ == (JudgingView {
                stage: JudgingStage::Rules,
                ..judging_start(self@, host@, Some(port), resolved_ips@)
            }),
    {
        Judging {
            filter: self,
            host: host.to_owned(),
            port: Some(port),
            ips: copy_ips(resolved_ips),
            stage: JudgingStage::Rules,
        }
    }
}

} // verus!
