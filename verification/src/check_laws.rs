//! What each course of a host check leads to.
//!
//! The courses are told answer by answer: which question comes after which
//! answers, and with which result a check ends.
use crate::filter::{
    check_start, ips_of, judging_start, metadata_denied, named_hosts, with_port, Allowlist,
    AllowlistView, CheckResult, CheckedView, FilterResult, FilterView, HostAnswer,
    HostAnswerView, HostCheckView, HostQuestion, HostQuestionView, IpAddr, JudgedView,
    JudgingStage, JudgingView, SocketAddr, VerdictView,
};
use crate::text::{decimal, is_numeral, law_decimal_is_the_numeral, number};
use vstd::prelude::*;

verus! {

/// Whether a text is a host, a colon and the numeral of a port.
pub open spec fn is_host_with_port(text: Seq<char>, host: Seq<char>, port: u16) -> bool {
    &&& text.len() > host.len() + 1
    &&& text.take(host.len() as int) == host
    &&& text[host.len() as int] == ':'
    &&& is_numeral(text.skip(host.len() as int + 1))
    &&& number(text.skip(host.len() as int + 1)) == port
}

/// A host with its port is the host, a colon and the numeral of the port.
pub proof fn law_host_with_port(host: Seq<char>, port: u16)
    ensures
        is_host_with_port(with_port(host, port), host, port),
{
    reveal_strlit(":");
    law_decimal_is_the_numeral(port as nat);
    let text = with_port(host, port);
    assert(text.take(host.len() as int) =~= host);
    assert(text.skip(host.len() as int + 1) =~= decimal(port as nat));
}

/// A text is that of at most one host and port.
pub proof fn law_host_and_port_are_unique(
    text: Seq<char>,
    host: Seq<char>,
    port: u16,
    other_host: Seq<char>,
    other_port: u16,
)
    requires
        is_host_with_port(text, host, port),
        is_host_with_port(text, other_host, other_port),
    ensures
        host == other_host,
        port == other_port,
{
    if host.len() < other_host.len() {
        let digits = text.skip(host.len() as int + 1);
        assert(digits[other_host.len() - host.len() - 1] == text[other_host.len() as int]);
    }
    if other_host.len() < host.len() {
        let digits = text.skip(other_host.len() as int + 1);
        assert(digits[host.len() - other_host.len() - 1] == text[host.len() as int]);
    }
}

/// A host is denied for its addresses if and only if it is itself an address of a
/// metadata service, or one of its addresses is, at whatever position.
pub proof fn law_metadata_marks(literal: Option<bool>, marks: Seq<bool>)
    ensures
        metadata_denied(literal, marks) <==> literal == Some(true) || exists|i: int|
            0 <= i < marks.len() && #[trigger] marks[i],
{
    if exists|i: int| 0 <= i < marks.len() && #[trigger] marks[i] {
        let i = choose|i: int| 0 <= i < marks.len() && #[trigger] marks[i];
        assert(marks.contains(marks[i]));
    }
}

/// The IP addresses of a list of addresses are those of each of them, in order.
pub proof fn law_ips(addrs: Seq<SocketAddr>)
    ensures
        ips_of(addrs).len() == addrs.len(),
        forall|i: int| 0 <= i < addrs.len() ==> #[trigger] ips_of(addrs)[i] == addrs[i].ip,
{
}

/// An allowlist names as many hosts as it lists, and none where it allows all.
pub proof fn law_named_hosts(hosts: Seq<Seq<char>>)
    ensures
        named_hosts(AllowlistView::Listed(hosts)) == hosts.len(),
        named_hosts(AllowlistView::Strict(hosts)) == hosts.len(),
        named_hosts(AllowlistView::All) == 0,
{
}

/// Whether it was said that neither the host nor any of `count` addresses is one of
/// a metadata service.
pub open spec fn clears(literal: Option<bool>, marks: Seq<bool>, count: nat) -> bool {
    &&& literal != Some(true)
    &&& marks.len() == count
    &&& forall|i: int| 0 <= i < count ==> !#[trigger] marks[i]
}

/// Whether it was said that the host or one of `count` addresses is one of a
/// metadata service.
pub open spec fn accuses(literal: Option<bool>, marks: Seq<bool>, count: nat) -> bool {
    &&& marks.len() == count
    &&& literal == Some(true) || exists|i: int| 0 <= i < count && #[trigger] marks[i]
}

proof fn lemma_marks(literal: Option<bool>, marks: Seq<bool>, count: nat)
    ensures
        clears(literal, marks, count) <==> marks.len() == count && !metadata_denied(
            literal,
            marks,
        ),
        accuses(literal, marks, count) <==> marks.len() == count && metadata_denied(literal, marks),
{
    law_metadata_marks(literal, marks);
}

/// The course of a judgement after one more answer.
pub open spec fn judged_after(judged: JudgedView, answer: HostAnswerView) -> JudgedView {
    match judged {
        JudgedView::Pending(state) => state.next(answer),
        JudgedView::Done(verdict) => judged,
    }
}

/// The question of a judgement that is not at its end.
pub open spec fn judged_asks(judged: JudgedView, question: HostQuestionView) -> bool {
    judged matches JudgedView::Pending(state) && state.question() == question
}

/// The courses of a judgement. First it is asked whether the host or one of its
/// addresses is one of a metadata service: if so, the host is denied by name. Then
/// the rules are asked about the host: what they say is the verdict, unless they
/// say that the host is not on the allowlist and there is a port. Then the rules
/// are asked about the host with its port, and what they say is the verdict.
pub proof fn law_courses_of_a_judgement(
    filter: FilterView,
    host: Seq<char>,
    port: Option<u16>,
    ips: Seq<IpAddr>,
    literal: Option<bool>,
    marks: Seq<bool>,
    verdict: VerdictView,
    second: VerdictView,
)
    ensures
        ({
            let metadata = HostAnswerView::Metadata { literal, resolved: marks };
            let start = JudgedView::Pending(judging_start(filter, host, port, ips));
            let cleared = judged_after(start, metadata);
            let ruled = judged_after(cleared, HostAnswerView::Rules(verdict));
            &&& judged_asks(start, HostQuestionView::Metadata { host, ips })
            &&& accuses(literal, marks, ips.len()) ==> cleared == JudgedView::Done(
                VerdictView::DenyHost { host },
            )
            &&& marks.len() != ips.len() ==> cleared == start
            &&& clears(literal, marks, ips.len()) ==> {
                &&& cleared == JudgedView::Pending(
                    JudgingView {
                        stage: JudgingStage::Rules,
                        ..judging_start(filter, host, port, ips)
                    },
                )
                &&& judged_asks(cleared, HostQuestionView::Rules { host, ips })
                &&& !(verdict is DenyNotAllowed) || port is None ==> ruled == JudgedView::Done(
                    verdict,
                )
                &&& verdict is DenyNotAllowed && port is Some ==> {
                    &&& ruled matches JudgedView::Pending(state)
                    &&& state.filter == filter
                    &&& state.question() matches HostQuestionView::Rules { host: named, ips: asked }
                    &&& is_host_with_port(named, host, port->Some_0)
                    &&& asked == ips
                    &&& judged_after(ruled, HostAnswerView::Rules(second)) == JudgedView::Done(
                        second,
                    )
                }
            }
        }),
{
    lemma_marks(literal, marks, ips.len());
    if let Some(port) = port {
        law_host_with_port(host, port);
    }
}

/// An answer to another question than the one asked changes nothing in a
/// judgement.
pub proof fn law_other_answers_to_a_judgement(
    state: JudgingView,
    answer: HostAnswerView,
)
    requires
        answer is Metadata ==> !(state.question() is Metadata),
        answer is Rules ==> !(state.question() is Rules),
    ensures
        state.next(answer) == JudgedView::Pending(state),
{
}

/// The course of a check after one more answer.
pub open spec fn checked_after(checked: CheckedView, answer: HostAnswerView) -> CheckedView {
    match checked {
        CheckedView::Pending(state) => state.next(answer),
        CheckedView::Done(result) => checked,
    }
}

/// The question of a check that is not at its end.
pub open spec fn check_asks(checked: CheckedView, question: HostQuestionView) -> bool {
    checked matches CheckedView::Pending(state) && state.question() == question
}

/// Whether this is what comes out for a host: the addresses come with it if the
/// host is allowed, and else there are none.
pub open spec fn ends_with(
    checked: CheckedView,
    verdict: VerdictView,
    addrs: Seq<SocketAddr>,
) -> bool {
    &&& checked matches CheckedView::Done(check)
    &&& check.result == verdict
    &&& verdict is Allow ==> check.resolved_addrs == addrs
    &&& !(verdict is Allow) ==> check.resolved_addrs.len() == 0
}

/// The courses of a check up to the lookup: the host is judged without addresses.
/// A host that is denied is never looked up; one that is allowed is looked up with
/// its port.
pub proof fn law_courses_to_the_lookup(
    filter: FilterView,
    host: Seq<char>,
    port: u16,
    literal: Option<bool>,
    marks: Seq<bool>,
    verdict: VerdictView,
    second: VerdictView,
)
    ensures
        ({
            let metadata = HostAnswerView::Metadata { literal, resolved: marks };
            let start = CheckedView::Pending(check_start(filter, host, port));
            let cleared = checked_after(start, metadata);
            let ruled = checked_after(cleared, HostAnswerView::Rules(verdict));
            let again = checked_after(ruled, HostAnswerView::Rules(second));
            &&& check_asks(start, HostQuestionView::Metadata { host, ips: Seq::empty() })
            &&& accuses(literal, marks, 0) ==> ends_with(
                cleared,
                VerdictView::DenyHost { host },
                Seq::empty(),
            )
            &&& marks.len() != 0 ==> cleared == start
            &&& clears(literal, marks, 0) ==> {
                &&& check_asks(cleared, HostQuestionView::Rules { host, ips: Seq::empty() })
                &&& !(verdict is DenyNotAllowed) && !(verdict is Allow) ==> ends_with(
                    ruled,
                    verdict,
                    Seq::empty(),
                )
                &&& verdict is Allow ==> at_lookup(ruled, filter, host, port)
                &&& verdict is DenyNotAllowed ==> {
                    &&& ruled matches CheckedView::Pending(state)
                    &&& state.question() matches HostQuestionView::Rules { host: named, ips }
                    &&& is_host_with_port(named, host, port)
                    &&& ips.len() == 0
                    &&& !(second is Allow) ==> ends_with(again, second, Seq::empty())
                    &&& second is Allow ==> at_lookup(again, filter, host, port)
                }
            }
        }),
{
    lemma_marks(literal, marks, 0);
    law_host_with_port(host, port);
}

/// Whether a check of a host is at its lookup.
pub open spec fn at_lookup(
    checked: CheckedView,
    filter: FilterView,
    host: Seq<char>,
    port: u16,
) -> bool {
    &&& checked matches CheckedView::Pending(state)
    &&& state.filter == filter
    &&& state.host == host
    &&& state.port == port
    &&& state.question() matches HostQuestionView::Lookup { address }
    &&& is_host_with_port(address, host, port)
}

/// The courses of a check from the lookup on: the host is judged once more, now
/// with all addresses that it resolves to, or with none where it does not resolve.
/// The result has these addresses if the host is still allowed, and else none.
pub proof fn law_courses_from_the_lookup(
    looking: CheckedView,
    filter: FilterView,
    host: Seq<char>,
    port: u16,
    found: Option<Seq<SocketAddr>>,
    addrs: Seq<SocketAddr>,
    ips: Seq<IpAddr>,
    literal: Option<bool>,
    marks: Seq<bool>,
    verdict: VerdictView,
    second: VerdictView,
)
    requires
        at_lookup(looking, filter, host, port),
        found is Some ==> found == Some(addrs),
        found is None ==> addrs.len() == 0,
        ips.len() == addrs.len(),
        forall|i: int| 0 <= i < addrs.len() ==> #[trigger] ips[i] == addrs[i].ip,
    ensures
        ({
            let metadata = HostAnswerView::Metadata { literal, resolved: marks };
            let resolved = checked_after(looking, HostAnswerView::Addresses(found));
            let cleared = checked_after(resolved, metadata);
            let ruled = checked_after(cleared, HostAnswerView::Rules(verdict));
            let again = checked_after(ruled, HostAnswerView::Rules(second));
            &&& checked_after(looking, metadata) == looking
            &&& checked_after(looking, HostAnswerView::Rules(verdict)) == looking
            &&& check_asks(resolved, HostQuestionView::Metadata { host, ips })
            &&& accuses(literal, marks, ips.len()) ==> ends_with(
                cleared,
                VerdictView::DenyHost { host },
                Seq::empty(),
            )
            &&& marks.len() != ips.len() ==> cleared == resolved
            &&& clears(literal, marks, ips.len()) ==> {
                &&& check_asks(cleared, HostQuestionView::Rules { host, ips })
                &&& !(verdict is DenyNotAllowed) ==> ends_with(ruled, verdict, addrs)
                &&& verdict is DenyNotAllowed ==> {
                    &&& ruled matches CheckedView::Pending(state)
                    &&& state.question() matches HostQuestionView::Rules { host: named, ips: asked }
                    &&& is_host_with_port(named, host, port)
                    &&& asked == ips
                    &&& ends_with(again, second, addrs)
                }
            }
        }),
{
    lemma_marks(literal, marks, ips.len());
    law_host_with_port(host, port);
    law_ips(addrs);
    assert(ips_of(addrs) =~= ips);
    assert(found is None ==> addrs =~= Seq::<SocketAddr>::empty());
}

/// An answer to another question than the one asked changes nothing in a check.
pub proof fn law_other_answers_to_a_check(state: HostCheckView, answer: HostAnswerView)
    requires
        answer is Metadata ==> !(state.question() is Metadata),
        answer is Rules ==> !(state.question() is Rules),
        answer is Addresses ==> !(state.question() is Lookup),
    ensures
        state.next(answer) == CheckedView::Pending(state),
{
}

/// The contents of questions, answers, verdicts and allowlists are those of their
/// fields.
pub proof fn law_contents_of_checks(
    result: FilterResult,
    check: CheckResult,
    question: HostQuestion,
    answer: HostAnswer,
    allowed: Allowlist,
)
    ensures
        match result {
            FilterResult::Allow => result@ == VerdictView::Allow,
            FilterResult::DenyHost { host } => result@ == (VerdictView::DenyHost { host: host@ }),
            FilterResult::DenyNotAllowed { host } => result@ == (VerdictView::DenyNotAllowed {
                host: host@,
            }),
            FilterResult::DenyLinkLocal { ip } => result@ == (VerdictView::DenyLinkLocal { ip }),
        },
        check@.result == check.result@ && check@.resolved_addrs == check.resolved_addrs@,
        match question {
            HostQuestion::Metadata { host, ips } => question@ == (HostQuestionView::Metadata {
                host: host@,
                ips: ips@,
            }),
            HostQuestion::Rules { host, ips } => question@ == (HostQuestionView::Rules {
                host: host@,
                ips: ips@,
            }),
            HostQuestion::Lookup { address } => question@ == (HostQuestionView::Lookup {
                address: address@,
            }),
        },
        match answer {
            HostAnswer::Metadata { literal, resolved } => answer@ == (HostAnswerView::Metadata {
                literal,
                resolved: resolved@,
            }),
            HostAnswer::Rules(result) => answer@ == HostAnswerView::Rules(result@),
            HostAnswer::Addresses(Some(addrs)) => answer@ == HostAnswerView::Addresses(
                Some(addrs@),
            ),
            HostAnswer::Addresses(None) => answer@ == HostAnswerView::Addresses(None),
        },
        match allowed {
            Allowlist::Listed(hosts) => allowed@ matches AllowlistView::Listed(names)
                && names.len() == hosts@.len() && forall|i: int|
                0 <= i < names.len() ==> #[trigger] names[i] == hosts@[i]@,
            Allowlist::Strict(hosts) => allowed@ matches AllowlistView::Strict(names)
                && names.len() == hosts@.len() && forall|i: int|
                0 <= i < names.len() ==> #[trigger] names[i] == hosts@[i]@,
            Allowlist::All => allowed@ == AllowlistView::All,
        },
{
}

} // verus!
