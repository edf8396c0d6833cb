//! What holds of every host check.
//!
//! A [`HostWorld`] is a fixed set of answers. [`checked_in`] says directly what a
//! check comes to in a world, and [`law_check_reaches_result`] that the course of
//! questions and answers ends there. The other laws say what every check keeps
//! to.
use crate::filter::{
    check_start, ips_of, judging_start, metadata_denied, with_port, CheckStageView, CheckView,
    CheckedView, FilterView, HostAnswerView, HostCheckView, HostQuestionView, IpAddr, JudgedView,
    JudgingStage, JudgingView, SocketAddr, VerdictView,
};
use vstd::prelude::*;

verus! {

/// The answer to every question.
pub struct HostWorld {
    /// Whether a host that is an IP address is one of a metadata service.
    pub literal: spec_fn(Seq<char>) -> Option<bool>,
    /// Whether an address is one of a metadata service.
    pub metadata: spec_fn(IpAddr) -> bool,
    /// What the rules of a filter say of a host with some addresses.
    pub rules: spec_fn(FilterView, Seq<char>, Seq<IpAddr>) -> VerdictView,
    /// What a name with its port resolves to.
    pub addresses: spec_fn(Seq<char>) -> Option<Seq<SocketAddr>>,
}

impl HostWorld {
    /// Which of `ips` are addresses of a metadata service.
    pub open spec fn metadata_among(self, ips: Seq<IpAddr>) -> Seq<bool> {
        Seq::new(ips.len(), |i: int| (self.metadata)(ips[i]))
    }

    /// The answer to a question on the rules of `filter`.
    pub open spec fn reply(self, filter: FilterView, question: HostQuestionView) -> HostAnswerView {
        match question {
            HostQuestionView::Metadata { host, ips } => HostAnswerView::Metadata {
                literal: (self.literal)(host),
                resolved: self.metadata_among(ips),
            },
            HostQuestionView::Rules { host, ips } => HostAnswerView::Rules(
                (self.rules)(filter, host, ips),
            ),
            HostQuestionView::Lookup { address } => HostAnswerView::Addresses(
                (self.addresses)(address),
            ),
        }
    }
}

/// Whether a host is an address of a metadata service, or has one.
pub open spec fn is_metadata(world: HostWorld, host: Seq<char>, ips: Seq<IpAddr>) -> bool {
    (world.literal)(host) == Some(true) || exists|i: int|
        0 <= i < ips.len() && (world.metadata)(#[trigger] ips[i])
}

/// What the rules say of a host: by its name, and where that is not on the
/// allowlist, by its name with the port.
pub open spec fn ruled(
    world: HostWorld,
    filter: FilterView,
    host: Seq<char>,
    port: Option<u16>,
    ips: Seq<IpAddr>,
) -> VerdictView {
    let alone = (world.rules)(filter, host, ips);
    match port {
        Some(port) => if alone is DenyNotAllowed {
            (world.rules)(filter, with_port(host, port), ips)
        } else {
            alone
        },
        None => alone,
    }
}

/// The verdict on a host with known addresses.
pub open spec fn judged_in(
    world: HostWorld,
    filter: FilterView,
    host: Seq<char>,
    port: Option<u16>,
    ips: Seq<IpAddr>,
) -> VerdictView {
    if is_metadata(world, host, ips) {
        VerdictView::DenyHost { host }
    } else {
        ruled(world, filter, host, port, ips)
    }
}

/// The addresses of a host; none where the lookup fails.
pub open spec fn resolved_in(world: HostWorld, host: Seq<char>, port: u16) -> Seq<SocketAddr> {
    match (world.addresses)(with_port(host, port)) {
        Some(addrs) => addrs,
        None => Seq::empty(),
    }
}

/// What the check of a host comes to.
pub open spec fn checked_in(
    world: HostWorld,
    filter: FilterView,
    host: Seq<char>,
    port: u16,
) -> CheckView {
    let before = judged_in(world, filter, host, Some(port), Seq::empty());
    if !(before is Allow) {
        CheckView { result: before, resolved_addrs: Seq::empty() }
    } else {
        let resolved = resolved_in(world, host, port);
        let after = judged_in(world, filter, host, Some(port), ips_of(resolved));
        CheckView {
            result: after,
            resolved_addrs: if after is Allow {
                resolved
            } else {
                Seq::empty()
            },
        }
    }
}

/// The course of a judgement in a world, over at most so many questions.
pub open spec fn run_judging(world: HostWorld, judged: JudgedView, questions: nat) -> JudgedView
    decreases questions,
{
    match judged {
        JudgedView::Done(result) => judged,
        JudgedView::Pending(state) => if questions == 0 {
            judged
        } else {
            run_judging(
                world,
                state.next(world.reply(state.filter, state.question())),
                (questions - 1) as nat,
            )
        },
    }
}

/// The course of a check in a world, over at most so many questions.
pub open spec fn run_check(world: HostWorld, checked: CheckedView, questions: nat) -> CheckedView
    decreases questions,
{
    match checked {
        CheckedView::Done(result) => checked,
        CheckedView::Pending(state) => if questions == 0 {
            checked
        } else {
            run_check(
                world,
                state.next(world.reply(state.filter, state.question())),
                (questions - 1) as nat,
            )
        },
    }
}

/// What a state of a judgement comes to.
spec fn judging_outcome(world: HostWorld, state: JudgingView) -> VerdictView {
    match state.stage {
        JudgingStage::Metadata => judged_in(world, state.filter, state.host, state.port, state.ips),
        JudgingStage::Rules => ruled(world, state.filter, state.host, state.port, state.ips),
        JudgingStage::PortRules => (world.rules)(
            state.filter,
            with_port(state.host, state.port->Some_0),
            state.ips,
        ),
    }
}

/// How many questions a state of a judgement can take.
spec fn judging_left(state: JudgingView) -> nat {
    match state.stage {
        JudgingStage::Metadata => 3,
        JudgingStage::Rules => 2,
        JudgingStage::PortRules => 1,
    }
}

proof fn lemma_metadata(world: HostWorld, host: Seq<char>, ips: Seq<IpAddr>)
    ensures
        metadata_denied((world.literal)(host), world.metadata_among(ips)) == is_metadata(
            world,
            host,
            ips,
        ),
{
    let marks = world.metadata_among(ips);
    if marks.contains(true) {
        let at = choose|at: int| 0 <= at < marks.len() && marks[at];
        assert((world.metadata)(ips[at]));
    }
    if exists|i: int| 0 <= i < ips.len() && (world.metadata)(#[trigger] ips[i]) {
        let at = choose|i: int| 0 <= i < ips.len() && (world.metadata)(#[trigger] ips[i]);
        assert(marks[at]);
    }
}

/// One question of a judgement leaves what it comes to as it is.
proof fn lemma_judging_step(world: HostWorld, state: JudgingView)
    ensures
        match state.next(world.reply(state.filter, state.question())) {
            JudgedView::Done(result) => result == judging_outcome(world, state),
            JudgedView::Pending(next) => {
                &&& judging_outcome(world, next) == judging_outcome(world, state)
                &&& judging_left(next) < judging_left(state)
                &&& next.filter == state.filter
            },
        },
{
    lemma_metadata(world, state.host, state.ips);
}

proof fn lemma_run_judging(world: HostWorld, state: JudgingView, questions: nat)
    requires
        judging_left(state) <= questions,
    ensures
        run_judging(world, JudgedView::Pending(state), questions) == JudgedView::Done(
            judging_outcome(world, state),
        ),
    decreases questions,
{
    reveal_with_fuel(run_judging, 2);
    lemma_judging_step(world, state);
    if let JudgedView::Pending(next) = state.next(world.reply(state.filter, state.question())) {
        lemma_run_judging(world, next, (questions - 1) as nat);
    }
}

/// In a world where every question has one answer, a host with known addresses
/// gets the verdict that [`judged_in`] says, after at most three of them.
pub proof fn law_judging_reaches_verdict(
    world: HostWorld,
    filter: FilterView,
    host: Seq<char>,
    port: Option<u16>,
    ips: Seq<IpAddr>,
    questions: nat,
)
    requires
        questions >= 3,
    ensures
        run_judging(
            world,
            JudgedView::Pending(judging_start(filter, host, port, ips)),
            questions,
        ) == JudgedView::Done(judged_in(world, filter, host, port, ips)),
        run_judging(
            world,
            JudgedView::Pending(
                JudgingView {
                    stage: JudgingStage::Rules,
                    ..judging_start(filter, host, port, ips)
                },
            ),
            questions,
        ) == JudgedView::Done(ruled(world, filter, host, port, ips)),
{
    let start = judging_start(filter, host, port, ips);
    lemma_run_judging(world, start, questions);
    lemma_run_judging(world, JudgingView { stage: JudgingStage::Rules, ..start }, questions);
}

/// What a state of a check comes to.
spec fn check_outcome(world: HostWorld, state: HostCheckView) -> CheckView {
    match state.stage {
        CheckStageView::Before(judging) => {
            let before = judging_outcome(world, judging);
            if before is Allow {
                after_lookup(world, state)
            } else {
                CheckView { result: before, resolved_addrs: Seq::empty() }
            }
        },
        CheckStageView::Lookup => after_lookup(world, state),
        CheckStageView::After(judging, resolved) => after_judging(
            judging_outcome(world, judging),
            resolved,
        ),
    }
}

spec fn after_judging(after: VerdictView, resolved: Seq<SocketAddr>) -> CheckView {
    CheckView {
        result: after,
        resolved_addrs: if after is Allow {
            resolved
        } else {
            Seq::empty()
        },
    }
}

spec fn after_lookup(world: HostWorld, state: HostCheckView) -> CheckView {
    let resolved = resolved_in(world, state.host, state.port);
    after_judging(
        judged_in(world, state.filter, state.host, Some(state.port), ips_of(resolved)),
        resolved,
    )
}

/// How many questions a state of a check can take.
spec fn check_left(state: HostCheckView) -> nat {
    match state.stage {
        CheckStageView::Before(judging) => 4 + judging_left(judging),
        CheckStageView::Lookup => 4,
        CheckStageView::After(judging, resolved) => judging_left(judging),
    }
}

/// Whether the judgement within a check is on the rules of its filter.
spec fn same_filter(state: HostCheckView) -> bool {
    match state.stage {
        CheckStageView::Before(judging) => judging.filter == state.filter,
        CheckStageView::Lookup => true,
        CheckStageView::After(judging, resolved) => judging.filter == state.filter,
    }
}

/// One question of a check leaves what it comes to as it is.
proof fn lemma_check_step(world: HostWorld, state: HostCheckView)
    requires
        same_filter(state),
    ensures
        match state.next(world.reply(state.filter, state.question())) {
            CheckedView::Done(result) => result == check_outcome(world, state),
            CheckedView::Pending(next) => {
                &&& check_outcome(world, next) == check_outcome(world, state)
                &&& check_left(next) < check_left(state)
                &&& same_filter(next)
            },
        },
{
    match state.stage {
        CheckStageView::Before(judging) => {
            lemma_judging_step(world, judging);
        },
        CheckStageView::Lookup => {},
        CheckStageView::After(judging, resolved) => {
            lemma_judging_step(world, judging);
        },
    }
}

proof fn lemma_run_check(world: HostWorld, state: HostCheckView, questions: nat)
    requires
        same_filter(state),
        check_left(state) <= questions,
    ensures
        run_check(world, CheckedView::Pending(state), questions) == CheckedView::Done(
            check_outcome(world, state),
        ),
    decreases questions,
{
    reveal_with_fuel(run_check, 2);
    lemma_check_step(world, state);
    if let CheckedView::Pending(next) = state.next(world.reply(state.filter, state.question())) {
        lemma_run_check(world, next, (questions - 1) as nat);
    }
}

/// In a world where every question has one answer, the check of a host comes to
/// what [`checked_in`] says, after at most seven of them.
pub proof fn law_check_reaches_result(
    world: HostWorld,
    filter: FilterView,
    host: Seq<char>,
    port: u16,
    questions: nat,
)
    requires
        questions >= 7,
    ensures
        run_check(
            world,
            CheckedView::Pending(check_start(filter, host, port)),
            questions,
        ) == CheckedView::Done(checked_in(world, filter, host, port)),
{
    lemma_run_check(world, check_start(filter, host, port), questions);
}

/// Whether a state of a check keeps to itself: the judgement is on the host of
/// the check, and first without and then with the addresses that it resolved to.
pub open spec fn consistent(state: HostCheckView) -> bool {
    match state.stage {
        CheckStageView::Before(judging) => {
            &&& judging.filter == state.filter
            &&& judging.host == state.host
            &&& judging.port == Some(state.port)
            &&& judging.ips.len() == 0
        },
        CheckStageView::Lookup => true,
        CheckStageView::After(judging, resolved) => {
            &&& judging.filter == state.filter
            &&& judging.host == state.host
            &&& judging.port == Some(state.port)
            &&& judging.ips == ips_of(resolved)
        },
    }
}

/// Every check starts consistent, with the host alone, and with no lookup.
pub proof fn law_start_is_consistent(filter: FilterView, host: Seq<char>, port: u16)
    ensures
        consistent(check_start(filter, host, port)),
        check_start(filter, host, port).question() == (HostQuestionView::Metadata {
            host,
            ips: Seq::empty(),
        }),
{
}

/// Whatever the answers are, a check stays consistent and stays on its host; and
/// its result has addresses only where the host is allowed, namely those that
/// the verdict is on.
pub proof fn law_answers_keep_consistency(state: HostCheckView, answer: HostAnswerView)
    requires
        consistent(state),
    ensures
        match state.next(answer) {
            CheckedView::Pending(next) => {
                &&& consistent(next)
                &&& next.filter == state.filter
                &&& next.host == state.host
                &&& next.port == state.port
            },
            CheckedView::Done(check) => {
                &&& !(check.result is Allow) ==> check.resolved_addrs.len() == 0
                &&& check.result is Allow ==> (state.stage matches CheckStageView::After(
                    judging,
                    resolved,
                ) && check.resolved_addrs == resolved && judging.ips == ips_of(
                    check.resolved_addrs,
                ))
            },
        },
{
}

/// A name is looked up only right after the rules have allowed it, by itself or
/// with its port, without any address: a denied host is never looked up.
pub proof fn law_lookup_only_after_allow(state: HostCheckView, answer: HostAnswerView)
    requires
        consistent(state),
        !(state.question() is Lookup),
        state.next(answer) matches CheckedView::Pending(next) && next.question() is Lookup,
    ensures
        answer == HostAnswerView::Rules(VerdictView::Allow),
        state.question() == (HostQuestionView::Rules { host: state.host, ips: Seq::empty() })
            || state.question() == (HostQuestionView::Rules {
            host: with_port(state.host, state.port),
            ips: Seq::empty(),
        }),
{
    if let CheckStageView::Before(judging) = state.stage {
        assert(judging.ips =~= Seq::<IpAddr>::empty());
    }
}

/// The course of a check under any answers, one after the other.
pub open spec fn follow(start: HostCheckView, answers: Seq<HostAnswerView>) -> CheckedView
    decreases answers.len(),
{
    if answers.len() == 0 {
        CheckedView::Pending(start)
    } else {
        match follow(start, answers.drop_last()) {
            CheckedView::Done(result) => CheckedView::Done(result),
            CheckedView::Pending(state) => state.next(answers.last()),
        }
    }
}

/// Whether the rules said that the host is allowed.
pub open spec fn says_allowed(answer: HostAnswerView) -> bool {
    answer == HostAnswerView::Rules(VerdictView::Allow)
}

/// Whether the name service said that the host has these addresses.
pub open spec fn says_addresses(answer: HostAnswerView, addrs: Seq<SocketAddr>) -> bool {
    answer == HostAnswerView::Addresses(Some(addrs)) || (answer == HostAnswerView::Addresses(None)
        && addrs.len() == 0)
}

/// Whether it was said of the host and of each of `count` addresses that it is
/// none of a metadata service.
pub open spec fn says_no_metadata(answer: HostAnswerView, count: nat) -> bool {
    answer matches HostAnswerView::Metadata { literal, resolved } && literal != Some(true)
        && resolved.len() == count && forall|i: int| 0 <= i < count ==> !(#[trigger] resolved[i])
}

/// Whether the host was allowed without addresses, then resolved to `addrs`, and
/// whether then each of these was judged to be none of a metadata service.
pub open spec fn judged_one_by_one(
    answers: Seq<HostAnswerView>,
    addrs: Seq<SocketAddr>,
    allowed: int,
    resolved: int,
    cleared: int,
) -> bool {
    &&& 0 <= allowed < resolved < cleared < answers.len()
    &&& says_allowed(answers[allowed])
    &&& says_addresses(answers[resolved], addrs)
    &&& says_no_metadata(answers[cleared], addrs.len())
}

/// Whether the answers so far account for where a check is.
spec fn accounted(
    state: HostCheckView,
    answers: Seq<HostAnswerView>,
    allowed: int,
    resolved: int,
    cleared: int,
) -> bool {
    match state.stage {
        CheckStageView::Before(judging) => true,
        CheckStageView::Lookup => 0 <= allowed < answers.len() && says_allowed(answers[allowed]),
        CheckStageView::After(judging, addrs) => if judging.stage == JudgingStage::Metadata {
            &&& 0 <= allowed < resolved < answers.len()
            &&& says_allowed(answers[allowed])
            &&& says_addresses(answers[resolved], addrs)
        } else {
            judged_one_by_one(answers, addrs, allowed, resolved, cleared)
        },
    }
}

proof fn lemma_accounted(start: HostCheckView, answers: Seq<HostAnswerView>) -> (places: (
    int,
    int,
    int,
))
    requires
        consistent(start),
        start.stage is Before,
    ensures
        match follow(start, answers) {
            CheckedView::Pending(state) => {
                &&& consistent(state)
                &&& accounted(state, answers, places.0, places.1, places.2)
            },
            CheckedView::Done(check) => {
                &&& check.result is Allow ==> judged_one_by_one(
                    answers,
                    check.resolved_addrs,
                    places.0,
                    places.1,
                    places.2,
                )
                &&& !(check.result is Allow) ==> check.resolved_addrs.len() == 0
            },
        },
    decreases answers.len(),
{
    if answers.len() == 0 {
        (0, 0, 0)
    } else {
        let front = answers.drop_last();
        let before = lemma_accounted(start, front);
        let last = answers.len() - 1;
        match follow(start, front) {
            CheckedView::Done(check) => before,
            CheckedView::Pending(state) => {
                law_answers_keep_consistency(state, answers.last());
                match state.stage {
                    CheckStageView::Before(judging) => (last, 0, 0),
                    CheckStageView::Lookup => {
                        if answers.last() is Addresses {
                            (before.0, last, 0)
                        } else {
                            before
                        }
                    },
                    CheckStageView::After(judging, addrs) => {
                        if judging.stage == JudgingStage::Metadata {
                            if let HostAnswerView::Metadata { literal, resolved } = answers.last() {
                                if !metadata_denied(literal, resolved) {
                                    assert forall|i: int| 0 <= i < resolved.len() implies !(
                                    #[trigger] resolved[i]) by {
                                        assert(resolved[i] ==> resolved.contains(true));
                                    }
                                }
                            }
                            (before.0, before.1, last)
                        } else {
                            before
                        }
                    },
                }
            },
        }
    }
}

/// Whatever the answers are, and even where they contradict each other: a check
/// that ends with an allowed host had the host allowed before it was looked up,
/// returns the addresses of that lookup, and had each single one of them judged
/// to be none of a metadata service. A check that ends with a denied host returns
/// no address.
pub proof fn law_returned_addresses_were_judged(
    filter: FilterView,
    host: Seq<char>,
    port: u16,
    answers: Seq<HostAnswerView>,
)
    ensures
        match follow(check_start(filter, host, port), answers) {
            CheckedView::Done(check) => {
                &&& check.result is Allow ==> exists|allowed: int, resolved: int, cleared: int|
                    judged_one_by_one(answers, check.resolved_addrs, allowed, resolved, cleared)
                &&& !(check.result is Allow) ==> check.resolved_addrs.len() == 0
            },
            CheckedView::Pending(state) => true,
        },
{
    lemma_accounted(check_start(filter, host, port), answers);
}

/// In the second judgement nothing but a mark for each address leads on to the
/// rules, with every mark saying that the address is none of a metadata service.
pub proof fn law_every_address_is_judged(
    state: HostCheckView,
    judging: JudgingView,
    addrs: Seq<SocketAddr>,
    answer: HostAnswerView,
)
    requires
        consistent(state),
        state.stage == CheckStageView::After(judging, addrs),
        judging.stage == JudgingStage::Metadata,
        state.next(answer) != CheckedView::Pending(state),
    ensures
        answer matches HostAnswerView::Metadata { literal, resolved } && resolved.len()
            == addrs.len(),
        state.next(answer) is Pending ==> says_no_metadata(answer, addrs.len()),
{
    if let HostAnswerView::Metadata { literal, resolved } = answer {
        if !metadata_denied(literal, resolved) {
            assert forall|i: int| 0 <= i < resolved.len() implies !(#[trigger] resolved[i]) by {
                assert(resolved[i] ==> resolved.contains(true));
            }
        }
    }
}

/// A lookup is made at most once: once there are addresses, no question asks for
/// others.
pub proof fn law_no_second_lookup(state: HostCheckView, answer: HostAnswerView)
    requires
        state.stage is After,
    ensures
        !(state.question() is Lookup),
        state.next(answer) matches CheckedView::Pending(next) ==> next.stage is After,
{
}

/// A host that is an address of a metadata service, or that has one, is denied by
/// name, whatever the rules say.
pub proof fn law_metadata_is_denied(
    world: HostWorld,
    filter: FilterView,
    host: Seq<char>,
    port: Option<u16>,
    ips: Seq<IpAddr>,
)
    requires
        is_metadata(world, host, ips),
    ensures
        judged_in(world, filter, host, port, ips) == (VerdictView::DenyHost { host }),
{
}

/// A host that the rules allow is allowed, except where it is an address of a
/// metadata service or has one.
pub proof fn law_allowed_except_metadata(
    world: HostWorld,
    filter: FilterView,
    host: Seq<char>,
    port: Option<u16>,
    ips: Seq<IpAddr>,
)
    requires
        (world.rules)(filter, host, ips) is Allow,
    ensures
        judged_in(world, filter, host, port, ips) is Allow <==> !is_metadata(world, host, ips),
{
}

/// No address of an allowed host is one of a metadata service, and the addresses
/// of a result are those of the one lookup.
pub proof fn law_resolved_addresses_are_judged(
    world: HostWorld,
    filter: FilterView,
    host: Seq<char>,
    port: u16,
)
    ensures
        ({
            let check = checked_in(world, filter, host, port);
            &&& check.result is Allow ==> {
                &&& check.resolved_addrs == resolved_in(world, host, port)
                &&& !((world.literal)(host) == Some(true))
                &&& forall|i: int|
                    0 <= i < check.resolved_addrs.len() ==> !(world.metadata)(
                        (#[trigger] check.resolved_addrs[i]).ip,
                    )
            }
            &&& !(check.result is Allow) ==> check.resolved_addrs.len() == 0
        }),
{
    let check = checked_in(world, filter, host, port);
    if check.result is Allow {
        let ips = ips_of(check.resolved_addrs);
        assert forall|i: int| 0 <= i < check.resolved_addrs.len() implies !(world.metadata)(
            (#[trigger] check.resolved_addrs[i]).ip,
        ) by {
            assert(ips[i] == check.resolved_addrs[i].ip);
        }
    }
}

/// An entry for a host with its port does not overrule a denial of the host by
/// name: the rules are asked about the port only where the host is merely not on
/// the allowlist.
pub proof fn law_port_entries_only_extend_allowlist(
    world: HostWorld,
    filter: FilterView,
    host: Seq<char>,
    port: u16,
    ips: Seq<IpAddr>,
)
    ensures
        !((world.rules)(filter, host, ips) is DenyNotAllowed) ==> ruled(
            world,
            filter,
            host,
            Some(port),
            ips,
        ) == (world.rules)(filter, host, ips),
        (world.rules)(filter, host, ips) is DenyNotAllowed ==> ruled(
            world,
            filter,
            host,
            Some(port),
            ips,
        ) == (world.rules)(filter, with_port(host, port), ips),
{
}

/// A host that the rules allow neither by itself nor with its port is denied
/// without a lookup, as by a strict filter with an empty allowlist.
pub proof fn law_refused_by_rules(
    world: HostWorld,
    filter: FilterView,
    host: Seq<char>,
    port: u16,
)
    requires
        !((world.rules)(filter, host, Seq::empty()) is Allow),
        !((world.rules)(filter, with_port(host, port), Seq::empty()) is Allow),
    ensures
        !(checked_in(world, filter, host, port).result is Allow),
        checked_in(world, filter, host, port).resolved_addrs.len() == 0,
        forall|addresses: spec_fn(Seq<char>) -> Option<Seq<SocketAddr>>|
            checked_in(world, filter, host, port) == #[trigger] checked_in(
                HostWorld { addresses, ..world },
                filter,
                host,
                port,
            ),
{
    assert forall|addresses: spec_fn(Seq<char>) -> Option<Seq<SocketAddr>>|
        checked_in(world, filter, host, port) == #[trigger] checked_in(
            HostWorld { addresses, ..world },
            filter,
            host,
            port,
        ) by {
        let other = HostWorld { addresses, ..world };
        assert(is_metadata(other, host, Seq::empty()) == is_metadata(world, host, Seq::empty()));
    }
}

} // verus!
