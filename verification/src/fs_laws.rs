//! What holds of every filesystem request.
//!
//! A [`World`] is a fixed set of answers. [`decided`] says directly what a
//! request comes to in a world, and [`law_resolution_reaches_decision`] that the
//! course of questions and answers ends there. The other laws say what every
//! decision keeps to.
use crate::error::ErrorView;
use crate::fs_approval::{requests, AnswerView, FileType, QuestionView, MAX_REQUESTED_GRANTS};
use crate::fs_model::{
    absorbed, admitted, below_any, overlaps, same_target, setup_of, started, target_from, untouched,
    unusable, ProgressView, ResolutionView, Setup, StageView, WorkView,
};
use crate::grant::{
    normalized, reads, writes, AccessMode, CommandFilesystemGrantKind, GrantView, RequestView,
};
use crate::path::{below, joined, root};
use crate::policy::CommandApprovalFilesystemConfig;
use vstd::prelude::*;
use vstd::utf8::encode_utf8;

verus! {

/// The answer to every question.
pub struct World {
    /// What a JSON text asks for, or why it cannot be read.
    pub envelope: spec_fn(Seq<u8>) -> Result<Seq<RequestView>, Seq<char>>,
    /// What a path canonically is.
    pub canonical: spec_fn(Seq<u8>) -> Option<Seq<u8>>,
    /// What an entry of the policy expands to, from the root of the policy.
    pub expanded: spec_fn(Seq<char>, Seq<u8>) -> Option<Seq<u8>>,
    /// What lies at a path.
    pub inspected: spec_fn(Seq<u8>) -> Option<FileType>,
}

impl World {
    /// The answer to a question.
    pub open spec fn reply(self, question: QuestionView) -> AnswerView {
        match question {
            QuestionView::Envelope(text) => AnswerView::Envelope((self.envelope)(text)),
            QuestionView::Canonicalize(path) => AnswerView::Canonical((self.canonical)(path)),
            QuestionView::Expand { entry, policy_root } => AnswerView::Expanded(
                (self.expanded)(entry, policy_root),
            ),
            QuestionView::Inspect(path) => AnswerView::Inspected((self.inspected)(path)),
        }
    }

    /// What a denied path stands for: its canonical path, or itself where it has
    /// none.
    pub open spec fn denied(self, deny: Seq<u8>) -> Seq<u8> {
        match (self.canonical)(deny) {
            Some(canonical) => canonical,
            None => deny,
        }
    }
}

/// The directory at `path`, as a root of the ceiling: it exists and is not `/`.
pub open spec fn root_at(world: World, path: Seq<u8>) -> Result<Seq<u8>, ErrorView> {
    match (world.canonical)(path) {
        None => Err(ErrorView::PathCanonicalization { path }),
        Some(canonical) => if root(canonical) || (world.inspected)(canonical) != Some(
            FileType::Directory,
        ) {
            Err(ErrorView::UnusableRoot { path: canonical })
        } else {
            Ok(canonical)
        },
    }
}

/// The root of the ceiling that an entry names, seen from `cwd`.
pub open spec fn root_for(
    world: World,
    setup: Setup,
    cwd: Seq<u8>,
    entry: Seq<char>,
) -> Result<Seq<u8>, ErrorView> {
    match (world.expanded)(entry, setup.policy_root) {
        None => Err(ErrorView::Expansion { entry }),
        Some(path) => root_at(world, joined(cwd, path)),
    }
}

/// The roots that `entries` name, of which the first ones are known; or what is
/// wrong with the first entry that names none.
pub open spec fn roots_from(
    world: World,
    setup: Setup,
    cwd: Seq<u8>,
    entries: Seq<Seq<char>>,
    known: Seq<Seq<u8>>,
) -> Result<Seq<Seq<u8>>, ErrorView>
    decreases entries.len() - known.len(),
{
    if known.len() >= entries.len() {
        Ok(known)
    } else {
        match root_for(world, setup, cwd, entries[known.len() as int]) {
            Err(error) => Err(error),
            Ok(path) => roots_from(world, setup, cwd, entries, known.push(path)),
        }
    }
}

/// Whether a grant would reach into what one of the denied paths from `from` on
/// stands for.
pub open spec fn reaches_denied(
    world: World,
    denies: Seq<Seq<u8>>,
    path: Seq<u8>,
    kind: CommandFilesystemGrantKind,
    from: int,
) -> bool {
    exists|i: int| from <= i < denies.len() && overlaps(path, kind, world.denied(#[trigger] denies[i]))
}

/// The request at a canonical path that was inspected: nothing denies it and the
/// ceiling admits it. The denied paths before `from` are settled.
pub open spec fn grant_within(
    world: World,
    work: WorkView,
    request: RequestView,
    path: Seq<u8>,
    from: int,
) -> Result<GrantView, ErrorView> {
    let access = normalized(request.access);
    if reaches_denied(world, work.setup.deny_paths, path, request.kind, from) {
        Err(ErrorView::DeniedPath { path })
    } else if !admitted(path, access, work.read_roots, work.write_roots) {
        Err(ErrorView::ExceedsCeiling { path, access })
    } else {
        Ok(GrantView { path, access, kind: request.kind })
    }
}

/// The request at a canonical path: what lies there is what was asked for.
pub open spec fn grant_at(
    world: World,
    work: WorkView,
    request: RequestView,
    path: Seq<u8>,
) -> Result<GrantView, ErrorView> {
    match (world.inspected)(path) {
        None => Err(ErrorView::ConfigRead { path }),
        Some(found) => if request.kind == CommandFilesystemGrantKind::File && found
            != FileType::File {
            Err(ErrorView::ExpectedFile { path })
        } else if request.kind == CommandFilesystemGrantKind::Directory && found
            != FileType::Directory {
            Err(ErrorView::ExpectedDirectory { path })
        } else {
            grant_within(world, work, request, path, 0)
        },
    }
}

/// The request at a path as it was asked for: it exists and is not `/`.
pub open spec fn grant_from(
    world: World,
    work: WorkView,
    request: RequestView,
    path: Seq<u8>,
) -> Result<GrantView, ErrorView> {
    match (world.canonical)(path) {
        None => Err(ErrorView::PathCanonicalization { path }),
        Some(canonical) => if root(canonical) {
            Err(ErrorView::FilesystemRoot)
        } else {
            grant_at(world, work, request, canonical)
        },
    }
}

/// The grant for one request, or why there is none.
pub open spec fn grant_for(world: World, work: WorkView, request: RequestView) -> Result<
    GrantView,
    ErrorView,
> {
    if unusable(request.path) {
        Err(ErrorView::InvalidPath)
    } else {
        grant_from(world, work, request, joined(work.cwd, encode_utf8(request.path)))
    }
}

/// The grants with those for the requests from `index` on, or why the first
/// request without a grant has none.
pub open spec fn grants_from(world: World, work: WorkView, index: int) -> Result<
    Seq<GrantView>,
    ErrorView,
>
    decreases work.requested.len() - index,
{
    if index >= work.requested.len() {
        Ok(work.grants)
    } else {
        match grant_for(world, work, work.requested[index]) {
            Err(error) => Err(error),
            Ok(grant) => grants_from(
                world,
                WorkView { grants: absorbed(work.grants, grant), ..work },
                index + 1,
            ),
        }
    }
}

/// What comes of the requests once the ceiling's remaining roots are resolved.
pub open spec fn after_roots(world: World, work: WorkView) -> Result<Seq<GrantView>, ErrorView> {
    match roots_from(world, work.setup, work.cwd, work.setup.read_entries, work.read_roots) {
        Err(error) => Err(error),
        Ok(read_roots) => match roots_from(
            world,
            work.setup,
            work.cwd,
            work.setup.write_entries,
            work.write_roots,
        ) {
            Err(error) => Err(error),
            Ok(write_roots) => grants_from(world, WorkView { read_roots, write_roots, ..work }, 0),
        },
    }
}

/// What comes of the requests once the working directory is canonical.
pub open spec fn after_cwd(world: World, work: WorkView) -> Result<Seq<GrantView>, ErrorView> {
    match (world.canonical)(work.setup.request_cwd) {
        None => Err(ErrorView::PathCanonicalization { path: work.setup.request_cwd }),
        Some(cwd) => after_roots(world, WorkView { cwd, ..work }),
    }
}

/// What comes of a request text.
pub open spec fn after_reading(world: World, work: WorkView, encoded: Seq<u8>) -> Result<
    Seq<GrantView>,
    ErrorView,
> {
    match (world.envelope)(encoded) {
        Err(message) => Err(ErrorView::InvalidJson { message }),
        Ok(requested) => if requested.len() == 0 {
            Err(ErrorView::EmptyRequest)
        } else if requested.len() > MAX_REQUESTED_GRANTS {
            Err(ErrorView::TooManyGrants)
        } else {
            after_cwd(world, WorkView { requested, ..work })
        },
    }
}

/// What the request in an environment comes to.
pub open spec fn decided(
    world: World,
    env: Seq<Seq<u8>>,
    request_cwd: Seq<u8>,
    ceiling: Option<CommandApprovalFilesystemConfig>,
    policy_root: Seq<u8>,
    deny_paths: Seq<Seq<u8>>,
) -> Result<Seq<GrantView>, ErrorView> {
    if requests(env).len() == 0 {
        Ok(Seq::empty())
    } else if requests(env).len() > 1 {
        Err(ErrorView::DuplicateRequest)
    } else {
        match ceiling {
            None => Err(ErrorView::NoCeiling),
            Some(ceiling) => after_reading(
                world,
                untouched(setup_of(request_cwd, ceiling, policy_root, deny_paths)),
                requests(env)[0],
            ),
        }
    }
}

/// The course of a resolution in a world, over at most so many questions.
pub open spec fn run(world: World, progress: ProgressView, questions: nat) -> ProgressView
    decreases questions,
{
    match progress {
        ProgressView::Done(result) => progress,
        ProgressView::Pending(state) => if questions == 0 {
            progress
        } else {
            run(world, state.next(world.reply(state.question())), (questions - 1) as nat)
        },
    }
}

/// How many questions a request can take: one for its text, one for the working
/// directory, three for each root of the ceiling, and for each grant two and one
/// for each denied path.
pub open spec fn most_questions(setup: Setup) -> nat {
    2 + 3 * (setup.read_entries.len() + setup.write_entries.len()) + (MAX_REQUESTED_GRANTS as nat)
        * (2 + setup.deny_paths.len())
}

/// What a state comes to.
spec fn outcome(world: World, state: ResolutionView) -> Result<Seq<GrantView>, ErrorView> {
    let work = state.work;
    match state.stage {
        StageView::Envelope { encoded } => after_reading(world, work, encoded),
        StageView::Cwd => after_cwd(world, work),
        StageView::RootExpand => match root_for(world, work.setup, work.cwd, work.entry()) {
            Err(error) => Err(error),
            Ok(path) => after_roots(world, work.with_root(path)),
        },
        StageView::RootCanonical { path } => match root_at(world, path) {
            Err(error) => Err(error),
            Ok(path) => after_roots(world, work.with_root(path)),
        },
        StageView::RootInspect { path } => if (world.inspected)(path) == Some(
            FileType::Directory,
        ) {
            after_roots(world, work.with_root(path))
        } else {
            Err(ErrorView::UnusableRoot { path })
        },
        StageView::GrantCanonical { index, path } => granted(
            world,
            work,
            index,
            grant_from(world, work, work.requested[index], path),
        ),
        StageView::GrantInspect { index, path } => granted(
            world,
            work,
            index,
            grant_at(world, work, work.requested[index], path),
        ),
        StageView::GrantDeny { index, path, deny } => granted(
            world,
            work,
            index,
            grant_within(world, work, work.requested[index], path, deny),
        ),
    }
}

/// What comes of the requests after `index`, with the outcome of that one.
spec fn granted(
    world: World,
    work: WorkView,
    index: int,
    grant: Result<GrantView, ErrorView>,
) -> Result<Seq<GrantView>, ErrorView> {
    match grant {
        Err(error) => Err(error),
        Ok(grant) => grants_from(
            world,
            WorkView { grants: absorbed(work.grants, grant), ..work },
            index + 1,
        ),
    }
}

spec fn outcome_of(world: World, progress: ProgressView) -> Result<Seq<GrantView>, ErrorView> {
    match progress {
        ProgressView::Done(result) => result,
        ProgressView::Pending(state) => outcome(world, state),
    }
}

proof fn lemma_next_root(world: World, work: WorkView)
    ensures
        outcome_of(world, work.next_root()) == after_roots(world, work),
{
    if !work.wants_root() {
        lemma_next_request(world, work, 0);
        assert((WorkView { read_roots: work.read_roots, write_roots: work.write_roots, ..work })
            == work);
    }
}

proof fn lemma_next_request(world: World, work: WorkView, index: int)
    ensures
        outcome_of(world, work.next_request(index)) == grants_from(world, work, index),
{
}

proof fn lemma_next_deny(world: World, work: WorkView, index: int, path: Seq<u8>, deny: int)
    requires
        0 <= deny,
    ensures
        outcome_of(world, work.next_deny(index, path, deny)) == granted(
            world,
            work,
            index,
            grant_within(world, work, work.requested[index], path, deny),
        ),
{
    if deny >= work.setup.deny_paths.len() {
        let access = normalized(work.requested[index].access);
        let grant = GrantView { path, access, kind: work.requested[index].kind };
        lemma_next_request(
            world,
            WorkView { grants: absorbed(work.grants, grant), ..work },
            index + 1,
        );
    }
}

/// One question leaves what a state comes to as it is.
proof fn lemma_step(world: World, state: ResolutionView)
    requires
        state.wf(),
    ensures
        outcome_of(world, state.next(world.reply(state.question()))) == outcome(world, state),
{
    let work = state.work;
    match state.stage {
        StageView::Envelope { encoded } => {},
        StageView::Cwd => {
            if let Some(cwd) = (world.canonical)(work.setup.request_cwd) {
                lemma_next_root(world, WorkView { cwd, ..work });
            }
        },
        StageView::RootExpand => {},
        StageView::RootCanonical { path } => {},
        StageView::RootInspect { path } => {
            lemma_next_root(world, work.with_root(path));
        },
        StageView::GrantCanonical { index, path } => {},
        StageView::GrantInspect { index, path } => {
            lemma_next_deny(world, work, index, path, 0);
        },
        StageView::GrantDeny { index, path, deny } => {
            let denies = work.setup.deny_paths;
            let kind = work.requested[index].kind;
            if overlaps(path, kind, world.denied(denies[deny])) {
                assert(reaches_denied(world, denies, path, kind, deny));
            } else {
                lemma_next_deny(world, work, index, path, deny + 1);
                assert(reaches_denied(world, denies, path, kind, deny) == reaches_denied(
                    world,
                    denies,
                    path,
                    kind,
                    deny + 1,
                ));
            }
        },
    }
}

/// How many questions `count` grants can take.
spec fn grant_questions(work: WorkView, count: int) -> int
    decreases count,
{
    if count <= 0 {
        0
    } else {
        2 + work.setup.deny_paths.len() + grant_questions(work, count - 1)
    }
}

/// How many roots of the ceiling are missing.
spec fn roots_left(work: WorkView) -> int {
    (if work.read_roots.len() < work.setup.read_entries.len() {
        work.setup.read_entries.len() - work.read_roots.len()
    } else {
        0
    }) + (if work.write_roots.len() < work.setup.write_entries.len() {
        work.setup.write_entries.len() - work.write_roots.len()
    } else {
        0
    })
}

/// How many questions a state can take.
spec fn questions_left(state: ResolutionView) -> int {
    let work = state.work;
    let count = work.requested.len();
    match state.stage {
        StageView::Envelope { encoded } => 2 + 3 * roots_left(work) + grant_questions(
            work,
            MAX_REQUESTED_GRANTS as int,
        ),
        StageView::Cwd => 1 + 3 * roots_left(work) + grant_questions(work, count as int),
        StageView::RootExpand => 3 * roots_left(work) + grant_questions(work, count as int),
        StageView::RootCanonical { path } => 3 * roots_left(work) - 1 + grant_questions(
            work,
            count as int,
        ),
        StageView::RootInspect { path } => 3 * roots_left(work) - 2 + grant_questions(
            work,
            count as int,
        ),
        StageView::GrantCanonical { index, path } => grant_questions(work, count - index),
        StageView::GrantInspect { index, path } => grant_questions(work, count - index) - 1,
        StageView::GrantDeny { index, path, deny } => grant_questions(work, count - index) - 2
            - deny,
    }
}

spec fn questions_left_of(progress: ProgressView) -> int {
    match progress {
        ProgressView::Done(result) => 0,
        ProgressView::Pending(state) => questions_left(state),
    }
}

spec fn wf_progress(progress: ProgressView) -> bool {
    progress matches ProgressView::Pending(state) ==> state.wf()
}

proof fn lemma_grant_questions(work: WorkView, fewer: int, more: int)
    requires
        fewer <= more,
    ensures
        0 <= grant_questions(work, fewer) <= grant_questions(work, more),
        more >= 0 ==> grant_questions(work, more) == more * (2 + work.setup.deny_paths.len()),
    decreases more,
{
    let each = 2 + work.setup.deny_paths.len() as int;
    if more > 0 {
        lemma_grant_questions(work, if fewer < more { fewer } else { more - 1 }, more - 1);
        assert(more * each == each + (more - 1) * each) by (nonlinear_arith);
    } else {
        assert(0 * each == 0) by (nonlinear_arith);
    }
}

/// The number of questions for grants only depends on what is denied.
proof fn lemma_same_denies(left: WorkView, right: WorkView, count: int)
    requires
        left.setup == right.setup,
    ensures
        grant_questions(left, count) == grant_questions(right, count),
    decreases count,
{
    if count > 0 {
        lemma_same_denies(left, right, count - 1);
    }
}

/// Every answer leaves fewer questions.
proof fn lemma_fewer(world: World, state: ResolutionView)
    requires
        state.wf(),
    ensures
        questions_left(state) > 0,
        wf_progress(state.next(world.reply(state.question()))),
        questions_left_of(state.next(world.reply(state.question()))) < questions_left(state),
{
    let work = state.work;
    let count = work.requested.len() as int;
    lemma_grant_questions(work, 0, count);
    match state.stage {
        StageView::Envelope { encoded } => {
            lemma_grant_questions(work, 0, MAX_REQUESTED_GRANTS as int);
            if let Ok(requested) = (world.envelope)(encoded) {
                if requested.len() <= MAX_REQUESTED_GRANTS {
                    let next = WorkView { requested, ..work };
                    lemma_same_denies(work, next, MAX_REQUESTED_GRANTS as int);
                    lemma_grant_questions(next, requested.len() as int, MAX_REQUESTED_GRANTS as int);
                }
            }
        },
        StageView::Cwd => {
            if let Some(cwd) = (world.canonical)(work.setup.request_cwd) {
                lemma_same_denies(work, WorkView { cwd, ..work }, count);
            }
        },
        StageView::RootExpand => {},
        StageView::RootCanonical { path } => {},
        StageView::RootInspect { path } => {
            lemma_same_denies(work, work.with_root(path), count);
        },
        StageView::GrantCanonical { index, path } => {
            lemma_grant_questions(work, 0, count - index - 1);
        },
        StageView::GrantInspect { index, path } => {
            lemma_grant_questions(work, 0, count - index - 1);
            lemma_settled(work, index, path);
        },
        StageView::GrantDeny { index, path, deny } => {
            lemma_grant_questions(work, 0, count - index - 1);
            lemma_settled(work, index, path);
        },
    }
}

/// A settled request leaves the questions for the requests after it.
proof fn lemma_settled(work: WorkView, index: int, path: Seq<u8>)
    requires
        0 <= index < work.requested.len(),
    ensures
        wf_progress(work.settle(index, path)),
        questions_left_of(work.settle(index, path)) <= grant_questions(
            work,
            work.requested.len() - index - 1,
        ),
{
    let access = normalized(work.requested[index].access);
    let grant = GrantView { path, access, kind: work.requested[index].kind };
    lemma_grant_questions(work, 0, work.requested.len() - index - 1);
    lemma_same_denies(
        work,
        WorkView { grants: absorbed(work.grants, grant), ..work },
        work.requested.len() - index - 1,
    );
}

proof fn lemma_run(world: World, progress: ProgressView, questions: nat)
    requires
        wf_progress(progress),
        questions_left_of(progress) <= questions,
    ensures
        run(world, progress, questions) == ProgressView::Done(outcome_of(world, progress)),
    decreases questions,
{
    if let ProgressView::Pending(state) = progress {
        lemma_fewer(world, state);
        lemma_step(world, state);
        lemma_run(world, state.next(world.reply(state.question())), (questions - 1) as nat);
    }
}

/// In a world where every question has one answer, a request comes to what
/// [`decided`] says, after at most [`most_questions`] of them.
pub proof fn law_resolution_reaches_decision(
    world: World,
    env: Seq<Seq<u8>>,
    request_cwd: Seq<u8>,
    ceiling: CommandApprovalFilesystemConfig,
    policy_root: Seq<u8>,
    deny_paths: Seq<Seq<u8>>,
    questions: nat,
)
    requires
        questions >= most_questions(setup_of(request_cwd, ceiling, policy_root, deny_paths)),
    ensures
        run(
            world,
            started(env, request_cwd, Some(ceiling), policy_root, deny_paths),
            questions,
        ) == ProgressView::Done(
            decided(world, env, request_cwd, Some(ceiling), policy_root, deny_paths),
        ),
{
    let work = untouched(setup_of(request_cwd, ceiling, policy_root, deny_paths));
    lemma_grant_questions(work, 0, MAX_REQUESTED_GRANTS as int);
    lemma_run(world, started(env, request_cwd, Some(ceiling), policy_root, deny_paths), questions);
}

/// Without a ceiling nothing is ever asked: there is no request and so no grant,
/// or the request is refused.
pub proof fn law_no_ceiling_no_question(
    world: World,
    env: Seq<Seq<u8>>,
    request_cwd: Seq<u8>,
    policy_root: Seq<u8>,
    deny_paths: Seq<Seq<u8>>,
)
    ensures
        started(env, request_cwd, None, policy_root, deny_paths) == ProgressView::Done(
            decided(world, env, request_cwd, None, policy_root, deny_paths),
        ),
        requests(env).len() == 0 <==> started(
            env,
            request_cwd,
            None,
            policy_root,
            deny_paths,
        ) == ProgressView::Done(Ok(Seq::empty())),
{
}

/// What lies at a path that can be granted as `kind`.
pub open spec fn type_of(kind: CommandFilesystemGrantKind) -> FileType {
    match kind {
        CommandFilesystemGrantKind::File => FileType::File,
        CommandFilesystemGrantKind::Directory => FileType::Directory,
    }
}

/// Whether a grant keeps to the policy: it is not on `/`, the ceiling admits it,
/// and it is not for writing alone.
pub open spec fn bounded(
    grant: GrantView,
    read_roots: Seq<Seq<u8>>,
    write_roots: Seq<Seq<u8>>,
) -> bool {
    &&& !root(grant.path)
    &&& admitted(grant.path, grant.access, read_roots, write_roots)
    &&& grant.access != AccessMode::Write
}

/// Whether no two grants are on the same thing.
pub open spec fn distinct(grants: Seq<GrantView>) -> bool {
    forall|i: int, j: int|
        0 <= i < j < grants.len() ==> !same_target(#[trigger] grants[i], #[trigger] grants[j])
}

/// Whether `more` lets a command do all that `less` does.
pub open spec fn includes(more: AccessMode, less: AccessMode) -> bool {
    (reads(less) ==> reads(more)) && (writes(less) ==> writes(more))
}

/// Where the target of a grant is found.
proof fn lemma_target_from(grants: Seq<GrantView>, grant: GrantView, from: int)
    requires
        0 <= from <= grants.len(),
    ensures
        from <= target_from(grants, grant, from) <= grants.len(),
        target_from(grants, grant, from) < grants.len() ==> same_target(
            grants[target_from(grants, grant, from)],
            grant,
        ),
        forall|i: int|
            from <= i < target_from(grants, grant, from) ==> !same_target(
                #[trigger] grants[i],
                grant,
            ),
    decreases grants.len() - from,
{
    if from < grants.len() && !same_target(grants[from], grant) {
        lemma_target_from(grants, grant, from + 1);
    }
}

/// What adding a grant keeps: targets stay where they are and stay distinct, no
/// access is lost, and the new target is there.
proof fn lemma_absorbed(grants: Seq<GrantView>, grant: GrantView)
    requires
        distinct(grants),
    ensures
        distinct(absorbed(grants, grant)),
        grants.len() <= absorbed(grants, grant).len() <= grants.len() + 1,
        absorbed(grants, grant).len() > 0,
        absorbed(grants, grant).len() > grants.len() ==> absorbed(grants, grant) == grants.push(
            grant,
        ),
        forall|i: int|
            0 <= i < grants.len() ==> {
                let kept = #[trigger] absorbed(grants, grant)[i];
                &&& kept.path == grants[i].path
                &&& kept.kind == grants[i].kind
                &&& includes(kept.access, grants[i].access)
                &&& writes(kept.access) ==> writes(grants[i].access) || (writes(grant.access)
                    && same_target(grants[i], grant))
            },
        exists|i: int|
            #![trigger absorbed(grants, grant)[i]]
            0 <= i < absorbed(grants, grant).len() && same_target(absorbed(grants, grant)[i], grant)
                && includes(absorbed(grants, grant)[i].access, grant.access),
{
    lemma_target_from(grants, grant, 0);
    let at = target_from(grants, grant, 0);
    let result = absorbed(grants, grant);
    if at < grants.len() {
        assert(same_target(result[at], grant));
        assert forall|i: int, j: int| 0 <= i < j < result.len() implies !same_target(
            #[trigger] result[i],
            #[trigger] result[j],
        ) by {
            assert(!same_target(grants[i], grants[j]));
        }
    } else {
        assert(result[grants.len() as int] == grant);
        assert forall|i: int, j: int| 0 <= i < j < result.len() implies !same_target(
            #[trigger] result[i],
            #[trigger] result[j],
        ) by {
            if j < grants.len() {
                assert(!same_target(grants[i], grants[j]));
            } else {
                assert(!same_target(grants[i], grant));
            }
        }
    }
}

/// Whether a path may be granted only depends on its components.
proof fn lemma_same_admitted(
    left: GrantView,
    right: GrantView,
    access: AccessMode,
    read_roots: Seq<Seq<u8>>,
    write_roots: Seq<Seq<u8>>,
)
    requires
        same_target(left, right),
    ensures
        root(left.path) == root(right.path),
        admitted(left.path, access, read_roots, write_roots) == admitted(
            right.path,
            access,
            read_roots,
            write_roots,
        ),
{
    assert forall|roots: Seq<Seq<u8>>| below_any(left.path, roots) == below_any(
        right.path,
        roots,
    ) by {
        if below_any(left.path, roots) {
            let i = choose|i: int| 0 <= i < roots.len() && below(left.path, #[trigger] roots[i]);
            assert(below(right.path, roots[i]));
        }
        if below_any(right.path, roots) {
            let i = choose|i: int| 0 <= i < roots.len() && below(right.path, #[trigger] roots[i]);
            assert(below(left.path, roots[i]));
        }
    }
}

/// Merging bounded grants gives a bounded grant.
proof fn lemma_bounded(
    grants: Seq<GrantView>,
    grant: GrantView,
    read_roots: Seq<Seq<u8>>,
    write_roots: Seq<Seq<u8>>,
)
    requires
        distinct(grants),
        forall|i: int|
            0 <= i < grants.len() ==> bounded(#[trigger] grants[i], read_roots, write_roots),
        bounded(grant, read_roots, write_roots),
    ensures
        forall|i: int|
            0 <= i < absorbed(grants, grant).len() ==> bounded(
                #[trigger] absorbed(grants, grant)[i],
                read_roots,
                write_roots,
            ),
{
    lemma_absorbed(grants, grant);
    let result = absorbed(grants, grant);
    assert forall|i: int| 0 <= i < result.len() implies bounded(
        #[trigger] result[i],
        read_roots,
        write_roots,
    ) by {
        if i < grants.len() {
            assert(bounded(grants[i], read_roots, write_roots));
            if same_target(grants[i], grant) {
                lemma_same_admitted(
                    grants[i],
                    grant,
                    grant.access,
                    read_roots,
                    write_roots,
                );
            }
        }
    }
}

/// Whether a state keeps to the policy: there are no more grants than requests
/// were settled, each of them is bounded by the ceiling, and no two are on the
/// same thing.
pub open spec fn in_bounds(state: ResolutionView) -> bool {
    let work = state.work;
    &&& state.wf()
    &&& distinct(work.grants)
    &&& forall|i: int|
        0 <= i < work.grants.len() ==> bounded(
            #[trigger] work.grants[i],
            work.read_roots,
            work.write_roots,
        )
    &&& work.requested.len() <= MAX_REQUESTED_GRANTS
    &&& match state.stage {
        StageView::GrantCanonical { index, path } => work.grants.len() <= index,
        StageView::GrantInspect { index, path } => work.grants.len() <= index && !root(path),
        StageView::GrantDeny { index, path, deny } => work.grants.len() <= index && !root(path),
        _ => work.grants.len() == 0,
    }
}

/// Whether a resolution keeps to the policy, with `work` found out so far.
pub open spec fn progress_in_bounds(progress: ProgressView, work: WorkView) -> bool {
    match progress {
        ProgressView::Pending(state) => in_bounds(state),
        ProgressView::Done(Err(error)) => true,
        ProgressView::Done(Ok(grants)) => {
            &&& grants.len() <= MAX_REQUESTED_GRANTS
            &&& distinct(grants)
            &&& forall|i: int|
                0 <= i < grants.len() ==> bounded(
                    #[trigger] grants[i],
                    work.read_roots,
                    work.write_roots,
                )
        },
    }
}

/// Every resolution starts in bounds.
pub proof fn law_start_is_in_bounds(
    env: Seq<Seq<u8>>,
    request_cwd: Seq<u8>,
    ceiling: Option<CommandApprovalFilesystemConfig>,
    policy_root: Seq<u8>,
    deny_paths: Seq<Seq<u8>>,
)
    ensures
        match started(env, request_cwd, ceiling, policy_root, deny_paths) {
            ProgressView::Pending(state) => in_bounds(state),
            ProgressView::Done(Ok(grants)) => grants.len() == 0,
            ProgressView::Done(Err(error)) => true,
        },
{
}

/// Whatever the answers are, and even where they contradict each other, a
/// resolution stays in bounds: what it grants lies below the roots of the
/// ceiling that it found, and names each target once.
pub proof fn law_answers_keep_bounds(state: ResolutionView, answer: AnswerView)
    requires
        in_bounds(state),
    ensures
        progress_in_bounds(state.next(answer), state.work),
{
    let work = state.work;
    match (state.stage, answer) {
        (StageView::GrantInspect { index, path }, AnswerView::Inspected(Some(found))) => {
            lemma_settle_in_bounds(work, index, path);
        },
        (StageView::GrantDeny { index, path, deny }, AnswerView::Canonical(canonical)) => {
            lemma_settle_in_bounds(work, index, path);
        },
        _ => {},
    }
}

proof fn lemma_settle_in_bounds(work: WorkView, index: int, path: Seq<u8>)
    requires
        0 <= index < work.requested.len() <= MAX_REQUESTED_GRANTS,
        work.grants.len() <= index,
        !root(path),
        distinct(work.grants),
        forall|i: int|
            0 <= i < work.grants.len() ==> bounded(
                #[trigger] work.grants[i],
                work.read_roots,
                work.write_roots,
            ),
    ensures
        progress_in_bounds(work.settle(index, path), work),
{
    let access = normalized(work.requested[index].access);
    let grant = GrantView { path, access, kind: work.requested[index].kind };
    if admitted(path, access, work.read_roots, work.write_roots) {
        lemma_absorbed(work.grants, grant);
        lemma_bounded(work.grants, grant, work.read_roots, work.write_roots);
    }
}

/// What a world lets a resolution find out about a request that can be read.
pub open spec fn found(world: World, setup: Setup, encoded: Seq<u8>) -> WorkView {
    let cwd = (world.canonical)(setup.request_cwd)->Some_0;
    WorkView {
        setup,
        requested: (world.envelope)(encoded)->Ok_0,
        cwd,
        read_roots: roots_from(world, setup, cwd, setup.read_entries, Seq::empty())->Ok_0,
        write_roots: roots_from(world, setup, cwd, setup.write_entries, Seq::empty())->Ok_0,
        grants: Seq::empty(),
    }
}

/// The grants that the first `count` requests are for.
pub open spec fn asked(world: World, work: WorkView, count: nat) -> Seq<GrantView> {
    Seq::new(count, |j: int| grant_for(world, work, work.requested[j])->Ok_0)
}

/// Whether a grant is right in a world: the policy bounds it, nothing that it
/// reaches is denied, and what it is on is there.
pub open spec fn proper(world: World, work: WorkView, grant: GrantView) -> bool {
    &&& bounded(grant, work.read_roots, work.write_roots)
    &&& !reaches_denied(world, work.setup.deny_paths, grant.path, grant.kind, 0)
    &&& (world.inspected)(grant.path) == Some(type_of(grant.kind))
}

/// Whether one of the grants gives what `ask` asks for.
pub open spec fn covered(grants: Seq<GrantView>, ask: GrantView) -> bool {
    exists|i: int|
        #![trigger grants[i]]
        0 <= i < grants.len() && same_target(grants[i], ask) && includes(
            grants[i].access,
            ask.access,
        )
}

/// Whether one of `asks` asks for all that `grant` gives.
pub open spec fn wanted(asks: Seq<GrantView>, grant: GrantView) -> bool {
    exists|j: int|
        #![trigger asks[j]]
        0 <= j < asks.len() && same_target(grant, asks[j]) && includes(asks[j].access, grant.access)
}

/// Whether `grants` give what `asks` ask for, and no more.
pub open spec fn matched(asks: Seq<GrantView>, grants: Seq<GrantView>) -> bool {
    &&& forall|j: int| 0 <= j < asks.len() ==> covered(grants, #[trigger] asks[j])
    &&& forall|i: int| 0 <= i < grants.len() ==> wanted(asks, #[trigger] grants[i])
}

proof fn lemma_still_covered(grants: Seq<GrantView>, grant: GrantView, ask: GrantView)
    requires
        distinct(grants),
        covered(grants, ask),
    ensures
        covered(absorbed(grants, grant), ask),
{
    lemma_absorbed(grants, grant);
    let i = choose|i: int|
        #![trigger grants[i]]
        0 <= i < grants.len() && same_target(grants[i], ask) && includes(
            grants[i].access,
            ask.access,
        );
    assert(same_target(absorbed(grants, grant)[i], ask));
}

proof fn lemma_still_wanted(
    asks: Seq<GrantView>,
    grants: Seq<GrantView>,
    grant: GrantView,
    i: int,
)
    requires
        distinct(grants),
        0 <= i < grants.len(),
        wanted(asks, grants[i]),
        forall|j: int| 0 <= j < asks.len() ==> reads((#[trigger] asks[j]).access),
        reads(grant.access),
    ensures
        wanted(asks.push(grant), absorbed(grants, grant)[i]),
{
    lemma_absorbed(grants, grant);
    let more = asks.push(grant);
    let kept = absorbed(grants, grant)[i];
    let j = choose|j: int|
        #![trigger asks[j]]
        0 <= j < asks.len() && same_target(grants[i], asks[j]) && includes(
            asks[j].access,
            grants[i].access,
        );
    if writes(kept.access) && !writes(grants[i].access) {
        assert(more[asks.len() as int] == grant);
        assert(same_target(kept, grant));
    } else {
        assert(more[j] == asks[j]);
        assert(same_target(kept, asks[j]));
    }
}

proof fn lemma_matched(asks: Seq<GrantView>, grants: Seq<GrantView>, grant: GrantView)
    requires
        distinct(grants),
        matched(asks, grants),
        forall|j: int| 0 <= j < asks.len() ==> reads((#[trigger] asks[j]).access),
        reads(grant.access),
    ensures
        matched(asks.push(grant), absorbed(grants, grant)),
{
    let more = asks.push(grant);
    let result = absorbed(grants, grant);
    lemma_absorbed(grants, grant);
    assert forall|j: int| 0 <= j < more.len() implies covered(result, #[trigger] more[j]) by {
        if j < asks.len() {
            assert(more[j] == asks[j]);
            lemma_still_covered(grants, grant, asks[j]);
        }
    }
    assert forall|i: int| 0 <= i < result.len() implies wanted(more, #[trigger] result[i]) by {
        if i < grants.len() {
            assert(wanted(asks, grants[i]));
            lemma_still_wanted(asks, grants, grant, i);
        } else {
            assert(more[asks.len() as int] == grant);
            assert(result[i] == grant);
        }
    }
}

/// Whether `grants` are right, and what the first `count` requests ask for.
spec fn answers_requests(world: World, work: WorkView, grants: Seq<GrantView>, count: nat) -> bool {
    let asks = asked(world, work, count);
    &&& distinct(grants)
    &&& grants.len() <= count
    &&& count > 0 ==> grants.len() > 0
    &&& forall|i: int| 0 <= i < grants.len() ==> proper(world, work, #[trigger] grants[i])
    &&& forall|j: int| 0 <= j < count ==> reads((#[trigger] asks[j]).access)
    &&& matched(asks, grants)
}

proof fn lemma_grant_for(world: World, work: WorkView, request: RequestView)
    ensures
        grant_for(world, work, request) matches Ok(grant) ==> proper(world, work, grant) && reads(
            grant.access,
        ),
{
}

proof fn lemma_proper(world: World, work: WorkView, grants: Seq<GrantView>, grant: GrantView)
    requires
        distinct(grants),
        forall|i: int| 0 <= i < grants.len() ==> proper(world, work, #[trigger] grants[i]),
        proper(world, work, grant),
    ensures
        forall|i: int|
            0 <= i < absorbed(grants, grant).len() ==> proper(
                world,
                work,
                #[trigger] absorbed(grants, grant)[i],
            ),
{
    let result = absorbed(grants, grant);
    assert forall|i: int| 0 <= i < grants.len() implies bounded(
        #[trigger] grants[i],
        work.read_roots,
        work.write_roots,
    ) by {
        assert(proper(world, work, grants[i]));
    }
    lemma_absorbed(grants, grant);
    lemma_bounded(grants, grant, work.read_roots, work.write_roots);
    assert forall|i: int| 0 <= i < result.len() implies proper(
        world,
        work,
        #[trigger] result[i],
    ) by {
        assert(bounded(result[i], work.read_roots, work.write_roots));
        if i < grants.len() {
            assert(proper(world, work, grants[i]));
        } else {
            assert(result[i] == grant);
        }
    }
}

proof fn lemma_one_more(
    world: World,
    work: WorkView,
    grants: Seq<GrantView>,
    index: nat,
    grant: GrantView,
)
    requires
        index < work.requested.len(),
        answers_requests(world, work, grants, index),
        grant_for(world, work, work.requested[index as int]) == Ok::<GrantView, ErrorView>(grant),
    ensures
        answers_requests(world, work, absorbed(grants, grant), index + 1),
{
    let asks = asked(world, work, index);
    let more = asked(world, work, index + 1);
    lemma_grant_for(world, work, work.requested[index as int]);
    assert(more =~= asks.push(grant));
    lemma_absorbed(grants, grant);
    lemma_proper(world, work, grants, grant);
    lemma_matched(asks, grants, grant);
    assert forall|j: int| 0 <= j < index + 1 implies reads((#[trigger] more[j]).access) by {
        if j < index {
            assert(more[j] == asks[j]);
        }
    }
}

proof fn lemma_grants_from(world: World, work: WorkView, grants: Seq<GrantView>, index: nat)
    requires
        index <= work.requested.len(),
        answers_requests(world, work, grants, index),
    ensures
        grants_from(world, WorkView { grants, ..work }, index as int) matches Ok(all)
            ==> answers_requests(world, work, all, work.requested.len()),
    decreases work.requested.len() - index,
{
    let here = WorkView { grants, ..work };
    if index < work.requested.len() {
        let request = work.requested[index as int];
        assert(grant_for(world, here, request) == grant_for(world, work, request));
        if let Ok(grant) = grant_for(world, work, request) {
            lemma_one_more(world, work, grants, index, grant);
            lemma_grants_from(world, work, absorbed(grants, grant), index + 1);
        }
    }
}

/// The grants that a request comes to are right, one for each target.
///
/// Each lies below a root of the ceiling that admits its access, is not `/`,
/// reaches nothing that is denied, is on what was asked for, and is for reading
/// or for reading and writing.
pub proof fn law_grants_are_proper(
    world: World,
    env: Seq<Seq<u8>>,
    request_cwd: Seq<u8>,
    ceiling: CommandApprovalFilesystemConfig,
    policy_root: Seq<u8>,
    deny_paths: Seq<Seq<u8>>,
    grants: Seq<GrantView>,
)
    requires
        requests(env).len() == 1,
        decided(world, env, request_cwd, Some(ceiling), policy_root, deny_paths) == Ok::<
            Seq<GrantView>,
            ErrorView,
        >(grants),
    ensures
        1 <= grants.len() <= MAX_REQUESTED_GRANTS,
        distinct(grants),
        forall|i: int|
            0 <= i < grants.len() ==> proper(
                world,
                found(
                    world,
                    setup_of(request_cwd, ceiling, policy_root, deny_paths),
                    requests(env)[0],
                ),
                #[trigger] grants[i],
            ),
{
    let setup = setup_of(request_cwd, ceiling, policy_root, deny_paths);
    lemma_decided(world, setup, requests(env)[0], grants);
}

/// Every request that is granted gets what it asks for, and nothing is granted
/// that no request asks for.
pub proof fn law_grants_are_what_was_asked(
    world: World,
    env: Seq<Seq<u8>>,
    request_cwd: Seq<u8>,
    ceiling: CommandApprovalFilesystemConfig,
    policy_root: Seq<u8>,
    deny_paths: Seq<Seq<u8>>,
    grants: Seq<GrantView>,
)
    requires
        requests(env).len() == 1,
        decided(world, env, request_cwd, Some(ceiling), policy_root, deny_paths) == Ok::<
            Seq<GrantView>,
            ErrorView,
        >(grants),
    ensures
        ({
            let setup = setup_of(request_cwd, ceiling, policy_root, deny_paths);
            let work = found(world, setup, requests(env)[0]);
            matched(asked(world, work, work.requested.len()), grants)
        }),
{
    let setup = setup_of(request_cwd, ceiling, policy_root, deny_paths);
    lemma_decided(world, setup, requests(env)[0], grants);
}

proof fn lemma_decided(world: World, setup: Setup, encoded: Seq<u8>, grants: Seq<GrantView>)
    requires
        after_reading(world, untouched(setup), encoded) == Ok::<Seq<GrantView>, ErrorView>(grants),
    ensures
        1 <= found(world, setup, encoded).requested.len() <= MAX_REQUESTED_GRANTS,
        answers_requests(
            world,
            found(world, setup, encoded),
            grants,
            found(world, setup, encoded).requested.len(),
        ),
{
    let work = found(world, setup, encoded);
    let none = Seq::<GrantView>::empty();
    assert(answers_requests(world, work, none, 0));
    lemma_grants_from(world, work, none, 0);
    assert((WorkView { grants: none, ..work }) == work);
}

/// Under a ceiling without roots for writing nothing is granted for writing.
pub proof fn law_read_only_ceiling(
    world: World,
    env: Seq<Seq<u8>>,
    request_cwd: Seq<u8>,
    ceiling: CommandApprovalFilesystemConfig,
    policy_root: Seq<u8>,
    deny_paths: Seq<Seq<u8>>,
    grants: Seq<GrantView>,
)
    requires
        ceiling.write_roots@.len() == 0,
        decided(world, env, request_cwd, Some(ceiling), policy_root, deny_paths) == Ok::<
            Seq<GrantView>,
            ErrorView,
        >(grants),
    ensures
        forall|i: int|
            0 <= i < grants.len() ==> (#[trigger] grants[i]).access == AccessMode::Read,
{
    if requests(env).len() == 1 {
        law_grants_are_proper(
            world,
            env,
            request_cwd,
            ceiling,
            policy_root,
            deny_paths,
            grants,
        );
    }
}

/// The roots of a ceiling are one for each entry, in order, if every entry names
/// one; else the first entry that names none decides. The first entries may be
/// known already.
pub proof fn law_roots_follow_entries(
    world: World,
    setup: Setup,
    cwd: Seq<u8>,
    entries: Seq<Seq<char>>,
    known: Seq<Seq<u8>>,
)
    requires
        known.len() <= entries.len(),
    ensures
        roots_from(world, setup, cwd, entries, known) is Ok <==> forall|i: int|
            known.len() <= i < entries.len() ==> root_for(
                world,
                setup,
                cwd,
                #[trigger] entries[i],
            ) is Ok,
        roots_from(world, setup, cwd, entries, known) matches Ok(roots) ==> {
            &&& roots.len() == entries.len()
            &&& forall|i: int| 0 <= i < known.len() ==> #[trigger] roots[i] == known[i]
            &&& forall|i: int|
                known.len() <= i < entries.len() ==> root_for(
                    world,
                    setup,
                    cwd,
                    #[trigger] entries[i],
                ) == Ok::<Seq<u8>, ErrorView>(roots[i])
        },
        forall|bad: int|
            known.len() <= bad < entries.len() && root_for(
                world,
                setup,
                cwd,
                #[trigger] entries[bad],
            ) is Err && (forall|i: int|
                known.len() <= i < bad ==> root_for(
                    world,
                    setup,
                    cwd,
                    #[trigger] entries[i],
                ) is Ok) ==> roots_from(world, setup, cwd, entries, known) == Err::<
                Seq<Seq<u8>>,
                ErrorView,
            >(root_for(world, setup, cwd, entries[bad])->Err_0),
    decreases entries.len() - known.len(),
{
    if known.len() < entries.len() {
        let next = known.len() as int;
        if let Ok(path) = root_for(world, setup, cwd, entries[next]) {
            let more = known.push(path);
            law_roots_follow_entries(world, setup, cwd, entries, more);
            if let Ok(roots) = roots_from(world, setup, cwd, entries, known) {
                assert(roots[next] == more[next]);
                assert forall|i: int| 0 <= i < known.len() implies #[trigger] roots[i]
                    == known[i] by {
                    assert(roots[i] == more[i]);
                }
            }
        }
    }
}

/// The grants of `asks`, merged by target.
pub open spec fn collected(asks: Seq<GrantView>) -> Seq<GrantView>
    decreases asks.len(),
{
    if asks.len() == 0 {
        Seq::empty()
    } else {
        absorbed(collected(asks.drop_last()), asks.last())
    }
}

/// Whether every request from `from` on has a grant.
pub open spec fn all_granted(world: World, work: WorkView, from: int) -> bool {
    forall|j: int|
        from <= j < work.requested.len() ==> grant_for(
            world,
            work,
            #[trigger] work.requested[j],
        ) is Ok
}

/// Whether the request at `bad` is the first one from `from` on without a grant.
pub open spec fn first_bad(world: World, work: WorkView, from: int, bad: int) -> bool {
    &&& from <= bad < work.requested.len()
    &&& grant_for(world, work, work.requested[bad]) is Err
    &&& forall|j: int|
        from <= j < bad ==> grant_for(world, work, #[trigger] work.requested[j]) is Ok
}

proof fn lemma_collected(world: World, work: WorkView, index: nat)
    requires
        index <= work.requested.len(),
    ensures
        ({
            let here = WorkView { grants: collected(asked(world, work, index)), ..work };
            let result = grants_from(world, here, index as int);
            &&& result is Ok <==> all_granted(world, work, index as int)
            &&& result matches Ok(grants) ==> grants == collected(
                asked(world, work, work.requested.len()),
            )
            &&& forall|bad: int| #[trigger]
                first_bad(world, work, index as int, bad) ==> result == Err::<
                    Seq<GrantView>,
                    ErrorView,
                >(grant_for(world, work, work.requested[bad])->Err_0)
        }),
    decreases work.requested.len() - index,
{
    let asks = asked(world, work, index);
    let here = WorkView { grants: collected(asks), ..work };
    if index < work.requested.len() {
        let request = work.requested[index as int];
        assert(grant_for(world, here, request) == grant_for(world, work, request));
        match grant_for(world, work, request) {
            Err(error) => {
                assert forall|bad: int| #[trigger]
                    first_bad(world, work, index as int, bad) implies bad == index by {
                    if bad > index {
                        assert(grant_for(world, work, work.requested[index as int]) is Ok);
                    }
                }
            },
            Ok(grant) => {
                let more = asked(world, work, index + 1);
                assert(more =~= asks.push(grant));
                assert(more.drop_last() =~= asks);
                lemma_collected(world, work, index + 1);
                assert(all_granted(world, work, index as int) == all_granted(
                    world,
                    work,
                    (index + 1) as int,
                ));
                assert forall|bad: int| #[trigger]
                    first_bad(world, work, index as int, bad) implies first_bad(
                    world,
                    work,
                    (index + 1) as int,
                    bad,
                ) by {}
            },
        }
    }
}

/// Whether the request text can be read, asks for something and not for too much,
/// and the working directory and all roots of the ceiling are there.
pub open spec fn ready(world: World, setup: Setup, encoded: Seq<u8>) -> bool {
    &&& (world.envelope)(encoded) matches Ok(requested) && 0 < requested.len()
        <= MAX_REQUESTED_GRANTS
    &&& (world.canonical)(setup.request_cwd) matches Some(cwd) && roots_from(
        world,
        setup,
        cwd,
        setup.read_entries,
        Seq::empty(),
    ) is Ok && roots_from(world, setup, cwd, setup.write_entries, Seq::empty()) is Ok
}

/// A list of requests is granted if and only if each of them is; the grants are
/// then those that are asked for, merged by target. Else the first request
/// without a grant decides.
pub proof fn law_first_bad_request_decides(
    world: World,
    env: Seq<Seq<u8>>,
    request_cwd: Seq<u8>,
    ceiling: CommandApprovalFilesystemConfig,
    policy_root: Seq<u8>,
    deny_paths: Seq<Seq<u8>>,
)
    requires
        requests(env).len() == 1,
        ready(
            world,
            setup_of(request_cwd, ceiling, policy_root, deny_paths),
            requests(env)[0],
        ),
    ensures
        ({
            let setup = setup_of(request_cwd, ceiling, policy_root, deny_paths);
            let work = found(world, setup, requests(env)[0]);
            let result = decided(
                world,
                env,
                request_cwd,
                Some(ceiling),
                policy_root,
                deny_paths,
            );
            &&& result is Ok <==> all_granted(world, work, 0)
            &&& result matches Ok(grants) ==> grants == collected(
                asked(world, work, work.requested.len()),
            )
            &&& forall|bad: int| #[trigger]
                first_bad(world, work, 0, bad) ==> result == Err::<Seq<GrantView>, ErrorView>(
                    grant_for(world, work, work.requested[bad])->Err_0,
                )
        }),
{
    let setup = setup_of(request_cwd, ceiling, policy_root, deny_paths);
    let work = found(world, setup, requests(env)[0]);
    assert(asked(world, work, 0) =~= Seq::<GrantView>::empty());
    assert((WorkView { grants: collected(asked(world, work, 0)), ..work }) == work);
    lemma_collected(world, work, 0);
}

/// Whether every ask for the target of `grant` is for reading.
pub open spec fn only_read(asks: Seq<GrantView>, grant: GrantView) -> bool {
    forall|j: int|
        0 <= j < asks.len() && same_target(#[trigger] asks[j], grant) ==> asks[j].access
            == AccessMode::Read
}

/// Whether `grants` stand for the targets of `asks`, in the order in which these
/// first occur, each under the path of its first occurrence.
pub open spec fn in_first_order(asks: Seq<GrantView>, grants: Seq<GrantView>) -> bool {
    &&& forall|i: int|
        0 <= i < grants.len() ==> {
            let first = target_from(asks, #[trigger] grants[i], 0);
            &&& first < asks.len()
            &&& asks[first].path == grants[i].path
            &&& asks[first].kind == grants[i].kind
        }
    &&& forall|i: int, j: int|
        0 <= i < j < grants.len() ==> target_from(asks, #[trigger] grants[i], 0) < target_from(
            asks,
            #[trigger] grants[j],
            0,
        )
}

/// A target that occurs does so at the same first place in a longer list.
proof fn lemma_first_stays(asks: Seq<GrantView>, ask: GrantView, grant: GrantView, from: int)
    requires
        0 <= from <= asks.len(),
    ensures
        target_from(asks, grant, from) < asks.len() ==> target_from(asks.push(ask), grant, from)
            == target_from(asks, grant, from),
        target_from(asks, grant, from) == asks.len() && same_target(ask, grant) ==> target_from(
            asks.push(ask),
            grant,
            from,
        ) == asks.len(),
    decreases asks.len() - from,
{
    lemma_target_from(asks, grant, from);
    if from < asks.len() && !same_target(asks[from], grant) {
        lemma_first_stays(asks, ask, grant, from + 1);
    }
}

/// Where a target is first found only depends on the target.
proof fn lemma_same_first(asks: Seq<GrantView>, left: GrantView, right: GrantView, from: int)
    requires
        0 <= from <= asks.len(),
        same_target(left, right),
    ensures
        target_from(asks, left, from) == target_from(asks, right, from),
    decreases asks.len() - from,
{
    if from < asks.len() && !same_target(asks[from], left) {
        lemma_same_first(asks, left, right, from + 1);
    }
}

/// Grants come in the order in which their targets first occur among what is
/// asked for, each target once and under the path of its first occurrence; and a
/// grant is for reading exactly where every ask for its target is, and else for
/// reading and writing.
pub proof fn law_grants_in_order_of_first_ask(asks: Seq<GrantView>)
    requires
        forall|j: int| 0 <= j < asks.len() ==> (#[trigger] asks[j]).access != AccessMode::Write,
    ensures
        distinct(collected(asks)),
        in_first_order(asks, collected(asks)),
        forall|j: int| 0 <= j < asks.len() ==> covered(collected(asks), #[trigger] asks[j]),
        forall|i: int|
            0 <= i < collected(asks).len() ==> (#[trigger] collected(asks)[i]).access == if only_read(
                asks,
                collected(asks)[i],
            ) {
                AccessMode::Read
            } else {
                AccessMode::ReadWrite
            },
    decreases asks.len(),
{
    if asks.len() > 0 {
        let front = asks.drop_last();
        let ask = asks.last();
        let before = collected(front);
        let after = collected(asks);
        assert(asks =~= front.push(ask));
        assert forall|j: int| 0 <= j < front.len() implies (#[trigger] front[j]).access
            != AccessMode::Write by {
            assert(front[j] == asks[j]);
        }
        law_grants_in_order_of_first_ask(front);
        lemma_absorbed(before, ask);
        lemma_target_from(before, ask, 0);
        let at = target_from(before, ask, 0);
        assert forall|i: int| 0 <= i < before.len() implies target_from(
            asks,
            #[trigger] after[i],
            0,
        ) == target_from(front, before[i], 0) by {
            lemma_first_stays(front, ask, before[i], 0);
            lemma_same_first(asks, after[i], before[i], 0);
        }
        if at == before.len() {
            lemma_target_from(front, ask, 0);
            let old_first = target_from(front, ask, 0);
            if old_first < front.len() {
                assert(covered(before, front[old_first]));
                let i = choose|i: int|
                    #![trigger before[i]]
                    0 <= i < before.len() && same_target(before[i], front[old_first]) && includes(
                        before[i].access,
                        front[old_first].access,
                    );
                assert(same_target(before[i], ask));
            }
            lemma_first_stays(front, ask, ask, 0);
            assert(target_from(asks, after[before.len() as int], 0) == front.len());
        }
        lemma_order_step(front, ask);
        assert forall|j: int| 0 <= j < asks.len() implies covered(after, #[trigger] asks[j]) by {
            if j < front.len() {
                assert(asks[j] == front[j]);
                lemma_still_covered(before, ask, front[j]);
            }
        }
        assert forall|i: int| 0 <= i < after.len() implies (#[trigger] after[i]).access
            == if only_read(asks, after[i]) {
            AccessMode::Read
        } else {
            AccessMode::ReadWrite
        } by {
            lemma_access_step(front, ask, i);
        }
    }
}

proof fn lemma_order_step(front: Seq<GrantView>, ask: GrantView)
    requires
        ({
            let asks = front.push(ask);
            let before = collected(front);
            let after = absorbed(before, ask);
            &&& in_first_order(front, before)
            &&& forall|i: int|
                0 <= i < before.len() ==> {
                    &&& target_from(asks, #[trigger] after[i], 0) == target_from(
                        front,
                        before[i],
                        0,
                    )
                    &&& after[i].path == before[i].path
                    &&& after[i].kind == before[i].kind
                }
            &&& before.len() <= after.len() <= before.len() + 1
            &&& after.len() > before.len() ==> after == before.push(ask) && target_from(
                asks,
                after[before.len() as int],
                0,
            ) == front.len()
        }),
    ensures
        in_first_order(front.push(ask), absorbed(collected(front), ask)),
{
    let asks = front.push(ask);
    let before = collected(front);
    let after = absorbed(before, ask);
    assert forall|i: int| 0 <= i < after.len() implies {
        let first = target_from(asks, #[trigger] after[i], 0);
        &&& first < asks.len()
        &&& asks[first].path == after[i].path
        &&& asks[first].kind == after[i].kind
    } by {
        if i < before.len() {
            lemma_target_from(front, before[i], 0);
            assert(target_from(front, before[i], 0) < front.len());
            assert(asks[target_from(front, before[i], 0)] == front[target_from(
                front,
                before[i],
                0,
            )]);
        } else {
            assert(after[i] == ask);
        }
    }
    assert forall|i: int, j: int| 0 <= i < j < after.len() implies target_from(
        asks,
        #[trigger] after[i],
        0,
    ) < target_from(asks, #[trigger] after[j], 0) by {
        assert(target_from(front, before[i], 0) < front.len());
        if j < before.len() {
            assert(target_from(front, before[i], 0) < target_from(front, before[j], 0));
        }
    }
}

proof fn lemma_access_step(front: Seq<GrantView>, ask: GrantView, i: int)
    requires
        ask.access != AccessMode::Write,
        distinct(collected(front)),
        0 <= i < absorbed(collected(front), ask).len(),
        forall|j: int|
            0 <= j < front.len() ==> covered(collected(front), #[trigger] front[j]),
        forall|k: int|
            0 <= k < collected(front).len() ==> (#[trigger] collected(front)[k]).access
                == if only_read(front, collected(front)[k]) {
                AccessMode::Read
            } else {
                AccessMode::ReadWrite
            },
    ensures
        absorbed(collected(front), ask)[i].access == if only_read(
            front.push(ask),
            absorbed(collected(front), ask)[i],
        ) {
            AccessMode::Read
        } else {
            AccessMode::ReadWrite
        },
{
    let asks = front.push(ask);
    let before = collected(front);
    let after = absorbed(before, ask);
    let grant = after[i];
    lemma_absorbed(before, ask);
    lemma_target_from(before, ask, 0);
    assert(asks[front.len() as int] == ask);
    assert forall|j: int| 0 <= j < front.len() implies #[trigger] asks[j] == front[j] by {}
    if i < before.len() {
        let old_grant = before[i];
        assert(same_target(grant, old_grant));
        assert(only_read(front, grant) == only_read(front, old_grant)) by {
            if only_read(front, grant) {
                assert forall|j: int|
                    0 <= j < front.len() && same_target(#[trigger] front[j], old_grant) implies front[j].access
                    == AccessMode::Read by {
                    assert(same_target(front[j], grant));
                }
            }
            if only_read(front, old_grant) {
                assert forall|j: int|
                    0 <= j < front.len() && same_target(#[trigger] front[j], grant) implies front[j].access
                    == AccessMode::Read by {
                    assert(same_target(front[j], old_grant));
                }
            }
        }
        assert(only_read(asks, grant) == (only_read(front, grant) && (same_target(ask, grant)
            ==> ask.access == AccessMode::Read))) by {
            if only_read(asks, grant) {
                assert forall|j: int|
                    0 <= j < front.len() && same_target(#[trigger] front[j], grant) implies front[j].access
                    == AccessMode::Read by {
                    assert(asks[j] == front[j]);
                }
            }
        }
        if same_target(ask, grant) {
            let at = target_from(before, ask, 0);
            if at != i {
                assert(same_target(before[i], ask));
                assert(at < i);
                assert(same_target(before[at], before[i]));
            }
        } else {
            assert(!same_target(before[i], ask));
        }
    } else {
        assert(grant == ask);
        assert forall|j: int| 0 <= j < front.len() implies !same_target(#[trigger] front[j], ask) by {
            if same_target(front[j], ask) {
                assert(covered(before, front[j]));
                let k = choose|k: int|
                    #![trigger before[k]]
                    0 <= k < before.len() && same_target(before[k], front[j]) && includes(
                        before[k].access,
                        front[j].access,
                    );
                assert(same_target(before[k], ask));
            }
        }
        assert forall|j: int|
            0 <= j < asks.len() && same_target(#[trigger] asks[j], grant) implies j
            == front.len() by {
            if j < front.len() {
                assert(asks[j] == front[j]);
            }
        }
    }
}

/// Nothing is ever asked for writing alone.
proof fn lemma_asked_access(world: World, work: WorkView, count: nat)
    requires
        count <= work.requested.len(),
        forall|j: int|
            0 <= j < count ==> grant_for(world, work, #[trigger] work.requested[j]) is Ok,
    ensures
        forall|j: int|
            0 <= j < count ==> (#[trigger] asked(world, work, count)[j]).access
                == normalized(work.requested[j].access),
        forall|j: int|
            0 <= j < count ==> (#[trigger] asked(world, work, count)[j]).access
                != AccessMode::Write,
{
    assert forall|j: int| 0 <= j < count implies (#[trigger] asked(world, work, count)[j]).access
        == normalized(work.requested[j].access) by {
        assert(grant_for(world, work, work.requested[j]) is Ok);
    }
}

/// What a request comes to are grants in the order in which their targets are
/// first requested; a grant is for reading exactly where every request for its
/// target is.
pub proof fn law_decision_is_in_order(
    world: World,
    env: Seq<Seq<u8>>,
    request_cwd: Seq<u8>,
    ceiling: CommandApprovalFilesystemConfig,
    policy_root: Seq<u8>,
    deny_paths: Seq<Seq<u8>>,
    grants: Seq<GrantView>,
)
    requires
        requests(env).len() == 1,
        decided(world, env, request_cwd, Some(ceiling), policy_root, deny_paths) == Ok::<
            Seq<GrantView>,
            ErrorView,
        >(grants),
    ensures
        ({
            let setup = setup_of(request_cwd, ceiling, policy_root, deny_paths);
            let work = found(world, setup, requests(env)[0]);
            let asks = asked(world, work, work.requested.len());
            &&& all_granted(world, work, 0)
            &&& in_first_order(asks, grants)
            &&& forall|i: int|
                0 <= i < grants.len() ==> (#[trigger] grants[i]).access == if only_read(
                    asks,
                    grants[i],
                ) {
                    AccessMode::Read
                } else {
                    AccessMode::ReadWrite
                }
        }),
{
    let setup = setup_of(request_cwd, ceiling, policy_root, deny_paths);
    let work = found(world, setup, requests(env)[0]);
    assert(ready(world, setup, requests(env)[0]));
    law_first_bad_request_decides(world, env, request_cwd, ceiling, policy_root, deny_paths);
    lemma_asked_access(world, work, work.requested.len());
    law_grants_in_order_of_first_ask(asked(world, work, work.requested.len()));
}

} // verus!
