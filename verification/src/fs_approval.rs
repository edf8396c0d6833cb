//! Invocation-scoped filesystem requests for sandboxed commands.
//!
//! A live sandbox cannot be widened. A command therefore describes the exact
//! access that it wants in its environment, before it starts. The request is
//! held against an explicit ceiling of the policy, and what comes out are the
//! normalized grants to ask the approval backend for.
//!
//! Deciding needs answers from outside: what the request says, what a path
//! canonically is, what lies there. A [`Resolution`] is the state between two
//! such [`Question`]s; each [`Answer`] takes it to the next one or to the end.
use crate::error::{ApprovalError, ErrorView};
use crate::fs_model::{
    absorbed, below_any, overlaps, setup_of, started, target_from, ProgressView, ResolutionView,
    StageView, WorkView,
};
use crate::grant::{
    all_grants, merge_access, AccessMode, CommandFilesystemGrant, CommandFilesystemGrantKind,
    FilesystemRequestEnvelope, GrantView, RequestView, RequestedFilesystemGrant,
};
use crate::path;
use crate::path::{all_bytes, below, components};
use crate::policy::{CommandApprovalFilesystemConfig, CommandSandboxConfig};
use vstd::prelude::*;
use vstd::slice::slice_subrange;
use vstd::utf8::encode_utf8;

verus! {

/// The environment variable that holds a request.
pub const TOOL_SANDBOX_FS_REQUEST_ENV: &'static str = "NONO_TOOL_SANDBOX_FS_REQUEST";

/// What separates the name of an environment entry from its value.
pub const EQUALS: u8 = 0x3d;

/// How many grants one request may ask for.
pub const MAX_REQUESTED_GRANTS: usize = 32;

/// What an environment entry with a request starts with. The name of an entry
/// ends at its first `=`.
pub open spec fn request_lead() -> Seq<u8> {
    encode_utf8(TOOL_SANDBOX_FS_REQUEST_ENV@).push(EQUALS)
}

/// The requests in an environment, in order.
pub open spec fn requests(env: Seq<Seq<u8>>) -> Seq<Seq<u8>>
    decreases env.len(),
{
    if env.len() == 0 {
        Seq::empty()
    } else {
        let before = requests(env.drop_last());
        if request_lead().is_prefix_of(env.last()) {
            before.push(env.last().skip(request_lead().len() as int))
        } else {
            before
        }
    }
}

/// What lies at a path.
#[derive(Debug, Clone, Copy, PartialEq, Eq, Structural)]
pub enum FileType {
    File,
    Directory,
    Other,
}

/// What has to be found out before a request can be decided.
#[derive(Debug)]
pub enum Question {
    /// What does this JSON text ask for?
    Envelope(Vec<u8>),
    /// What is this path, with all links and dots resolved?
    Canonicalize(Vec<u8>),
    /// What path is this entry of the policy, with its variables expanded?
    Expand { entry: String, policy_root: Vec<u8> },
    /// What lies at this path?
    Inspect(Vec<u8>),
}

/// The contents of a `Question`.
pub enum QuestionView {
    Envelope(Seq<u8>),
    Canonicalize(Seq<u8>),
    Expand { entry: Seq<char>, policy_root: Seq<u8> },
    Inspect(Seq<u8>),
}

impl View for Question {
    type V = QuestionView;

    open spec fn view(&self) -> QuestionView {
        match self {
            Question::Envelope(text) => QuestionView::Envelope(text@),
            Question::Canonicalize(path) => QuestionView::Canonicalize(path@),
            Question::Expand { entry, policy_root } => QuestionView::Expand {
                entry: entry@,
                policy_root: policy_root@,
            },
            Question::Inspect(path) => QuestionView::Inspect(path@),
        }
    }
}

/// The answer to a `Question`.
#[derive(Debug)]
pub enum Answer {
    /// What the request asks for, or why it cannot be read.
    Envelope(Result<FilesystemRequestEnvelope, String>),
    /// The canonical path, where there is one.
    Canonical(Option<Vec<u8>>),
    /// The expanded path, where the expansion succeeds.
    Expanded(Option<Vec<u8>>),
    /// What lies there, where that can be found out.
    Inspected(Option<FileType>),
}

/// The contents of an `Answer`.
pub enum AnswerView {
    Envelope(Result<Seq<RequestView>, Seq<char>>),
    Canonical(Option<Seq<u8>>),
    Expanded(Option<Seq<u8>>),
    Inspected(Option<FileType>),
}

/// The contents of an optional byte string.
pub open spec fn maybe_bytes(bytes: Option<Vec<u8>>) -> Option<Seq<u8>> {
    match bytes {
        Some(bytes) => Some(bytes@),
        None => None,
    }
}

impl View for Answer {
    type V = AnswerView;

    open spec fn view(&self) -> AnswerView {
        match self {
            Answer::Envelope(Ok(envelope)) => AnswerView::Envelope(Ok(envelope@)),
            Answer::Envelope(Err(message)) => AnswerView::Envelope(Err(message@)),
            Answer::Canonical(path) => AnswerView::Canonical(maybe_bytes(*path)),
            Answer::Expanded(path) => AnswerView::Expanded(maybe_bytes(*path)),
            Answer::Inspected(found) => AnswerView::Inspected(*found),
        }
    }
}

/// What has been found out so far, and what it is held against.
#[derive(Debug)]
struct Work<'a> {
    request_cwd: &'a [u8],
    ceiling: &'a CommandApprovalFilesystemConfig,
    policy_root: &'a [u8],
    deny_paths: &'a [Vec<u8>],
    requested: Vec<RequestedFilesystemGrant>,
    cwd: Vec<u8>,
    read_roots: Vec<Vec<u8>>,
    write_roots: Vec<Vec<u8>>,
    grants: Vec<CommandFilesystemGrant>,
}

/// What is being waited for.
#[derive(Debug)]
enum Stage {
    Envelope { encoded: Vec<u8> },
    Cwd,
    RootExpand,
    RootCanonical { path: Vec<u8> },
    RootInspect { path: Vec<u8> },
    GrantCanonical { index: usize, path: Vec<u8> },
    GrantInspect { index: usize, path: Vec<u8> },
    GrantDeny { index: usize, path: Vec<u8>, deny: usize },
}

/// A request on its way to a decision, waiting for the answer to its question.
#[derive(Debug)]
pub struct Resolution<'a> {
    work: Work<'a>,
    stage: Stage,
}

/// A request that is decided, or that waits for an answer.
#[derive(Debug)]
pub enum Progress<'a> {
    Pending(Resolution<'a>),
    Done(Result<Vec<CommandFilesystemGrant>, ApprovalError>),
}

/// The contents of a list of requested grants.
pub open spec fn all_requests(list: Seq<RequestedFilesystemGrant>) -> Seq<RequestView> {
    Seq::new(list.len(), |i: int| list[i]@)
}

impl<'a> View for Work<'a> {
    type V = WorkView;

    closed spec fn view(&self) -> WorkView {
        WorkView {
            setup: setup_of(
                self.request_cwd@,
                *self.ceiling,
                self.policy_root@,
                all_bytes(self.deny_paths@),
            ),
            requested: all_requests(self.requested@),
            cwd: self.cwd@,
            read_roots: all_bytes(self.read_roots@),
            write_roots: all_bytes(self.write_roots@),
            grants: all_grants(self.grants@),
        }
    }
}

impl View for Stage {
    type V = StageView;

    closed spec fn view(&self) -> StageView {
        match self {
            Stage::Envelope { encoded } => StageView::Envelope { encoded: encoded@ },
            Stage::Cwd => StageView::Cwd,
            Stage::RootExpand => StageView::RootExpand,
            Stage::RootCanonical { path } => StageView::RootCanonical { path: path@ },
            Stage::RootInspect { path } => StageView::RootInspect { path: path@ },
            Stage::GrantCanonical { index, path } => StageView::GrantCanonical {
                index: *index as int,
                path: path@,
            },
            Stage::GrantInspect { index, path } => StageView::GrantInspect {
                index: *index as int,
                path: path@,
            },
            Stage::GrantDeny { index, path, deny } => StageView::GrantDeny {
                index: *index as int,
                path: path@,
                deny: *deny as int,
            },
        }
    }
}

impl<'a> View for Resolution<'a> {
    type V = ResolutionView;

    closed spec fn view(&self) -> ResolutionView {
        ResolutionView { work: self.work@, stage: self.stage@ }
    }
}

impl<'a> View for Progress<'a> {
    type V = ProgressView;

    open spec fn view(&self) -> ProgressView {
        match self {
            Progress::Pending(resolution) => ProgressView::Pending(resolution@),
            Progress::Done(Ok(grants)) => ProgressView::Done(Ok(all_grants(grants@))),
            Progress::Done(Err(error)) => ProgressView::Done(Err(error@)),
        }
    }
}

/// The request that an environment entry holds, where it does.
fn request_in(entry: &Vec<u8>) -> (request: Option<&[u8]>)
    ensures
        request is Some <==> request_lead().is_prefix_of(entry@),
        request matches Some(request) ==> request@ == entry@.skip(request_lead().len() as int),
{
    let name: &[u8] = TOOL_SANDBOX_FS_REQUEST_ENV.as_bytes();
    let bytes: &[u8] = entry.as_slice();
    if bytes.len() <= name.len() {
        return None;
    }
    let front: &[u8] = slice_subrange(bytes, 0, name.len());
    if !path::same_bytes(front, name) || bytes[name.len()] != EQUALS {
        proof {
            let lead = request_lead();
            if lead.is_prefix_of(entry@) {
                let start = entry@.subrange(0, lead.len() as int);
                assert(start[name@.len() as int] == EQUALS);
                assert(front@ =~= start.drop_last());
                assert(lead.drop_last() =~= name@);
            }
        }
        return None;
    }
    let request: &[u8] = slice_subrange(bytes, name.len() + 1, bytes.len());
    assert(request_lead() =~= entry@.subrange(0, request_lead().len() as int));
    assert(request@ =~= entry@.skip(request_lead().len() as int));
    Some(request)
}

/// The one request in an environment, where there is one.
pub fn find_request(request_env: &[Vec<u8>]) -> (found: Result<Option<&[u8]>, ApprovalError>)
    ensures
        found is Err <==> requests(all_bytes(request_env@)).len() > 1,
        found matches Err(error) ==> error@ == ErrorView::DuplicateRequest,
        found matches Ok(None) ==> requests(all_bytes(request_env@)).len() == 0,
        found matches Ok(Some(request)) ==> requests(all_bytes(request_env@)) == seq![request@],
        found matches Ok(None) <==> forall|i: int|
            0 <= i < request_env@.len() ==> !request_lead().is_prefix_of(
                #[trigger] request_env@[i]@,
            ),
        found matches Ok(Some(request)) ==> exists|i: int|
            0 <= i < request_env@.len() && #[trigger] request_env@[i]@ == request_lead() + request@
                && forall|j: int|
                0 <= j < request_env@.len() && j != i ==> !request_lead().is_prefix_of(
                    #[trigger] request_env@[j]@,
                ),
        found is Err <==> exists|i: int, j: int|
            0 <= i < j < request_env@.len() && request_lead().is_prefix_of(
                #[trigger] request_env@[i]@,
            ) && request_lead().is_prefix_of(#[trigger] request_env@[j]@),
{
    let ghost env = all_bytes(request_env@);
    let mut encoded: Option<&[u8]> = None;
    let mut i: usize = 0;
    assert(env.take(0) =~= Seq::<Seq<u8>>::empty());
    while i < request_env.len()
        invariant
            env == all_bytes(request_env@),
            i <= request_env@.len(),
            requests(env.take(i as int)) == match encoded {
                Some(request) => seq![request@],
                None => Seq::empty(),
            },
        decreases request_env@.len() - i,
    {
        let ghost next = env.take(i + 1);
        proof {
            assert(next.drop_last() =~= env.take(i as int));
            assert(next.last() == request_env@[i as int]@);
        }
        match request_in(&request_env[i]) {
            None => {},
            Some(request) => {
                assert(requests(next) == requests(env.take(i as int)).push(request@));
                if encoded.is_some() {
                    proof {
                        lemma_requests_grow(env, i + 1);
                        lemma_found(request_env@);
                    }
                    return Err(ApprovalError::DuplicateRequest);
                }
                encoded = Some(request);
                assert(requests(next) =~= seq![request@]);
            },
        }
        i += 1;
    }
    assert(env.take(i as int) =~= env);
    proof {
        lemma_found(request_env@);
    }
    Ok(encoded)
}

/// No position of an environment holds a request if and only if there is no
/// request; one position does if and only if there is one, and it is what follows
/// the `=` there; two different positions do if and only if there are more.
pub proof fn law_requests_by_position(env: Seq<Seq<u8>>)
    ensures
        requests(env).len() == 0 <==> forall|i: int|
            0 <= i < env.len() ==> !request_lead().is_prefix_of(#[trigger] env[i]),
        forall|i: int|
            0 <= i < env.len() && request_lead().is_prefix_of(#[trigger] env[i]) && (forall|j: int|
                0 <= j < env.len() && j != i ==> !request_lead().is_prefix_of(#[trigger] env[j]))
                ==> requests(env) == seq![env[i].skip(request_lead().len() as int)],
        requests(env).len() == 1 ==> exists|i: int|
            0 <= i < env.len() && #[trigger] env[i] == request_lead() + requests(env)[0]
                && forall|j: int|
                0 <= j < env.len() && j != i ==> !request_lead().is_prefix_of(#[trigger] env[j]),
        requests(env).len() > 1 <==> exists|i: int, j: int|
            0 <= i < j < env.len() && request_lead().is_prefix_of(#[trigger] env[i])
                && request_lead().is_prefix_of(#[trigger] env[j]),
    decreases env.len(),
{
    let lead = request_lead();
    let count = requests(env).len();
    if env.len() > 0 {
        let front = env.drop_last();
        let last = env.len() - 1;
        law_requests_by_position(front);
        assert(env.last() == env[last]);
        assert forall|i: int| 0 <= i < last implies #[trigger] env[i] == front[i] by {}
        assert forall|i: int| 0 <= i < last implies #[trigger] front[i] == env[i] by {}
        if lead.is_prefix_of(env[last]) {
            assert(env[last] =~= lead + env[last].skip(lead.len() as int));
            if count == 1 {
                assert(requests(env)[0] == env[last].skip(lead.len() as int));
                assert forall|j: int| 0 <= j < env.len() && j != last implies !lead.is_prefix_of(
                    #[trigger] env[j],
                ) by {
                    assert(front[j] == env[j]);
                }
            }
            if count > 1 {
                assert(requests(front).len() > 0);
                let i = choose|i: int| 0 <= i < front.len() && lead.is_prefix_of(#[trigger] front[i]);
                assert(lead.is_prefix_of(env[i]) && lead.is_prefix_of(env[last]));
            }
            assert forall|i: int|
                0 <= i < env.len() && lead.is_prefix_of(#[trigger] env[i]) && (forall|j: int|
                    0 <= j < env.len() && j != i ==> !lead.is_prefix_of(#[trigger] env[j])) implies requests(
                env,
            ) == seq![env[i].skip(lead.len() as int)] by {
                assert(i == last);
                assert forall|j: int| 0 <= j < front.len() implies !lead.is_prefix_of(
                    #[trigger] front[j],
                ) by {
                    assert(front[j] == env[j]);
                }
                assert(requests(front) =~= Seq::<Seq<u8>>::empty());
                assert(requests(env) =~= seq![env[i].skip(lead.len() as int)]);
            }
        } else {
            if count == 1 {
                let i = choose|i: int|
                    0 <= i < front.len() && #[trigger] front[i] == lead + requests(front)[0]
                        && forall|j: int|
                        0 <= j < front.len() && j != i ==> !lead.is_prefix_of(#[trigger] front[j]);
                assert(env[i] == lead + requests(env)[0]);
                assert forall|j: int| 0 <= j < env.len() && j != i implies !lead.is_prefix_of(
                    #[trigger] env[j],
                ) by {
                    if j < last {
                        assert(front[j] == env[j]);
                    }
                }
            }
            if count > 1 {
                let (i, j) = choose|i: int, j: int|
                    0 <= i < j < front.len() && lead.is_prefix_of(#[trigger] front[i])
                        && lead.is_prefix_of(#[trigger] front[j]);
                assert(lead.is_prefix_of(env[i]) && lead.is_prefix_of(env[j]));
            }
            assert forall|i: int|
                0 <= i < env.len() && lead.is_prefix_of(#[trigger] env[i]) && (forall|j: int|
                    0 <= j < env.len() && j != i ==> !lead.is_prefix_of(#[trigger] env[j])) implies requests(
                env,
            ) == seq![env[i].skip(lead.len() as int)] by {
                assert(front[i] == env[i]);
                assert forall|j: int| 0 <= j < front.len() && j != i implies !lead.is_prefix_of(
                    #[trigger] front[j],
                ) by {
                    assert(front[j] == env[j]);
                }
            }
        }
        if exists|i: int, j: int|
            0 <= i < j < env.len() && lead.is_prefix_of(#[trigger] env[i]) && lead.is_prefix_of(
                #[trigger] env[j],
            ) {
            let (i, j) = choose|i: int, j: int|
                0 <= i < j < env.len() && lead.is_prefix_of(#[trigger] env[i]) && lead.is_prefix_of(
                    #[trigger] env[j],
                );
            assert(lead.is_prefix_of(front[i]));
            if j < last {
                assert(lead.is_prefix_of(front[j]));
            }
        }
        if count == 0 {
            assert forall|i: int| 0 <= i < env.len() implies !lead.is_prefix_of(
                #[trigger] env[i],
            ) by {
                if i < last {
                    assert(!lead.is_prefix_of(front[i]));
                }
            }
        }
    }
}

/// The positions of an environment, by the contents of its entries.
proof fn lemma_found(env: Seq<Vec<u8>>)
    ensures
        ({
            let list = all_bytes(env);
            &&& requests(list).len() == 0 <==> forall|i: int|
                0 <= i < env.len() ==> !request_lead().is_prefix_of(#[trigger] env[i]@)
            &&& requests(list).len() == 1 ==> exists|i: int|
                0 <= i < env.len() && #[trigger] env[i]@ == request_lead() + requests(list)[0]
                    && forall|j: int|
                    0 <= j < env.len() && j != i ==> !request_lead().is_prefix_of(
                        #[trigger] env[j]@,
                    )
            &&& requests(list).len() > 1 <==> exists|i: int, j: int|
                0 <= i < j < env.len() && request_lead().is_prefix_of(#[trigger] env[i]@)
                    && request_lead().is_prefix_of(#[trigger] env[j]@)
        }),
{
    let list = all_bytes(env);
    let lead = request_lead();
    law_requests_by_position(list);
    assert forall|i: int| 0 <= i < env.len() implies #[trigger] env[i]@ == list[i] by {}
    assert forall|i: int| 0 <= i < list.len() implies #[trigger] list[i] == env[i]@ by {}
    if requests(list).len() == 1 {
        let i = choose|i: int|
            0 <= i < list.len() && #[trigger] list[i] == lead + requests(list)[0] && forall|j: int|
                0 <= j < list.len() && j != i ==> !lead.is_prefix_of(#[trigger] list[j]);
        assert(env[i]@ == lead + requests(list)[0]);
        assert forall|j: int| 0 <= j < env.len() && j != i implies !lead.is_prefix_of(
            #[trigger] env[j]@,
        ) by {
            assert(list[j] == env[j]@);
        }
    }
    if requests(list).len() > 1 {
        let (i, j) = choose|i: int, j: int|
            0 <= i < j < list.len() && lead.is_prefix_of(#[trigger] list[i]) && lead.is_prefix_of(
                #[trigger] list[j],
            );
        assert(lead.is_prefix_of(env[i]@) && lead.is_prefix_of(env[j]@));
    }
    if exists|i: int, j: int|
        0 <= i < j < env.len() && lead.is_prefix_of(#[trigger] env[i]@) && lead.is_prefix_of(
            #[trigger] env[j]@,
        ) {
        let (i, j) = choose|i: int, j: int|
            0 <= i < j < env.len() && lead.is_prefix_of(#[trigger] env[i]@) && lead.is_prefix_of(
                #[trigger] env[j]@,
            );
        assert(lead.is_prefix_of(list[i]) && lead.is_prefix_of(list[j]));
    }
    if requests(list).len() == 0 {
        assert forall|i: int| 0 <= i < env.len() implies !lead.is_prefix_of(#[trigger] env[i]@) by {
            assert(!lead.is_prefix_of(list[i]));
        }
    }
}

proof fn lemma_requests_grow(env: Seq<Seq<u8>>, end: int)
    requires
        0 <= end <= env.len(),
    ensures
        requests(env).len() >= requests(env.take(end)).len(),
    decreases env.len() - end,
{
    if end < env.len() {
        lemma_requests_grow(env, end + 1);
        assert(env.take(end + 1).drop_last() =~= env.take(end));
    } else {
        assert(env.take(end) =~= env);
    }
}

/// Whether a byte string holds a NUL.
fn has_nul(bytes: &[u8]) -> (yes: bool)
    ensures
        yes == bytes@.contains(0),
{
    let mut i: usize = 0;
    while i < bytes.len()
        invariant
            i <= bytes@.len(),
            forall|j: int| 0 <= j < i ==> bytes@[j] != 0,
        decreases bytes@.len() - i,
    {
        if bytes[i] == 0 {
            assert(bytes@[i as int] == 0);
            return true;
        }
        i += 1;
    }
    false
}

/// Whether a grant on `path` would reach into what `deny` denies.
pub fn overlaps_deny(path: &[u8], kind: CommandFilesystemGrantKind, deny: &[u8]) -> (yes: bool)
    ensures
        yes == overlaps(path@, kind, deny@),
        yes <==> components(deny@).is_prefix_of(components(path@)) || (kind
            == CommandFilesystemGrantKind::Directory && components(path@).is_prefix_of(
            components(deny@),
        )),
{
    path::starts_with(path, deny) || (kind == CommandFilesystemGrantKind::Directory
        && path::starts_with(deny, path))
}

/// Whether `path` is one of `roots` or lies below one of them.
fn is_below_any(path: &[u8], roots: &Vec<Vec<u8>>) -> (yes: bool)
    ensures
        yes == below_any(path@, all_bytes(roots@)),
        yes <==> exists|i: int|
            0 <= i < roots@.len() && components(#[trigger] roots@[i]@).is_prefix_of(
                components(path@),
            ),
{
    let ghost list = all_bytes(roots@);
    let mut i: usize = 0;
    while i < roots.len()
        invariant
            list == all_bytes(roots@),
            i <= roots@.len(),
            forall|j: int| 0 <= j < i ==> !below(path@, #[trigger] list[j]),
        decreases roots@.len() - i,
    {
        if path::starts_with(path, roots[i].as_slice()) {
            assert(below(path@, list[i as int]));
            assert(components(roots@[i as int]@).is_prefix_of(components(path@)));
            return true;
        }
        i += 1;
    }
    assert forall|j: int| 0 <= j < roots@.len() implies !components(
        #[trigger] roots@[j]@,
    ).is_prefix_of(components(path@)) by {
        assert(!below(path@, list[j]));
    }
    false
}

/// Adds a grant, or merges it into the one that its target has already.
fn absorb(grants: &mut Vec<CommandFilesystemGrant>, grant: CommandFilesystemGrant)
    ensures
        all_grants(final(grants)@) == absorbed(all_grants(old(grants)@), grant@),
{
    let ghost list = all_grants(grants@);
    let mut i: usize = 0;
    while i < grants.len()
        invariant
            list == all_grants(grants@),
            list == all_grants(old(grants)@),
            i <= grants@.len(),
            target_from(list, grant@, 0) == target_from(list, grant@, i as int),
        decreases grants@.len() - i,
    {
        assert(list[i as int] == grants@[i as int]@);
        if grants[i].kind == grant.kind && path::same_path(
            grants[i].path.as_slice(),
            grant.path.as_slice(),
        ) {
            let access: AccessMode = merge_access(grants[i].access, grant.access);
            grants[i].access = access;
            assert(all_grants(grants@) =~= absorbed(list, grant@));
            return;
        }
        i += 1;
    }
    grants.push(grant);
    assert(all_grants(grants@) =~= list.push(grant@));
}

impl<'a> Work<'a> {
    fn at(self, stage: Stage) -> (progress: Progress<'a>)
        requires
            (ResolutionView { work: self@, stage: stage@ }).wf(),
        ensures
            progress@ == self@.at(stage@),
    {
        Progress::Pending(Resolution { work: self, stage })
    }

    /// The root of the ceiling whose turn it is.
    fn entry(&self) -> (entry: String)
        requires
            self@.wants_root(),
        ensures
            entry@ == self@.entry(),
    {
        if self.read_roots.len() < self.ceiling.read_roots.len() {
            self.ceiling.read_roots[self.read_roots.len()].clone()
        } else {
            self.ceiling.write_roots[self.write_roots.len()].clone()
        }
    }

    fn next_root(self) -> (progress: Progress<'a>)
        ensures
            progress@ == self@.next_root(),
    {
        if self.read_roots.len() < self.ceiling.read_roots.len() || self.write_roots.len()
            < self.ceiling.write_roots.len() {
            self.at(Stage::RootExpand)
        } else {
            self.next_request(0)
        }
    }

    fn with_root(self, path: Vec<u8>) -> (work: Work<'a>)
        ensures
            work@ == self@.with_root(path@),
    {
        let mut work: Work<'a> = self;
        if work.read_roots.len() < work.ceiling.read_roots.len() {
            work.read_roots.push(path);
            assert(all_bytes(work.read_roots@) =~= all_bytes(self.read_roots@).push(path@));
        } else {
            work.write_roots.push(path);
            assert(all_bytes(work.write_roots@) =~= all_bytes(self.write_roots@).push(path@));
        }
        work
    }

    fn next_request(self, index: usize) -> (progress: Progress<'a>)
        ensures
            progress@ == self@.next_request(index as int),
    {
        if index >= self.requested.len() {
            return Progress::Done(Ok(self.grants));
        }
        let path: Vec<u8> = {
            let request: &str = self.requested[index].path.as_str();
            let bytes: &[u8] = request.as_bytes();
            if request.is_empty() || has_nul(bytes) {
                return Progress::Done(Err(ApprovalError::InvalidPath));
            }
            path::join(self.cwd.as_slice(), bytes)
        };
        self.at(Stage::GrantCanonical { index, path })
    }

    fn next_deny(self, index: usize, path: Vec<u8>, deny: usize) -> (progress: Progress<'a>)
        requires
            index < self@.requested.len(),
        ensures
            progress@ == self@.next_deny(index as int, path@, deny as int),
    {
        if deny < self.deny_paths.len() {
            self.at(Stage::GrantDeny { index, path, deny })
        } else {
            self.settle(index, path)
        }
    }

    fn settle(self, index: usize, path: Vec<u8>) -> (progress: Progress<'a>)
        requires
            index < self@.requested.len(),
        ensures
            progress@ == self@.settle(index as int, path@),
    {
        let access: AccessMode = AccessMode::from(self.requested[index].access);
        let kind: CommandFilesystemGrantKind = self.requested[index].kind;
        let allowed: bool = match access {
            AccessMode::Read => is_below_any(path.as_slice(), &self.read_roots) || is_below_any(
                path.as_slice(),
                &self.write_roots,
            ),
            _ => is_below_any(path.as_slice(), &self.write_roots),
        };
        if !allowed {
            return Progress::Done(Err(ApprovalError::ExceedsCeiling { path, access }));
        }
        assert(index < self.requested.len());
        let mut work: Work<'a> = self;
        absorb(&mut work.grants, CommandFilesystemGrant { path, access, kind });
        work.next_request(index + 1)
    }
}

impl<'a> Resolution<'a> {
    #[verifier::type_invariant]
    closed spec fn inv(self) -> bool {
        self@.wf()
    }

    /// What has to be found out next.
    pub fn question(&self) -> (question: Question)
        ensures
            question@ == self@.question(),
    {
        proof {
            use_type_invariant(self);
        }
        let work: &Work<'a> = &self.work;
        match &self.stage {
            Stage::Envelope { encoded } => Question::Envelope(path::to_bytes(encoded.as_slice())),
            Stage::Cwd => Question::Canonicalize(path::to_bytes(work.request_cwd)),
            Stage::RootExpand => Question::Expand {
                entry: work.entry(),
                policy_root: path::to_bytes(work.policy_root),
            },
            Stage::RootCanonical { path } => Question::Canonicalize(
                path::to_bytes(path.as_slice()),
            ),
            Stage::RootInspect { path } => Question::Inspect(path::to_bytes(path.as_slice())),
            Stage::GrantCanonical { index: _, path } => Question::Canonicalize(
                path::to_bytes(path.as_slice()),
            ),
            Stage::GrantInspect { index: _, path } => Question::Inspect(
                path::to_bytes(path.as_slice()),
            ),
            Stage::GrantDeny { index: _, path: _, deny } => Question::Canonicalize(
                path::to_bytes(work.deny_paths[*deny].as_slice()),
            ),
        }
    }

    /// Takes the answer to the question and goes on to the next one, or to the
    /// decision. An answer to some other question changes nothing.
    pub fn answer(self, answer: Answer) -> (progress: Progress<'a>)
        ensures
            progress@ == self@.next(answer@),
    {
        proof {
            use_type_invariant(&self);
        }
        let Resolution { work, stage } = self;
        match (stage, answer) {
            (Stage::Envelope { encoded: _ }, Answer::Envelope(Err(message))) => Progress::Done(
                Err(ApprovalError::InvalidJson { message }),
            ),
            (Stage::Envelope { encoded: _ }, Answer::Envelope(Ok(envelope))) => {
                let requested: Vec<RequestedFilesystemGrant> = envelope.filesystem;
                assert(all_requests(requested@) =~= envelope@);
                if requested.len() == 0 {
                    return Progress::Done(Err(ApprovalError::EmptyRequest));
                }
                if requested.len() > MAX_REQUESTED_GRANTS {
                    return Progress::Done(Err(ApprovalError::TooManyGrants));
                }
                let mut work: Work<'a> = work;
                work.requested = requested;
                work.at(Stage::Cwd)
            },
            (Stage::Cwd, Answer::Canonical(None)) => Progress::Done(
                Err(
                    ApprovalError::PathCanonicalization { path: path::to_bytes(work.request_cwd) },
                ),
            ),
            (Stage::Cwd, Answer::Canonical(Some(cwd))) => {
                let mut work: Work<'a> = work;
                work.cwd = cwd;
                work.next_root()
            },
            (Stage::RootExpand, Answer::Expanded(None)) => Progress::Done(
                Err(ApprovalError::Expansion { entry: work.entry() }),
            ),
            (Stage::RootExpand, Answer::Expanded(Some(expanded))) => {
                let path: Vec<u8> = path::join(work.cwd.as_slice(), expanded.as_slice());
                work.at(Stage::RootCanonical { path })
            },
            (Stage::RootCanonical { path }, Answer::Canonical(None)) => Progress::Done(
                Err(ApprovalError::PathCanonicalization { path }),
            ),
            (Stage::RootCanonical { path: _ }, Answer::Canonical(Some(canonical))) => {
                if path::is_root(canonical.as_slice()) {
                    return Progress::Done(Err(ApprovalError::UnusableRoot { path: canonical }));
                }
                work.at(Stage::RootInspect { path: canonical })
            },
            (Stage::RootInspect { path }, Answer::Inspected(found)) => match found {
                Some(FileType::Directory) => work.with_root(path).next_root(),
                _ => Progress::Done(Err(ApprovalError::UnusableRoot { path })),
            },
            (Stage::GrantCanonical { index: _, path }, Answer::Canonical(None)) => Progress::Done(
                Err(ApprovalError::PathCanonicalization { path }),
            ),
            (Stage::GrantCanonical { index, path: _ }, Answer::Canonical(Some(canonical))) => {
                if path::is_root(canonical.as_slice()) {
                    return Progress::Done(Err(ApprovalError::FilesystemRoot));
                }
                work.at(Stage::GrantInspect { index, path: canonical })
            },
            (Stage::GrantInspect { index: _, path }, Answer::Inspected(None)) => Progress::Done(
                Err(ApprovalError::ConfigRead { path }),
            ),
            (Stage::GrantInspect { index, path }, Answer::Inspected(Some(found))) => {
                match work.requested[index].kind {
                    CommandFilesystemGrantKind::File => {
                        if found != FileType::File {
                            return Progress::Done(Err(ApprovalError::ExpectedFile { path }));
                        }
                    },
                    CommandFilesystemGrantKind::Directory => {
                        if found != FileType::Directory {
                            return Progress::Done(Err(ApprovalError::ExpectedDirectory { path }));
                        }
                    },
                }
                work.next_deny(index, path, 0)
            },
            (Stage::GrantDeny { index, path, deny }, Answer::Canonical(canonical)) => {
                let kind: CommandFilesystemGrantKind = work.requested[index].kind;
                let overlap: bool = match &canonical {
                    Some(canonical) => overlaps_deny(path.as_slice(), kind, canonical.as_slice()),
                    None => overlaps_deny(path.as_slice(), kind, work.deny_paths[deny].as_slice()),
                };
                if overlap {
                    return Progress::Done(Err(ApprovalError::DeniedPath { path }));
                }
                assert(deny < work.deny_paths.len());
                work.next_deny(index, path, deny + 1)
            },
            (stage, _) => Progress::Pending(Resolution { work, stage }),
        }
    }
}

/// Starts on the filesystem request of a command.
///
/// The grants that come out lie below the roots of the ceiling, overlap nothing
/// that is denied, and name each target once, with the access that will actually
/// be installed.
pub fn resolve_requested_filesystem<'a>(
    request_env: &[Vec<u8>],
    request_cwd: &'a [u8],
    policy: &'a CommandSandboxConfig,
    policy_root: &'a [u8],
    deny_paths: &'a [Vec<u8>],
) -> (progress: Progress<'a>)
    ensures
        progress@ == started(
            all_bytes(request_env@),
            request_cwd@,
            policy.approval_fs,
            policy_root@,
            all_bytes(deny_paths@),
        ),
{
    let encoded: &[u8] = match find_request(request_env) {
        Err(error) => {
            return Progress::Done(Err(error));
        },
        Ok(None) => {
            let none: Vec<CommandFilesystemGrant> = Vec::new();
            assert(all_grants(none@) =~= Seq::<GrantView>::empty());
            return Progress::Done(Ok(none));
        },
        Ok(Some(encoded)) => encoded,
    };
    match &policy.approval_fs {
        None => Progress::Done(Err(ApprovalError::NoCeiling)),
        Some(ceiling) => {
            let work: Work<'a> = Work {
                request_cwd,
                ceiling,
                policy_root,
                deny_paths,
                requested: Vec::new(),
                cwd: Vec::new(),
                read_roots: Vec::new(),
                write_roots: Vec::new(),
                grants: Vec::new(),
            };
            proof {
                assert(all_requests(work.requested@) =~= Seq::<RequestView>::empty());
                assert(work.cwd@ =~= Seq::<u8>::empty());
                assert(all_bytes(work.read_roots@) =~= Seq::<Seq<u8>>::empty());
                assert(all_bytes(work.write_roots@) =~= Seq::<Seq<u8>>::empty());
                assert(all_grants(work.grants@) =~= Seq::<GrantView>::empty());
            }
            work.at(Stage::Envelope { encoded: path::to_bytes(encoded) })
        },
    }
}

} // verus!
