//! What a decision on a filesystem request means.
//!
//! Everything here is said of the components of paths, of what the world answers
//! and of positions in lists: which grants come out, which refusal, and of which
//! root or request it is.
use crate::error::ErrorView;
use crate::fs_approval::{
    law_requests_by_position, request_lead, requests, AnswerView, FileType, QuestionView,
};
use crate::fs_laws::{
    all_granted, asked, covered, decided, distinct, first_bad, found, grant_for,
    includes, in_first_order, law_decision_is_in_order, law_first_bad_request_decides,
    law_grants_are_proper, law_grants_are_what_was_asked, law_roots_follow_entries,
    only_read, proper, reaches_denied, ready, root_for, roots_from, World,
};
use crate::fs_model::{
    absorbed, admitted, below_any, overlaps, same_target, setup_of, target_from, unusable,
    ProgressView, ResolutionView, Setup, StageView, WorkView,
};
use crate::grant::{
    normalized, AccessMode, CommandFilesystemGrantKind, GrantView, RequestView, RequestedAccess,
};
use crate::path::{below, components, joined, root};
use crate::path_laws::{is_name, law_absolute_path_gives_names_back, written};
use crate::policy::CommandApprovalFilesystemConfig;
use vstd::prelude::*;
use vstd::utf8::encode_utf8;

verus! {

/// Whether the components of `base` are the first ones of `path`.
pub open spec fn leads(base: Seq<u8>, path: Seq<u8>) -> bool {
    exists|tail: Seq<Seq<u8>>| components(path) == #[trigger] (components(base) + tail)
}

proof fn lemma_leads(base: Seq<u8>, path: Seq<u8>)
    ensures
        leads(base, path) <==> components(base).is_prefix_of(components(path)),
        leads(base, path) <==> below(path, base),
{
    let long = components(path);
    let short = components(base);
    if short.is_prefix_of(long) {
        assert(short + long.skip(short.len() as int) =~= long);
    }
    if leads(base, path) {
        let tail = choose|tail: Seq<Seq<u8>>| long == #[trigger] (short + tail);
        assert(short =~= long.subrange(0, short.len() as int));
    }
}

proof fn lemma_all_leads()
    ensures
        forall|base: Seq<u8>, path: Seq<u8>|
            (#[trigger] leads(base, path)) == components(base).is_prefix_of(components(path)),
        forall|base: Seq<u8>, path: Seq<u8>| #[trigger] below(path, base) == leads(base, path),
{
    assert forall|base: Seq<u8>, path: Seq<u8>|
        (#[trigger] leads(base, path)) == components(base).is_prefix_of(components(path)) by {
        lemma_leads(base, path);
    }
    assert forall|base: Seq<u8>, path: Seq<u8>| #[trigger] below(path, base) == leads(
        base,
        path,
    ) by {
        lemma_leads(base, path);
    }
}

/// A grant overlaps what is denied if and only if it lies there or below it, or
/// it is on a directory and what is denied lies below that, however deep. So a
/// directory is granted only where no path at all lies both below it and below a
/// denied path.
pub proof fn law_overlap(
    path: Seq<u8>,
    kind: CommandFilesystemGrantKind,
    deny: Seq<u8>,
    tail: Seq<Seq<u8>>,
    reached: Seq<u8>,
)
    ensures
        components(path) == components(deny) + tail ==> overlaps(path, kind, deny),
        components(deny) == components(path) + tail ==> overlaps(
            path,
            CommandFilesystemGrantKind::Directory,
            deny,
        ),
        overlaps(path, kind, deny) <==> leads(deny, path) || (kind
            == CommandFilesystemGrantKind::Directory && leads(path, deny)),
        leads(path, reached) && leads(deny, reached) ==> overlaps(
            path,
            CommandFilesystemGrantKind::Directory,
            deny,
        ),
        overlaps(path, CommandFilesystemGrantKind::Directory, deny) ==> exists|both: Seq<u8>| #[trigger]
            leads(path, both) && leads(deny, both),
        overlaps(path, CommandFilesystemGrantKind::File, deny) <==> leads(deny, path),
{
    lemma_all_leads();
    let none = Seq::<Seq<u8>>::empty();
    assert(components(path) + none =~= components(path));
    assert(components(deny) + none =~= components(deny));
    assert(leads(path, path) && leads(deny, deny));
    if components(path) == components(deny) + tail {
        assert(leads(deny, path));
    }
    if components(deny) == components(path) + tail {
        assert(leads(path, deny));
    }
    if leads(path, reached) && leads(deny, reached) {
        let p = components(path);
        let d = components(deny);
        let r = components(reached);
        if p.len() <= d.len() {
            assert(p =~= d.subrange(0, p.len() as int)) by {
                assert(p == r.subrange(0, p.len() as int));
                assert(d == r.subrange(0, d.len() as int));
            }
            assert(leads(path, deny));
        } else {
            assert(d =~= p.subrange(0, d.len() as int)) by {
                assert(p == r.subrange(0, p.len() as int));
                assert(d == r.subrange(0, d.len() as int));
            }
            assert(leads(deny, path));
        }
    }
}

/// In names: a grant on the directory `/names` overlaps the denied path
/// `/names/more`, and any grant on `/names/more` the denied path `/names`.
pub proof fn law_overlap_by_names(names: Seq<Seq<u8>>, more: Seq<Seq<u8>>)
    requires
        forall|i: int| 0 <= i < names.len() ==> is_name(#[trigger] names[i]),
        forall|i: int| 0 <= i < more.len() ==> is_name(#[trigger] more[i]),
    ensures
        ({
            let high = seq![0x2fu8] + written(names);
            let low = seq![0x2fu8] + written(names + more);
            &&& overlaps(high, CommandFilesystemGrantKind::Directory, low)
            &&& overlaps(low, CommandFilesystemGrantKind::Directory, high)
            &&& overlaps(low, CommandFilesystemGrantKind::File, high)
            &&& more.len() > 0 ==> !overlaps(high, CommandFilesystemGrantKind::File, low)
        }),
{
    let high = seq![0x2fu8] + written(names);
    let low = seq![0x2fu8] + written(names + more);
    law_absolute_path_gives_names_back(names);
    assert forall|i: int| 0 <= i < (names + more).len() implies is_name(
        #[trigger] (names + more)[i],
    ) by {
        if i < names.len() {
            assert(is_name(names[i]));
        } else {
            assert(is_name(more[i - names.len()]));
        }
    }
    law_absolute_path_gives_names_back(names + more);
    assert(components(low) =~= components(high) + more);
    law_overlap(low, CommandFilesystemGrantKind::File, high, more, low);
    law_overlap(low, CommandFilesystemGrantKind::Directory, high, more, low);
    law_overlap(high, CommandFilesystemGrantKind::File, low, more, low);
    lemma_all_leads();
}

/// A path is admitted for reading if and only if a root for reading or a root for
/// writing leads to it, and for writing if and only if a root for writing does. So
/// what is admitted for writing is admitted for reading, and more roots never
/// admit less.
pub proof fn law_admitted(
    path: Seq<u8>,
    read_roots: Seq<Seq<u8>>,
    write_roots: Seq<Seq<u8>>,
    more_reads: Seq<Seq<u8>>,
    more_writes: Seq<Seq<u8>>,
    access: AccessMode,
)
    ensures
        admitted(path, AccessMode::Read, read_roots, write_roots) <==> (exists|i: int|
            0 <= i < read_roots.len() && leads(#[trigger] read_roots[i], path)) || (exists|i: int|
            0 <= i < write_roots.len() && leads(#[trigger] write_roots[i], path)),
        admitted(path, AccessMode::ReadWrite, read_roots, write_roots) <==> exists|i: int|
            0 <= i < write_roots.len() && leads(#[trigger] write_roots[i], path),
        admitted(path, AccessMode::Write, read_roots, write_roots) <==> exists|i: int|
            0 <= i < write_roots.len() && leads(#[trigger] write_roots[i], path),
        admitted(path, AccessMode::ReadWrite, read_roots, write_roots) ==> admitted(
            path,
            AccessMode::Read,
            read_roots,
            write_roots,
        ),
        admitted(path, access, read_roots, write_roots) ==> admitted(
            path,
            access,
            read_roots + more_reads,
            write_roots + more_writes,
        ),
        admitted(path, access, read_roots, write_roots) ==> admitted(
            path,
            access,
            more_reads + read_roots,
            more_writes + write_roots,
        ),
{
    lemma_all_leads();
    lemma_more_roots(path, read_roots, more_reads);
    lemma_more_roots(path, write_roots, more_writes);
    lemma_below_any(path, read_roots);
    lemma_below_any(path, write_roots);
}

proof fn lemma_below_any(path: Seq<u8>, roots: Seq<Seq<u8>>)
    ensures
        below_any(path, roots) <==> exists|i: int|
            0 <= i < roots.len() && leads(#[trigger] roots[i], path),
{
    lemma_all_leads();
    if below_any(path, roots) {
        let i = choose|i: int| 0 <= i < roots.len() && below(path, #[trigger] roots[i]);
        assert(leads(roots[i], path));
    }
    if exists|i: int| 0 <= i < roots.len() && leads(#[trigger] roots[i], path) {
        let i = choose|i: int| 0 <= i < roots.len() && leads(#[trigger] roots[i], path);
        assert(below(path, roots[i]));
    }
}

proof fn lemma_more_roots(path: Seq<u8>, roots: Seq<Seq<u8>>, more: Seq<Seq<u8>>)
    ensures
        below_any(path, roots) ==> below_any(path, roots + more) && below_any(path, more + roots),
{
    if below_any(path, roots) {
        let i = choose|i: int| 0 <= i < roots.len() && below(path, #[trigger] roots[i]);
        assert((roots + more)[i] == roots[i]);
        assert((more + roots)[more.len() + i] == roots[i]);
    }
}

/// Adding a grant: where none of the grants is on its target, it comes last and
/// the others stay as they are; else the first one on its target, and no other,
/// gets its access too. Grants are on the same target if their paths have the
/// same components and their kinds are the same.
pub proof fn law_absorbed(grants: Seq<GrantView>, grant: GrantView, at: int)
    ensures
        (forall|i: int|
            0 <= i < grants.len() ==> components((#[trigger] grants[i]).path) != components(
                grant.path,
            ) || grants[i].kind != grant.kind) ==> absorbed(grants, grant) == grants.push(grant),
        0 <= at < grants.len() && components(grants[at].path) == components(grant.path)
            && grants[at].kind == grant.kind && (forall|i: int|
            0 <= i < at ==> components((#[trigger] grants[i]).path) != components(grant.path)
                || grants[i].kind != grant.kind) ==> {
            let after = absorbed(grants, grant);
            &&& after.len() == grants.len()
            &&& forall|i: int| 0 <= i < grants.len() && i != at ==> #[trigger] after[i] == grants[i]
            &&& after[at].path == grants[at].path
            &&& after[at].kind == grants[at].kind
            &&& after[at].access == if grants[at].access == grant.access {
                grant.access
            } else {
                AccessMode::ReadWrite
            }
        },
{
    lemma_first_target(grants, grant, 0);
    let found = target_from(grants, grant, 0);
    if 0 <= at < grants.len() && components(grants[at].path) == components(grant.path)
        && grants[at].kind == grant.kind && (forall|i: int|
        0 <= i < at ==> components((#[trigger] grants[i]).path) != components(grant.path)
            || grants[i].kind != grant.kind) {
        if found < at {
            assert(same_target(grants[found], grant));
        }
        assert(same_target(grants[at], grant));
        assert(found == at);
    }
}

proof fn lemma_first_target(grants: Seq<GrantView>, grant: GrantView, from: int)
    requires
        0 <= from <= grants.len(),
    ensures
        from <= target_from(grants, grant, from) <= grants.len(),
        target_from(grants, grant, from) < grants.len() ==> same_target(
            grants[target_from(grants, grant, from)],
            grant,
        ),
        forall|i: int|
            from <= i < target_from(grants, grant, from) ==> !same_target(
                #[trigger] grants[i],
                grant,
            ),
    decreases grants.len() - from,
{
    if from < grants.len() && !same_target(grants[from], grant) {
        lemma_first_target(grants, grant, from + 1);
    }
}

/// Whether a state waits for this kind of answer.
pub open spec fn fits(question: QuestionView, answer: AnswerView) -> bool {
    match question {
        QuestionView::Envelope(text) => answer is Envelope,
        QuestionView::Canonicalize(path) => answer is Canonical,
        QuestionView::Expand { entry, policy_root } => answer is Expanded,
        QuestionView::Inspect(path) => answer is Inspected,
    }
}

/// An answer to the question always leads on, and an answer to any other question
/// changes nothing.
pub proof fn law_only_fitting_answers_count(state: ResolutionView, answer: AnswerView)
    ensures
        state.next(answer) == ProgressView::Pending(state) <==> !fits(state.question(), answer),
{
}

/// At a denied path the request is refused if and only if it overlaps that path,
/// taken canonically where it has a canonical path and as it stands else.
pub proof fn law_denied_step(
    state: ResolutionView,
    index: int,
    path: Seq<u8>,
    deny: int,
    canonical: Option<Seq<u8>>,
    denied: Seq<u8>,
)
    requires
        state.stage == (StageView::GrantDeny { index, path, deny }),
        canonical is Some ==> canonical == Some(denied),
        canonical is None ==> denied == state.work.setup.deny_paths[deny],
    ensures
        ({
            let reached = leads(denied, path) || (state.work.requested[index].kind
                == CommandFilesystemGrantKind::Directory && leads(path, denied));
            let next = state.next(AnswerView::Canonical(canonical));
            &&& state.question() == QuestionView::Canonicalize(state.work.setup.deny_paths[deny])
            &&& next == ProgressView::Done(Err(ErrorView::DeniedPath { path })) <==> reached
            &&& !reached && deny + 1 < state.work.setup.deny_paths.len() ==> next
                == ProgressView::Pending(
                ResolutionView {
                    work: state.work,
                    stage: StageView::GrantDeny { index, path, deny: deny + 1 },
                },
            )
            &&& !reached && deny + 1 >= state.work.setup.deny_paths.len() ==> next
                == state.work.settle(index, path)
        }),
{
    lemma_all_leads();
}

/// A request that nothing denies is refused if and only if no root of the ceiling
/// leads to it: none at all where it is for reading, and none for writing where it
/// is for more.
pub proof fn law_ceiling_step(work: WorkView, index: int, path: Seq<u8>)
    ensures
        ({
            let reading = work.requested[index].access == RequestedAccess::Read;
            let inside = (exists|i: int|
                0 <= i < work.write_roots.len() && leads(#[trigger] work.write_roots[i], path))
                || (reading && exists|i: int|
                0 <= i < work.read_roots.len() && leads(#[trigger] work.read_roots[i], path));
            let access = if reading {
                AccessMode::Read
            } else {
                AccessMode::ReadWrite
            };
            &&& work.settle(index, path) == ProgressView::Done(
                Err(ErrorView::ExceedsCeiling { path, access }),
            ) <==> !inside
            &&& inside ==> work.settle(index, path) == (WorkView {
                grants: absorbed(
                    work.grants,
                    GrantView { path, access, kind: work.requested[index].kind },
                ),
                ..work
            }).next_request(index + 1)
        }),
{
    lemma_below_any(path, work.read_roots);
    lemma_below_any(path, work.write_roots);
}

/// Whether a resolution waits for an answer, with this found out so far and with
/// this as its question.
pub open spec fn waits(progress: ProgressView, work: WorkView, question: QuestionView) -> bool {
    progress matches ProgressView::Pending(state) && state.work == work && state.question()
        == question
}

/// The requests are taken up one after the other: a path that cannot be one is
/// refused, of any other it is asked what it canonically is, seen from the working
/// directory, and after the last request the grants are there.
pub proof fn law_request_taken_up(work: WorkView, index: int)
    ensures
        index >= work.requested.len() ==> work.next_request(index) == ProgressView::Done(
            Ok(work.grants),
        ),
        index < work.requested.len() && !is_path(work.requested[index].path) ==> work.next_request(
            index,
        ) == ProgressView::Done(Err(ErrorView::InvalidPath)),
        index < work.requested.len() && is_path(work.requested[index].path) ==> {
            let path = joined(work.cwd, encode_utf8(work.requested[index].path));
            &&& waits(work.next_request(index), work, QuestionView::Canonicalize(path))
            &&& work.next_request(index) == ProgressView::Pending(
                ResolutionView { work, stage: StageView::GrantCanonical { index, path } },
            )
        },
{
    lemma_is_path(work.requested[index].path);
}

/// A requested path that has no canonical path is refused, and so is the root of
/// the filesystem; of any other it is asked what lies there.
pub proof fn law_canonical_step(
    state: ResolutionView,
    index: int,
    path: Seq<u8>,
    canonical: Seq<u8>,
)
    requires
        state.stage == (StageView::GrantCanonical { index, path }),
    ensures
        state.question() == QuestionView::Canonicalize(path),
        state.next(AnswerView::Canonical(None)) == ProgressView::Done(
            Err(ErrorView::PathCanonicalization { path }),
        ),
        components(canonical) == seq![seq![0x2fu8]] ==> state.next(
            AnswerView::Canonical(Some(canonical)),
        ) == ProgressView::Done(Err(ErrorView::FilesystemRoot)),
        components(canonical) != seq![seq![0x2fu8]] ==> {
            &&& waits(
                state.next(AnswerView::Canonical(Some(canonical))),
                state.work,
                QuestionView::Inspect(canonical),
            )
            &&& state.next(AnswerView::Canonical(Some(canonical))) == ProgressView::Pending(
                ResolutionView {
                    work: state.work,
                    stage: StageView::GrantInspect { index, path: canonical },
                },
            )
        },
{
}

/// A requested path where nothing can be found out is refused, and so is one where
/// something else lies than was asked for; any other is held against the denied
/// paths, from the first one on, and where there are none against the ceiling.
pub proof fn law_inspected_step(
    state: ResolutionView,
    index: int,
    path: Seq<u8>,
    lies_there: FileType,
)
    requires
        state.stage == (StageView::GrantInspect { index, path }),
    ensures
        ({
            let file = state.work.requested[index].kind == CommandFilesystemGrantKind::File;
            let right = if file {
                lies_there == FileType::File
            } else {
                lies_there == FileType::Directory
            };
            let next = state.next(AnswerView::Inspected(Some(lies_there)));
            &&& state.question() == QuestionView::Inspect(path)
            &&& state.next(AnswerView::Inspected(None)) == ProgressView::Done(
                Err(ErrorView::ConfigRead { path }),
            )
            &&& !right && file ==> next == ProgressView::Done(
                Err(ErrorView::ExpectedFile { path }),
            )
            &&& !right && !file ==> next == ProgressView::Done(
                Err(ErrorView::ExpectedDirectory { path }),
            )
            &&& right && state.work.setup.deny_paths.len() > 0 ==> {
                &&& waits(
                    next,
                    state.work,
                    QuestionView::Canonicalize(state.work.setup.deny_paths[0]),
                )
                &&& next == ProgressView::Pending(
                    ResolutionView {
                        work: state.work,
                        stage: StageView::GrantDeny { index, path, deny: 0 },
                    },
                )
            }
            &&& right && state.work.setup.deny_paths.len() == 0 ==> next == state.work.settle(
                index,
                path,
            )
        }),
{
}

/// A request text is refused where it cannot be read, asks for nothing or asks for
/// more than 32 grants; else the working directory comes next.
pub proof fn law_envelope_step(
    state: ResolutionView,
    encoded: Seq<u8>,
    message: Seq<char>,
    requested: Seq<RequestView>,
)
    requires
        state.stage == (StageView::Envelope { encoded }),
    ensures
        state.question() == QuestionView::Envelope(encoded),
        state.next(AnswerView::Envelope(Err(message))) == ProgressView::Done(
            Err(ErrorView::InvalidJson { message }),
        ),
        requested.len() == 0 ==> state.next(AnswerView::Envelope(Ok(requested)))
            == ProgressView::Done(Err(ErrorView::EmptyRequest)),
        requested.len() > 32 ==> state.next(AnswerView::Envelope(Ok(requested)))
            == ProgressView::Done(Err(ErrorView::TooManyGrants)),
        1 <= requested.len() <= 32 ==> {
            let work = WorkView { requested, ..state.work };
            &&& waits(
                state.next(AnswerView::Envelope(Ok(requested))),
                work,
                QuestionView::Canonicalize(state.work.setup.request_cwd),
            )
            &&& state.next(AnswerView::Envelope(Ok(requested))) == ProgressView::Pending(
                ResolutionView { work, stage: StageView::Cwd },
            )
        },
{
}

/// A working directory without a canonical path is refused; else the roots of the
/// ceiling come next.
pub proof fn law_cwd_step(state: ResolutionView, cwd: Seq<u8>)
    requires
        state.stage == StageView::Cwd,
    ensures
        state.question() == QuestionView::Canonicalize(state.work.setup.request_cwd),
        state.next(AnswerView::Canonical(None)) == ProgressView::Done(
            Err(ErrorView::PathCanonicalization { path: state.work.setup.request_cwd }),
        ),
        state.next(AnswerView::Canonical(Some(cwd))) == (WorkView {
            cwd,
            ..state.work
        }).next_root(),
{
}

/// The entries of the ceiling are taken up in their order, first those for reading
/// and then those for writing, each with the question what it expands to; after
/// the last one the requests come next.
pub proof fn law_root_taken_up(work: WorkView)
    ensures
        ({
            let read = work.read_roots.len() as int;
            let write = work.write_roots.len() as int;
            let reads = work.setup.read_entries;
            let writes = work.setup.write_entries;
            let policy_root = work.setup.policy_root;
            &&& read < reads.len() ==> waits(
                work.next_root(),
                work,
                QuestionView::Expand { entry: reads[read], policy_root },
            )
            &&& read >= reads.len() && write < writes.len() ==> waits(
                work.next_root(),
                work,
                QuestionView::Expand { entry: writes[write], policy_root },
            )
            &&& read < reads.len() || write < writes.len() ==> work.next_root()
                == ProgressView::Pending(ResolutionView { work, stage: StageView::RootExpand })
            &&& read >= reads.len() && write >= writes.len() ==> work.next_root()
                == work.next_request(0)
        }),
{
}

/// An entry that does not expand is refused, as is one that has no canonical path,
/// is the root of the filesystem or is no directory. Any other is added to the
/// roots whose turn it is, and the next entry comes.
pub proof fn law_root_steps(
    state: ResolutionView,
    path: Seq<u8>,
    answered: Seq<u8>,
    lies_there: Option<FileType>,
)
    ensures
        ({
            let work = state.work;
            let reading = work.read_roots.len() < work.setup.read_entries.len();
            &&& state.stage == StageView::RootExpand ==> {
                &&& state.next(AnswerView::Expanded(None)) == ProgressView::Done(
                    Err(
                        ErrorView::Expansion {
                            entry: if reading {
                                work.setup.read_entries[work.read_roots.len() as int]
                            } else {
                                work.setup.write_entries[work.write_roots.len() as int]
                            },
                        },
                    ),
                )
                &&& state.next(AnswerView::Expanded(Some(answered))) == ProgressView::Pending(
                    ResolutionView {
                        work,
                        stage: StageView::RootCanonical { path: joined(work.cwd, answered) },
                    },
                )
            }
            &&& state.stage == (StageView::RootCanonical { path }) ==> {
                let next = state.next(AnswerView::Canonical(Some(answered)));
                &&& state.question() == QuestionView::Canonicalize(path)
                &&& state.next(AnswerView::Canonical(None)) == ProgressView::Done(
                    Err(ErrorView::PathCanonicalization { path }),
                )
                &&& components(answered) == seq![seq![0x2fu8]] ==> next == ProgressView::Done(
                    Err(ErrorView::UnusableRoot { path: answered }),
                )
                &&& components(answered) != seq![seq![0x2fu8]] ==> next == ProgressView::Pending(
                    ResolutionView { work, stage: StageView::RootInspect { path: answered } },
                )
            }
            &&& state.stage == (StageView::RootInspect { path }) ==> {
                let next = state.next(AnswerView::Inspected(lies_there));
                &&& state.question() == QuestionView::Inspect(path)
                &&& lies_there != Some(FileType::Directory) ==> next == ProgressView::Done(
                    Err(ErrorView::UnusableRoot { path }),
                )
                &&& lies_there == Some(FileType::Directory) && reading ==> next == (WorkView {
                    read_roots: work.read_roots.push(path),
                    ..work
                }).next_root()
                &&& lies_there == Some(FileType::Directory) && !reading ==> next == (WorkView {
                    write_roots: work.write_roots.push(path),
                    ..work
                }).next_root()
            }
        }),
{
}

/// Whether an entry of the ceiling names this root: it expands to a path that, seen
/// from the working directory, canonically is this one; and this one is a
/// directory and not `/`.
pub open spec fn names_root(
    world: World,
    policy_root: Seq<u8>,
    cwd: Seq<u8>,
    entry: Seq<char>,
    path: Seq<u8>,
) -> bool {
    &&& (world.expanded)(entry, policy_root) matches Some(expanded) && (world.canonical)(
        joined(cwd, expanded),
    ) == Some(path)
    &&& components(path) != seq![seq![0x2fu8]]
    &&& (world.inspected)(path) == Some(FileType::Directory)
}

/// Whether this is what is wrong with an entry of the ceiling.
pub open spec fn wrong_root(
    world: World,
    policy_root: Seq<u8>,
    cwd: Seq<u8>,
    entry: Seq<char>,
    error: ErrorView,
) -> bool {
    match error {
        ErrorView::Expansion { entry: named } => named == entry && (world.expanded)(
            entry,
            policy_root,
        ) is None,
        ErrorView::PathCanonicalization { path } => (world.expanded)(
            entry,
            policy_root,
        ) matches Some(expanded) && path == joined(cwd, expanded) && (world.canonical)(path) is None,
        ErrorView::UnusableRoot { path } => {
            &&& (world.expanded)(entry, policy_root) matches Some(expanded) && (world.canonical)(
                joined(cwd, expanded),
            ) == Some(path)
            &&& components(path) == seq![seq![0x2fu8]] || (world.inspected)(path) != Some(
                FileType::Directory,
            )
        },
        _ => false,
    }
}

/// Whether the entries of a ceiling name these roots, one by one.
pub open spec fn name_roots(
    world: World,
    policy_root: Seq<u8>,
    cwd: Seq<u8>,
    entries: Seq<Seq<char>>,
    roots: Seq<Seq<u8>>,
) -> bool {
    &&& roots.len() == entries.len()
    &&& forall|i: int|
        0 <= i < entries.len() ==> names_root(
            world,
            policy_root,
            cwd,
            #[trigger] entries[i],
            roots[i],
        )
}

/// Whether an entry names a root at all.
pub open spec fn names_some_root(
    world: World,
    policy_root: Seq<u8>,
    cwd: Seq<u8>,
    entry: Seq<char>,
) -> bool {
    exists|path: Seq<u8>| names_root(world, policy_root, cwd, entry, path)
}

/// Whether this is what is wrong with the first entry that names no root.
pub open spec fn first_wrong_root(
    world: World,
    policy_root: Seq<u8>,
    cwd: Seq<u8>,
    entries: Seq<Seq<char>>,
    error: ErrorView,
) -> bool {
    exists|i: int|
        0 <= i < entries.len() && wrong_root(world, policy_root, cwd, #[trigger] entries[i], error)
            && forall|j: int|
            0 <= j < i ==> names_some_root(world, policy_root, cwd, #[trigger] entries[j])
}

/// An entry of a ceiling comes to the root that it names, or to what is wrong with
/// it.
pub proof fn law_one_root(world: World, setup: Setup, cwd: Seq<u8>, entry: Seq<char>)
    ensures
        match root_for(world, setup, cwd, entry) {
            Ok(path) => names_root(world, setup.policy_root, cwd, entry, path),
            Err(error) => wrong_root(world, setup.policy_root, cwd, entry, error),
        },
        root_for(world, setup, cwd, entry) is Ok ==> names_some_root(
            world,
            setup.policy_root,
            cwd,
            entry,
        ),
{
    if let Ok(path) = root_for(world, setup, cwd, entry) {
        assert(names_root(world, setup.policy_root, cwd, entry, path));
    }
}

/// The entries of a ceiling come to roots if and only if each of them names one,
/// and else to what is wrong with the first that names none.
pub proof fn law_roots(world: World, setup: Setup, cwd: Seq<u8>, entries: Seq<Seq<char>>)
    ensures
        match roots_from(world, setup, cwd, entries, Seq::empty()) {
            Ok(roots) => name_roots(world, setup.policy_root, cwd, entries, roots),
            Err(error) => first_wrong_root(world, setup.policy_root, cwd, entries, error),
        },
{
    let none = Seq::<Seq<u8>>::empty();
    law_roots_follow_entries(world, setup, cwd, entries, none);
    match roots_from(world, setup, cwd, entries, none) {
        Err(error) => {
            let bad = lemma_first_err(world, setup, cwd, entries, 0);
            law_one_root(world, setup, cwd, entries[bad]);
            assert(root_for(world, setup, cwd, entries[bad]) == Err::<Seq<u8>, ErrorView>(error));
            assert forall|j: int| 0 <= j < bad implies names_some_root(
                world,
                setup.policy_root,
                cwd,
                #[trigger] entries[j],
            ) by {
                law_one_root(world, setup, cwd, entries[j]);
            }
        },
        Ok(roots) => {
            assert forall|i: int| 0 <= i < entries.len() implies names_root(
                world,
                setup.policy_root,
                cwd,
                #[trigger] entries[i],
                roots[i],
            ) by {
                assert(root_for(world, setup, cwd, entries[i]) == Ok::<Seq<u8>, ErrorView>(
                    roots[i],
                ));
                law_one_root(world, setup, cwd, entries[i]);
            }
        },
    }
}

proof fn lemma_first_err(
    world: World,
    setup: Setup,
    cwd: Seq<u8>,
    entries: Seq<Seq<char>>,
    from: int,
) -> (bad: int)
    requires
        0 <= from <= entries.len(),
        forall|i: int| 0 <= i < from ==> root_for(world, setup, cwd, #[trigger] entries[i]) is Ok,
        !(forall|i: int|
            0 <= i < entries.len() ==> root_for(world, setup, cwd, #[trigger] entries[i]) is Ok),
    ensures
        0 <= bad < entries.len(),
        root_for(world, setup, cwd, entries[bad]) is Err,
        forall|i: int| 0 <= i < bad ==> root_for(world, setup, cwd, #[trigger] entries[i]) is Ok,
    decreases entries.len() - from,
{
    if from < entries.len() && root_for(world, setup, cwd, entries[from]) is Ok {
        lemma_first_err(world, setup, cwd, entries, from + 1)
    } else {
        from
    }
}

/// What a request is held against: the working directory, the roots of the ceiling
/// and the denied paths.
pub struct Bounds {
    pub cwd: Seq<u8>,
    pub read_roots: Seq<Seq<u8>>,
    pub write_roots: Seq<Seq<u8>>,
    pub denies: Seq<Seq<u8>>,
}

/// Whether a requested path can be a path: it is not empty and holds no NUL.
pub open spec fn is_path(text: Seq<char>) -> bool {
    text.len() > 0 && forall|i: int|
        0 <= i < encode_utf8(text).len() ==> #[trigger] encode_utf8(text)[i] != 0u8
}

/// Whether a request is for this path: it is what the requested path, seen from
/// the working directory, canonically is.
pub open spec fn is_for(world: World, bounds: Bounds, request: RequestView, path: Seq<u8>) -> bool {
    is_path(request.path) && (world.canonical)(joined(bounds.cwd, encode_utf8(request.path)))
        == Some(path)
}

/// Whether what lies at a path is what was asked for.
pub open spec fn is_there(world: World, request: RequestView, path: Seq<u8>) -> bool {
    match request.kind {
        CommandFilesystemGrantKind::File => (world.inspected)(path) == Some(FileType::File),
        CommandFilesystemGrantKind::Directory => (world.inspected)(path) == Some(
            FileType::Directory,
        ),
    }
}

/// Whether a denied path stands in the way of a grant: one leads to the other. A
/// denied path counts as what it canonically is, or as it stands where it is
/// nothing. What lies below a granted file does not matter.
pub open spec fn stands_in_the_way(
    world: World,
    deny: Seq<u8>,
    path: Seq<u8>,
    kind: CommandFilesystemGrantKind,
) -> bool {
    let denied = match (world.canonical)(deny) {
        Some(canonical) => canonical,
        None => deny,
    };
    leads(denied, path) || (kind == CommandFilesystemGrantKind::Directory && leads(path, denied))
}

/// Whether a denied path stands in the way of what is requested.
pub open spec fn is_denied(
    world: World,
    bounds: Bounds,
    request: RequestView,
    path: Seq<u8>,
) -> bool {
    exists|i: int|
        0 <= i < bounds.denies.len() && stands_in_the_way(
            world,
            #[trigger] bounds.denies[i],
            path,
            request.kind,
        )
}

/// Whether a root of the ceiling leads to what is requested: any for reading, and
/// one for writing for more.
pub open spec fn is_inside(bounds: Bounds, request: RequestView, path: Seq<u8>) -> bool {
    ||| exists|i: int|
        0 <= i < bounds.write_roots.len() && leads(#[trigger] bounds.write_roots[i], path)
    ||| request.access == RequestedAccess::Read && exists|i: int|
        0 <= i < bounds.read_roots.len() && leads(#[trigger] bounds.read_roots[i], path)
}

/// Whether a request comes to this grant.
pub open spec fn comes_to(
    world: World,
    bounds: Bounds,
    request: RequestView,
    grant: GrantView,
) -> bool {
    &&& is_for(world, bounds, request, grant.path)
    &&& components(grant.path) != seq![seq![0x2fu8]]
    &&& is_there(world, request, grant.path)
    &&& !is_denied(world, bounds, request, grant.path)
    &&& is_inside(bounds, request, grant.path)
    &&& grant.kind == request.kind
    &&& grant.access == AccessMode::Read <==> request.access == RequestedAccess::Read
    &&& grant.access == AccessMode::ReadWrite <==> request.access != RequestedAccess::Read
}

/// Whether this is why a request is refused.
pub open spec fn refused_for(
    world: World,
    bounds: Bounds,
    request: RequestView,
    error: ErrorView,
) -> bool {
    match error {
        ErrorView::InvalidPath => !is_path(request.path),
        ErrorView::PathCanonicalization { path } => is_path(request.path) && path == joined(
            bounds.cwd,
            encode_utf8(request.path),
        ) && (world.canonical)(path) is None,
        ErrorView::FilesystemRoot => exists|path: Seq<u8>| #[trigger]
            is_for(world, bounds, request, path) && components(path) == seq![seq![0x2fu8]],
        ErrorView::ConfigRead { path } => {
            &&& is_for(world, bounds, request, path)
            &&& components(path) != seq![seq![0x2fu8]]
            &&& (world.inspected)(path) is None
        },
        ErrorView::ExpectedFile { path } => {
            &&& is_for(world, bounds, request, path)
            &&& components(path) != seq![seq![0x2fu8]]
            &&& (world.inspected)(path) is Some
            &&& request.kind == CommandFilesystemGrantKind::File
            &&& !is_there(world, request, path)
        },
        ErrorView::ExpectedDirectory { path } => {
            &&& is_for(world, bounds, request, path)
            &&& components(path) != seq![seq![0x2fu8]]
            &&& (world.inspected)(path) is Some
            &&& request.kind == CommandFilesystemGrantKind::Directory
            &&& !is_there(world, request, path)
        },
        ErrorView::DeniedPath { path } => {
            &&& is_for(world, bounds, request, path)
            &&& components(path) != seq![seq![0x2fu8]]
            &&& is_there(world, request, path)
            &&& is_denied(world, bounds, request, path)
        },
        ErrorView::ExceedsCeiling { path, access } => {
            &&& is_for(world, bounds, request, path)
            &&& components(path) != seq![seq![0x2fu8]]
            &&& is_there(world, request, path)
            &&& !is_denied(world, bounds, request, path)
            &&& !is_inside(bounds, request, path)
            &&& access == AccessMode::Read <==> request.access == RequestedAccess::Read
            &&& access == AccessMode::ReadWrite <==> request.access != RequestedAccess::Read
        },
        _ => false,
    }
}

/// The bounds of what has been found out.
pub open spec fn bounds_of(work: WorkView) -> Bounds {
    Bounds {
        cwd: work.cwd,
        read_roots: work.read_roots,
        write_roots: work.write_roots,
        denies: work.setup.deny_paths,
    }
}

/// A request comes to a grant that it can come to, or is refused for a reason that
/// it can be refused for.
pub proof fn law_one_request(world: World, work: WorkView, request: RequestView)
    ensures
        match grant_for(world, work, request) {
            Ok(grant) => comes_to(world, bounds_of(work), request, grant),
            Err(error) => refused_for(world, bounds_of(work), request, error),
        },
{
    let bounds = bounds_of(work);
    let bytes = encode_utf8(request.path);
    lemma_is_path(request.path);
    if is_path(request.path) {
        if let Some(path) = (world.canonical)(joined(bounds.cwd, bytes)) {
            assert(is_for(world, bounds, request, path));
            lemma_below_any(path, work.read_roots);
            lemma_below_any(path, work.write_roots);
            lemma_denied(world, work, request, path);
            assert(bounds.read_roots == work.read_roots && bounds.write_roots == work.write_roots);
            assert(is_inside(bounds, request, path) == admitted(
                path,
                normalized(request.access),
                work.read_roots,
                work.write_roots,
            ));
            assert(root(path) == (components(path) == seq![seq![0x2fu8]]));
            match grant_for(world, work, request) {
                Ok(grant) => {
                    assert(comes_to(world, bounds, request, grant));
                },
                Err(error) => {
                    assert(refused_for(world, bounds, request, error));
                },
            }
        }
    }
}

proof fn lemma_is_path(text: Seq<char>)
    ensures
        is_path(text) == !unusable(text),
{
    let bytes = encode_utf8(text);
    if bytes.contains(0) {
        let i = choose|i: int| 0 <= i < bytes.len() && bytes[i] == 0u8;
        assert(encode_utf8(text)[i] == 0u8);
    }
    assert forall|i: int| 0 <= i < bytes.len() && !bytes.contains(0) implies #[trigger] encode_utf8(
        text,
    )[i] != 0u8 by {
        assert(bytes.contains(bytes[i]));
    }
}

proof fn lemma_denied(world: World, work: WorkView, request: RequestView, path: Seq<u8>)
    ensures
        is_denied(world, bounds_of(work), request, path) == reaches_denied(
            world,
            work.setup.deny_paths,
            path,
            request.kind,
            0,
        ),
{
    let denies = work.setup.deny_paths;
    let bounds = bounds_of(work);
    assert(bounds.denies == denies);
    assert forall|deny: Seq<u8>| #[trigger]
        stands_in_the_way(world, deny, path, request.kind) == overlaps(
            path,
            request.kind,
            world.denied(deny),
        ) by {
        lemma_leads(world.denied(deny), path);
        lemma_leads(path, world.denied(deny));
    }
    if is_denied(world, bounds, request, path) {
        let i = choose|i: int|
            0 <= i < bounds.denies.len() && stands_in_the_way(
                world,
                #[trigger] bounds.denies[i],
                path,
                request.kind,
            );
        assert(overlaps(path, request.kind, world.denied(denies[i])));
    }
    if reaches_denied(world, denies, path, request.kind, 0) {
        let i = choose|i: int|
            0 <= i < denies.len() && overlaps(path, request.kind, world.denied(#[trigger] denies[i]));
        assert(stands_in_the_way(world, bounds.denies[i], path, request.kind));
    }
}

/// Whether two grants are on the same thing: their paths have the same components,
/// and they are of the same kind.
pub open spec fn on_one_thing(left: GrantView, right: GrantView) -> bool {
    components(left.path) == components(right.path) && left.kind == right.kind
}

/// Whether one of the grants is on what is asked for.
pub open spec fn has_grant(grants: Seq<GrantView>, ask: GrantView) -> bool {
    exists|i: int| 0 <= i < grants.len() && on_one_thing(#[trigger] grants[i], ask)
}

/// Whether a grant has the path under which it is asked for first.
pub open spec fn has_first_path(asks: Seq<GrantView>, grant: GrantView) -> bool {
    exists|k: int|
        0 <= k < asks.len() && (#[trigger] asks[k]).path == grant.path && asks[k].kind == grant.kind
            && forall|l: int| 0 <= l < k ==> !on_one_thing(#[trigger] asks[l], grant)
}

/// Whether `first` is asked for before `second` is.
pub open spec fn asked_before(
    asks: Seq<GrantView>,
    first: GrantView,
    second: GrantView,
) -> bool {
    exists|k: int|
        0 <= k < asks.len() && on_one_thing(#[trigger] asks[k], first) && forall|l: int|
            0 <= l <= k ==> !on_one_thing(#[trigger] asks[l], second)
}

/// Whether every ask for what a grant is on is for reading.
pub open spec fn asked_for_reading(asks: Seq<GrantView>, grant: GrantView) -> bool {
    forall|k: int|
        0 <= k < asks.len() && on_one_thing(#[trigger] asks[k], grant) ==> asks[k].access
            == AccessMode::Read
}

/// Whether `grants` are `asks` with one grant for each thing: every thing that is
/// asked for has a grant and no two grants are on one thing; a grant has the path
/// that is asked for first; grants come in the order of what is asked for first;
/// and a grant is for reading if every ask for it is, and else for reading and
/// writing.
pub open spec fn one_for_each(asks: Seq<GrantView>, grants: Seq<GrantView>) -> bool {
    &&& forall|i: int, j: int|
        0 <= i < j < grants.len() ==> !#[trigger] on_one_thing(grants[i], grants[j])
    &&& forall|k: int| 0 <= k < asks.len() ==> #[trigger] has_grant(grants, asks[k])
    &&& forall|i: int| 0 <= i < grants.len() ==> #[trigger] has_first_path(asks, grants[i])
    &&& forall|i: int, j: int|
        0 <= i < j < grants.len() ==> #[trigger] asked_before(asks, grants[i], grants[j])
    &&& forall|i: int|
        0 <= i < grants.len() ==> (#[trigger] grants[i]).access == if asked_for_reading(
            asks,
            grants[i],
        ) {
            AccessMode::Read
        } else {
            AccessMode::ReadWrite
        }
}

proof fn lemma_one_for_each(asks: Seq<GrantView>, grants: Seq<GrantView>)
    requires
        distinct(grants),
        in_first_order(asks, grants),
        forall|j: int| 0 <= j < asks.len() ==> #[trigger] covered(grants, asks[j]),
        forall|i: int|
            0 <= i < grants.len() ==> (#[trigger] grants[i]).access == if only_read(
                asks,
                grants[i],
            ) {
                AccessMode::Read
            } else {
                AccessMode::ReadWrite
            },
    ensures
        one_for_each(asks, grants),
{
    assert forall|i: int, j: int| 0 <= i < j < grants.len() implies !#[trigger] on_one_thing(
        grants[i],
        grants[j],
    ) by {
        assert(!same_target(grants[i], grants[j]));
    }
    assert forall|k: int| 0 <= k < asks.len() implies #[trigger] has_grant(grants, asks[k]) by {
        assert(covered(grants, asks[k]));
        let i = choose|i: int|
            #![trigger grants[i]]
            0 <= i < grants.len() && same_target(grants[i], asks[k]) && includes(
                grants[i].access,
                asks[k].access,
            );
        assert(on_one_thing(grants[i], asks[k]));
    }
    assert forall|i: int| 0 <= i < grants.len() implies #[trigger] has_first_path(
        asks,
        grants[i],
    ) by {
        lemma_first_path(asks, grants[i]);
    }
    assert forall|i: int, j: int| 0 <= i < j < grants.len() implies #[trigger] asked_before(
        asks,
        grants[i],
        grants[j],
    ) by {
        assert(target_from(asks, grants[i], 0) < target_from(asks, grants[j], 0));
        lemma_asked_before(asks, grants[i], grants[j]);
    }
    assert forall|i: int| 0 <= i < grants.len() implies (#[trigger] grants[i]).access
        == if asked_for_reading(asks, grants[i]) {
        AccessMode::Read
    } else {
        AccessMode::ReadWrite
    } by {
        lemma_asked_for_reading(asks, grants[i]);
    }
}

proof fn lemma_first_path(asks: Seq<GrantView>, grant: GrantView)
    requires
        target_from(asks, grant, 0) < asks.len(),
        asks[target_from(asks, grant, 0)].path == grant.path,
        asks[target_from(asks, grant, 0)].kind == grant.kind,
    ensures
        has_first_path(asks, grant),
{
    lemma_first_target(asks, grant, 0);
    let k = target_from(asks, grant, 0);
    assert(asks[k].path == grant.path);
    assert forall|l: int| 0 <= l < k implies !on_one_thing(#[trigger] asks[l], grant) by {
        assert(!same_target(asks[l], grant));
    }
}

proof fn lemma_asked_before(asks: Seq<GrantView>, first: GrantView, second: GrantView)
    requires
        target_from(asks, first, 0) < target_from(asks, second, 0),
    ensures
        asked_before(asks, first, second),
{
    lemma_first_target(asks, first, 0);
    lemma_first_target(asks, second, 0);
    let k = target_from(asks, first, 0);
    assert(on_one_thing(asks[k], first));
    assert forall|l: int| 0 <= l <= k implies !on_one_thing(#[trigger] asks[l], second) by {
        assert(!same_target(asks[l], second));
    }
}

proof fn lemma_asked_for_reading(asks: Seq<GrantView>, grant: GrantView)
    ensures
        asked_for_reading(asks, grant) == only_read(asks, grant),
{
    if only_read(asks, grant) {
        assert forall|k: int|
            0 <= k < asks.len() && on_one_thing(#[trigger] asks[k], grant) implies asks[k].access
            == AccessMode::Read by {
            assert(same_target(asks[k], grant));
        }
    }
    if asked_for_reading(asks, grant) {
        assert forall|k: int|
            0 <= k < asks.len() && same_target(#[trigger] asks[k], grant) implies asks[k].access
            == AccessMode::Read by {
            assert(on_one_thing(asks[k], grant));
        }
    }
}

/// Whether requests come to these grants: each of them to one of `asks`, and these
/// to one grant for each thing.
pub open spec fn come_to(
    world: World,
    bounds: Bounds,
    requested: Seq<RequestView>,
    asks: Seq<GrantView>,
    grants: Seq<GrantView>,
) -> bool {
    &&& asks.len() == requested.len()
    &&& forall|j: int|
        0 <= j < requested.len() ==> comes_to(
            world,
            bounds,
            #[trigger] requested[j],
            asks[j],
        )
    &&& one_for_each(asks, grants)
}

/// Whether a request comes to a grant at all.
pub open spec fn comes_to_some(world: World, bounds: Bounds, request: RequestView) -> bool {
    exists|grant: GrantView| comes_to(world, bounds, request, grant)
}

/// Whether this is why the first request that comes to no grant is refused.
pub open spec fn first_refused(
    world: World,
    bounds: Bounds,
    requested: Seq<RequestView>,
    error: ErrorView,
) -> bool {
    exists|j: int|
        0 <= j < requested.len() && refused_for(world, bounds, #[trigger] requested[j], error)
            && forall|k: int|
            0 <= k < j ==> comes_to_some(world, bounds, #[trigger] requested[k])
}

/// Whether requests come to this within their bounds.
pub open spec fn right_outcome(
    world: World,
    bounds: Bounds,
    requested: Seq<RequestView>,
    result: Result<Seq<GrantView>, ErrorView>,
) -> bool {
    match result {
        Ok(grants) => exists|asks: Seq<GrantView>|
            come_to(world, bounds, requested, asks, grants),
        Err(error) => first_refused(world, bounds, requested, error),
    }
}

/// Whether a request text comes to this, held against a ceiling and denied paths.
pub open spec fn right_decision(
    world: World,
    setup: Setup,
    encoded: Seq<u8>,
    result: Result<Seq<GrantView>, ErrorView>,
) -> bool {
    match (world.envelope)(encoded) {
        Err(message) => result == Err::<Seq<GrantView>, ErrorView>(
            ErrorView::InvalidJson { message },
        ),
        Ok(requested) => if requested.len() == 0 {
            result == Err::<Seq<GrantView>, ErrorView>(ErrorView::EmptyRequest)
        } else if requested.len() > 32 {
            result == Err::<Seq<GrantView>, ErrorView>(ErrorView::TooManyGrants)
        } else {
            match (world.canonical)(setup.request_cwd) {
                None => result == Err::<Seq<GrantView>, ErrorView>(
                    ErrorView::PathCanonicalization { path: setup.request_cwd },
                ),
                Some(cwd) => {
                    ||| result matches Err(error) && first_wrong_root(
                        world,
                        setup.policy_root,
                        cwd,
                        setup.read_entries,
                        error,
                    )
                    ||| exists|read_roots: Seq<Seq<u8>>| #[trigger]
                        name_roots(world, setup.policy_root, cwd, setup.read_entries, read_roots)
                            && right_after_reading(
                            world,
                            setup,
                            requested,
                            cwd,
                            read_roots,
                            result,
                        )
                },
            }
        },
    }
}

/// The same from the roots for writing on.
pub open spec fn right_after_reading(
    world: World,
    setup: Setup,
    requested: Seq<RequestView>,
    cwd: Seq<u8>,
    read_roots: Seq<Seq<u8>>,
    result: Result<Seq<GrantView>, ErrorView>,
) -> bool {
    ||| result matches Err(error) && first_wrong_root(
        world,
        setup.policy_root,
        cwd,
        setup.write_entries,
        error,
    )
    ||| exists|write_roots: Seq<Seq<u8>>| #[trigger]
        name_roots(world, setup.policy_root, cwd, setup.write_entries, write_roots)
            && right_outcome(
            world,
            Bounds { cwd, read_roots, write_roots, denies: setup.deny_paths },
            requested,
            result,
        )
}

/// What a request comes to is right. A text that cannot be read is refused for
/// that, as is one that asks for nothing or for more than 32 grants, and one from
/// a working directory that does not exist. Then the first entry of the ceiling
/// that names no root decides, those for reading before those for writing; then
/// the first request that cannot be granted. Else every request gets what it asks
/// for.
pub proof fn law_decision(
    world: World,
    env: Seq<Seq<u8>>,
    at: int,
    request_cwd: Seq<u8>,
    ceiling: CommandApprovalFilesystemConfig,
    policy_root: Seq<u8>,
    deny_paths: Seq<Seq<u8>>,
)
    requires
        0 <= at < env.len(),
        request_lead().is_prefix_of(env[at]),
        forall|i: int|
            0 <= i < env.len() && i != at ==> !request_lead().is_prefix_of(#[trigger] env[i]),
    ensures
        right_decision(
            world,
            setup_of(request_cwd, ceiling, policy_root, deny_paths),
            env[at].skip(request_lead().len() as int),
            decided(world, env, request_cwd, Some(ceiling), policy_root, deny_paths),
        ),
{
    let setup = setup_of(request_cwd, ceiling, policy_root, deny_paths);
    let encoded = env[at].skip(request_lead().len() as int);
    let result = decided(world, env, request_cwd, Some(ceiling), policy_root, deny_paths);
    law_requests_by_position(env);
    assert(requests(env) == seq![encoded]);
    if let Ok(requested) = (world.envelope)(encoded) {
        if 0 < requested.len() <= 32 {
            if let Some(cwd) = (world.canonical)(request_cwd) {
                law_roots(world, setup, cwd, setup.read_entries);
                law_roots(world, setup, cwd, setup.write_entries);
                if let Ok(read_roots) = roots_from(
                    world,
                    setup,
                    cwd,
                    setup.read_entries,
                    Seq::empty(),
                ) {
                    assert(name_roots(
                        world,
                        setup.policy_root,
                        cwd,
                        setup.read_entries,
                        read_roots,
                    ));
                    if let Ok(write_roots) = roots_from(
                        world,
                        setup,
                        cwd,
                        setup.write_entries,
                        Seq::empty(),
                    ) {
                        assert(name_roots(
                            world,
                            setup.policy_root,
                            cwd,
                            setup.write_entries,
                            write_roots,
                        ));
                        lemma_decision(world, env, request_cwd, ceiling, policy_root, deny_paths);
                    }
                    assert(right_after_reading(world, setup, requested, cwd, read_roots, result));
                }
            }
        }
    }
}

/// What the requests come to once everything that they are held against is there.
proof fn lemma_right_grants(
    world: World,
    env: Seq<Seq<u8>>,
    request_cwd: Seq<u8>,
    ceiling: CommandApprovalFilesystemConfig,
    policy_root: Seq<u8>,
    deny_paths: Seq<Seq<u8>>,
    grants: Seq<GrantView>,
) -> (asks: Seq<GrantView>)
    requires
        requests(env).len() == 1,
        decided(world, env, request_cwd, Some(ceiling), policy_root, deny_paths) == Ok::<
            Seq<GrantView>,
            ErrorView,
        >(grants),
    ensures
        ({
            let setup = setup_of(request_cwd, ceiling, policy_root, deny_paths);
            let work = found(world, setup, requests(env)[0]);
            come_to(world, bounds_of(work), work.requested, asks, grants)
        }),
{
    let setup = setup_of(request_cwd, ceiling, policy_root, deny_paths);
    let work = found(world, setup, requests(env)[0]);
    let bounds = bounds_of(work);
    let requested = work.requested;
    let asks = asked(world, work, requested.len());
    law_decision_is_in_order(world, env, request_cwd, ceiling, policy_root, deny_paths, grants);
    law_grants_are_proper(world, env, request_cwd, ceiling, policy_root, deny_paths, grants);
    assert forall|j: int| 0 <= j < asks.len() implies #[trigger] covered(grants, asks[j]) by {
        law_grants_are_what_was_asked(
            world,
            env,
            request_cwd,
            ceiling,
            policy_root,
            deny_paths,
            grants,
        );
    }
    lemma_one_for_each(asks, grants);
    assert forall|j: int| 0 <= j < requested.len() implies comes_to(
        world,
        bounds,
        #[trigger] requested[j],
        asks[j],
    ) by {
        assert(grant_for(world, work, requested[j]) is Ok);
        law_one_request(world, work, requested[j]);
    }
    asks
}

proof fn lemma_right_refusal(world: World, work: WorkView, error: ErrorView)
    requires
        !all_granted(world, work, 0),
        forall|bad: int| #[trigger]
            first_bad(world, work, 0, bad) ==> error == grant_for(
                world,
                work,
                work.requested[bad],
            )->Err_0,
    ensures
        first_refused(world, bounds_of(work), work.requested, error),
{
    let bounds = bounds_of(work);
    let requested = work.requested;
    let bad = lemma_first_refused(world, work, 0);
    law_one_request(world, work, requested[bad]);
    assert(refused_for(world, bounds, requested[bad], error));
    assert forall|k: int| 0 <= k < bad implies comes_to_some(
        world,
        bounds,
        #[trigger] requested[k],
    ) by {
        law_one_request(world, work, requested[k]);
        assert(comes_to(world, bounds, requested[k], grant_for(world, work, requested[k])->Ok_0));
    }
}

/// What the requests come to once everything that they are held against is there.
proof fn lemma_decision(
    world: World,
    env: Seq<Seq<u8>>,
    request_cwd: Seq<u8>,
    ceiling: CommandApprovalFilesystemConfig,
    policy_root: Seq<u8>,
    deny_paths: Seq<Seq<u8>>,
)
    requires
        requests(env).len() == 1,
        ready(world, setup_of(request_cwd, ceiling, policy_root, deny_paths), requests(env)[0]),
    ensures
        ({
            let setup = setup_of(request_cwd, ceiling, policy_root, deny_paths);
            let work = found(world, setup, requests(env)[0]);
            right_outcome(
                world,
                bounds_of(work),
                work.requested,
                decided(world, env, request_cwd, Some(ceiling), policy_root, deny_paths),
            )
        }),
{
    let setup = setup_of(request_cwd, ceiling, policy_root, deny_paths);
    let work = found(world, setup, requests(env)[0]);
    match decided(world, env, request_cwd, Some(ceiling), policy_root, deny_paths) {
        Ok(grants) => {
            let asks = lemma_right_grants(
                world,
                env,
                request_cwd,
                ceiling,
                policy_root,
                deny_paths,
                grants,
            );
            assert(come_to(world, bounds_of(work), work.requested, asks, grants));
        },
        Err(error) => {
            law_first_bad_request_decides(
                world,
                env,
                request_cwd,
                ceiling,
                policy_root,
                deny_paths,
            );
            lemma_right_refusal(world, work, error);
        },
    }
}

proof fn lemma_first_refused(world: World, work: WorkView, from: int) -> (bad: int)
    requires
        0 <= from <= work.requested.len(),
        forall|j: int|
            0 <= j < from ==> grant_for(world, work, #[trigger] work.requested[j]) is Ok,
        !all_granted(world, work, 0),
    ensures
        first_bad(world, work, 0, bad),
    decreases work.requested.len() - from,
{
    if from < work.requested.len() && grant_for(world, work, work.requested[from]) is Ok {
        lemma_first_refused(world, work, from + 1)
    } else {
        from
    }
}

/// Nothing that is denied is granted: no grant is on a denied path or on anything
/// below one, and no path at all lies both below a granted directory and below a
/// denied path.
pub proof fn law_nothing_denied_is_granted(
    world: World,
    env: Seq<Seq<u8>>,
    request_cwd: Seq<u8>,
    ceiling: CommandApprovalFilesystemConfig,
    policy_root: Seq<u8>,
    deny_paths: Seq<Seq<u8>>,
    grants: Seq<GrantView>,
    i: int,
    k: int,
    reached: Seq<u8>,
)
    requires
        decided(world, env, request_cwd, Some(ceiling), policy_root, deny_paths) == Ok::<
            Seq<GrantView>,
            ErrorView,
        >(grants),
        0 <= i < grants.len(),
        0 <= k < deny_paths.len(),
    ensures
        ({
            let denied = match (world.canonical)(deny_paths[k]) {
                Some(canonical) => canonical,
                None => deny_paths[k],
            };
            &&& !leads(denied, grants[i].path)
            &&& grants[i].kind == CommandFilesystemGrantKind::Directory ==> {
                &&& !leads(grants[i].path, denied)
                &&& !(leads(grants[i].path, reached) && leads(denied, reached))
            }
        }),
{
    let setup = setup_of(request_cwd, ceiling, policy_root, deny_paths);
    let work = found(world, setup, requests(env)[0]);
    let denied = world.denied(deny_paths[k]);
    assert(requests(env).len() == 1);
    law_grants_are_proper(world, env, request_cwd, ceiling, policy_root, deny_paths, grants);
    assert(proper(world, work, grants[i]));
    assert(!overlaps(grants[i].path, grants[i].kind, world.denied(setup.deny_paths[k])));
    law_overlap(grants[i].path, grants[i].kind, denied, Seq::empty(), reached);
}

} // verus!
