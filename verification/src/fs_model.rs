//! The course of a filesystem request, as a mathematical state machine.
//!
//! [`started`] says where a request starts, [`ResolutionView::question`] what is
//! asked in each state, and [`ResolutionView::next`] where each answer leads.
use crate::error::ErrorView;
use crate::fs_approval::{
    requests, AnswerView, FileType, QuestionView, MAX_REQUESTED_GRANTS,
};
use crate::grant::{
    merge, normalized, writes, AccessMode, CommandFilesystemGrantKind, GrantView, RequestView,
};
use crate::path::{below, joined, root, same};
use crate::policy::CommandApprovalFilesystemConfig;
use crate::text::all_chars;
use vstd::prelude::*;
use vstd::utf8::encode_utf8;

verus! {

/// What a request is held against.
pub struct Setup {
    pub request_cwd: Seq<u8>,
    pub read_entries: Seq<Seq<char>>,
    pub write_entries: Seq<Seq<char>>,
    pub policy_root: Seq<u8>,
    pub deny_paths: Seq<Seq<u8>>,
}

/// What has been found out so far.
pub struct WorkView {
    pub setup: Setup,
    pub requested: Seq<RequestView>,
    pub cwd: Seq<u8>,
    pub read_roots: Seq<Seq<u8>>,
    pub write_roots: Seq<Seq<u8>>,
    pub grants: Seq<GrantView>,
}

/// What is being waited for.
pub enum StageView {
    Envelope { encoded: Seq<u8> },
    Cwd,
    RootExpand,
    RootCanonical { path: Seq<u8> },
    RootInspect { path: Seq<u8> },
    GrantCanonical { index: int, path: Seq<u8> },
    GrantInspect { index: int, path: Seq<u8> },
    GrantDeny { index: int, path: Seq<u8>, deny: int },
}

/// The contents of a `Resolution`.
pub struct ResolutionView {
    pub work: WorkView,
    pub stage: StageView,
}

/// The contents of a `Progress`.
pub enum ProgressView {
    Pending(ResolutionView),
    Done(Result<Seq<GrantView>, ErrorView>),
}

/// The end of a resolution by a refusal.
pub open spec fn refused(error: ErrorView) -> ProgressView {
    ProgressView::Done(Err(error))
}

/// Whether a requested path is empty or holds a NUL byte.
pub open spec fn unusable(request: Seq<char>) -> bool {
    request.len() == 0 || encode_utf8(request).contains(0)
}

/// Whether a grant on `path` would reach into what `deny` denies. A grant on a
/// directory also reaches what lies below it.
pub open spec fn overlaps(
    path: Seq<u8>,
    kind: CommandFilesystemGrantKind,
    deny: Seq<u8>,
) -> bool {
    below(path, deny) || (kind == CommandFilesystemGrantKind::Directory && below(deny, path))
}

/// Whether `path` is one of `roots` or lies below one of them.
pub open spec fn below_any(path: Seq<u8>, roots: Seq<Seq<u8>>) -> bool {
    exists|i: int| 0 <= i < roots.len() && below(path, #[trigger] roots[i])
}

/// Whether the ceiling admits `access` on `path`: what can be written can also
/// be read, but not the other way round.
pub open spec fn admitted(
    path: Seq<u8>,
    access: AccessMode,
    read_roots: Seq<Seq<u8>>,
    write_roots: Seq<Seq<u8>>,
) -> bool {
    below_any(path, write_roots) || (!writes(access) && below_any(path, read_roots))
}

/// Whether two grants are on the same thing.
pub open spec fn same_target(left: GrantView, right: GrantView) -> bool {
    same(left.path, right.path) && left.kind == right.kind
}

/// The position of the first grant from `from` on with the target of `grant`, or
/// the number of grants where there is none.
pub open spec fn target_from(grants: Seq<GrantView>, grant: GrantView, from: int) -> int
    decreases grants.len() - from,
{
    if 0 <= from < grants.len() && !same_target(grants[from], grant) {
        target_from(grants, grant, from + 1)
    } else {
        from
    }
}

/// The grants with one more: access to a target that has a grant already is
/// merged into that one.
pub open spec fn absorbed(grants: Seq<GrantView>, grant: GrantView) -> Seq<GrantView> {
    let at = target_from(grants, grant, 0);
    if at < grants.len() {
        grants.update(
            at,
            GrantView { access: merge(grants[at].access, grant.access), ..grants[at] },
        )
    } else {
        grants.push(grant)
    }
}

impl WorkView {
    /// Waits at a stage.
    pub open spec fn at(self, stage: StageView) -> ProgressView {
        ProgressView::Pending(ResolutionView { work: self, stage })
    }

    /// The root of the ceiling whose turn it is: those for reading come first.
    pub open spec fn entry(self) -> Seq<char> {
        if self.read_roots.len() < self.setup.read_entries.len() {
            self.setup.read_entries[self.read_roots.len() as int]
        } else {
            self.setup.write_entries[self.write_roots.len() as int]
        }
    }

    /// Whether there is a root of the ceiling whose turn it is.
    pub open spec fn wants_root(self) -> bool {
        self.read_roots.len() < self.setup.read_entries.len() || self.write_roots.len()
            < self.setup.write_entries.len()
    }

    /// Goes on to the next root of the ceiling, or to the requests.
    pub open spec fn next_root(self) -> ProgressView {
        if self.wants_root() {
            self.at(StageView::RootExpand)
        } else {
            self.next_request(0)
        }
    }

    /// Adds the root whose turn it is.
    pub open spec fn with_root(self, path: Seq<u8>) -> WorkView {
        if self.read_roots.len() < self.setup.read_entries.len() {
            WorkView { read_roots: self.read_roots.push(path), ..self }
        } else {
            WorkView { write_roots: self.write_roots.push(path), ..self }
        }
    }

    /// Goes on to the request at `index`, or to the end.
    pub open spec fn next_request(self, index: int) -> ProgressView {
        if index >= self.requested.len() {
            ProgressView::Done(Ok(self.grants))
        } else if unusable(self.requested[index].path) {
            refused(ErrorView::InvalidPath)
        } else {
            self.at(
                StageView::GrantCanonical {
                    index,
                    path: joined(self.cwd, encode_utf8(self.requested[index].path)),
                },
            )
        }
    }

    /// Goes on to the denied path at `deny`, or to the ceiling.
    pub open spec fn next_deny(self, index: int, path: Seq<u8>, deny: int) -> ProgressView {
        if deny < self.setup.deny_paths.len() {
            self.at(StageView::GrantDeny { index, path, deny })
        } else {
            self.settle(index, path)
        }
    }

    /// Holds a request that nothing denies against the ceiling.
    pub open spec fn settle(self, index: int, path: Seq<u8>) -> ProgressView {
        let access = normalized(self.requested[index].access);
        if !admitted(path, access, self.read_roots, self.write_roots) {
            refused(ErrorView::ExceedsCeiling { path, access })
        } else {
            let grant = GrantView { path, access, kind: self.requested[index].kind };
            (WorkView { grants: absorbed(self.grants, grant), ..self }).next_request(index + 1)
        }
    }
}

impl ResolutionView {
    /// The question that is waited for.
    pub open spec fn question(self) -> QuestionView {
        match self.stage {
            StageView::Envelope { encoded } => QuestionView::Envelope(encoded),
            StageView::Cwd => QuestionView::Canonicalize(self.work.setup.request_cwd),
            StageView::RootExpand => QuestionView::Expand {
                entry: self.work.entry(),
                policy_root: self.work.setup.policy_root,
            },
            StageView::RootCanonical { path } => QuestionView::Canonicalize(path),
            StageView::RootInspect { path } => QuestionView::Inspect(path),
            StageView::GrantCanonical { index, path } => QuestionView::Canonicalize(path),
            StageView::GrantInspect { index, path } => QuestionView::Inspect(path),
            StageView::GrantDeny { index, path, deny } => QuestionView::Canonicalize(
                self.work.setup.deny_paths[deny],
            ),
        }
    }

    /// Whether the question is about something that there is.
    pub open spec fn wf(self) -> bool {
        let work = self.work;
        match self.stage {
            StageView::Envelope { encoded } => true,
            StageView::Cwd => true,
            StageView::RootExpand => work.wants_root(),
            StageView::RootCanonical { path } => work.wants_root(),
            StageView::RootInspect { path } => work.wants_root(),
            StageView::GrantCanonical { index, path } => 0 <= index < work.requested.len(),
            StageView::GrantInspect { index, path } => 0 <= index < work.requested.len(),
            StageView::GrantDeny { index, path, deny } => {
                &&& 0 <= index < work.requested.len()
                &&& 0 <= deny < work.setup.deny_paths.len()
            },
        }
    }

    /// What an answer leads to. An answer to some other question leads nowhere.
    pub open spec fn next(self, answer: AnswerView) -> ProgressView {
        let work = self.work;
        match (self.stage, answer) {
            (StageView::Envelope { encoded }, AnswerView::Envelope(Err(message))) => refused(
                ErrorView::InvalidJson { message },
            ),
            (StageView::Envelope { encoded }, AnswerView::Envelope(Ok(requested))) => if requested.len()
                == 0 {
                refused(ErrorView::EmptyRequest)
            } else if requested.len() > MAX_REQUESTED_GRANTS {
                refused(ErrorView::TooManyGrants)
            } else {
                (WorkView { requested, ..work }).at(StageView::Cwd)
            },
            (StageView::Cwd, AnswerView::Canonical(None)) => refused(
                ErrorView::PathCanonicalization { path: work.setup.request_cwd },
            ),
            (StageView::Cwd, AnswerView::Canonical(Some(cwd))) => (WorkView {
                cwd,
                ..work
            }).next_root(),
            (StageView::RootExpand, AnswerView::Expanded(None)) => refused(
                ErrorView::Expansion { entry: work.entry() },
            ),
            (StageView::RootExpand, AnswerView::Expanded(Some(path))) => work.at(
                StageView::RootCanonical { path: joined(work.cwd, path) },
            ),
            (StageView::RootCanonical { path }, AnswerView::Canonical(None)) => refused(
                ErrorView::PathCanonicalization { path },
            ),
            (StageView::RootCanonical { path }, AnswerView::Canonical(Some(canonical))) => if root(
                canonical,
            ) {
                refused(ErrorView::UnusableRoot { path: canonical })
            } else {
                work.at(StageView::RootInspect { path: canonical })
            },
            (StageView::RootInspect { path }, AnswerView::Inspected(found)) => if found == Some(
                FileType::Directory,
            ) {
                work.with_root(path).next_root()
            } else {
                refused(ErrorView::UnusableRoot { path })
            },
            (StageView::GrantCanonical { index, path }, AnswerView::Canonical(None)) => refused(
                ErrorView::PathCanonicalization { path },
            ),
            (
                StageView::GrantCanonical { index, path },
                AnswerView::Canonical(Some(canonical)),
            ) => if root(canonical) {
                refused(ErrorView::FilesystemRoot)
            } else {
                work.at(StageView::GrantInspect { index, path: canonical })
            },
            (StageView::GrantInspect { index, path }, AnswerView::Inspected(None)) => refused(
                ErrorView::ConfigRead { path },
            ),
            (StageView::GrantInspect { index, path }, AnswerView::Inspected(Some(found))) => {
                let kind = work.requested[index].kind;
                if kind == CommandFilesystemGrantKind::File && found != FileType::File {
                    refused(ErrorView::ExpectedFile { path })
                } else if kind == CommandFilesystemGrantKind::Directory && found
                    != FileType::Directory {
                    refused(ErrorView::ExpectedDirectory { path })
                } else {
                    work.next_deny(index, path, 0)
                }
            },
            (StageView::GrantDeny { index, path, deny }, AnswerView::Canonical(canonical)) => {
                let denied = match canonical {
                    Some(canonical) => canonical,
                    None => work.setup.deny_paths[deny],
                };
                if overlaps(path, work.requested[index].kind, denied) {
                    refused(ErrorView::DeniedPath { path })
                } else {
                work.next_deny(index, path, deny + 1)
                }
            },
            _ => ProgressView::Pending(self),
        }
    }
}

/// The setup that a policy and the circumstances of a request make.
pub open spec fn setup_of(
    request_cwd: Seq<u8>,
    ceiling: CommandApprovalFilesystemConfig,
    policy_root: Seq<u8>,
    deny_paths: Seq<Seq<u8>>,
) -> Setup {
    Setup {
        request_cwd,
        read_entries: all_chars(ceiling.read_roots@),
        write_entries: all_chars(ceiling.write_roots@),
        policy_root,
        deny_paths,
    }
}

/// Nothing found out yet.
pub open spec fn untouched(setup: Setup) -> WorkView {
    WorkView {
        setup,
        requested: Seq::empty(),
        cwd: Seq::empty(),
        read_roots: Seq::empty(),
        write_roots: Seq::empty(),
        grants: Seq::empty(),
    }
}

/// Where a resolution starts. Without a request nothing is granted, and nothing
/// is asked; with more than one, or with no ceiling to hold it against, it is
/// refused unread.
pub open spec fn started(
    env: Seq<Seq<u8>>,
    request_cwd: Seq<u8>,
    ceiling: Option<CommandApprovalFilesystemConfig>,
    policy_root: Seq<u8>,
    deny_paths: Seq<Seq<u8>>,
) -> ProgressView {
    if requests(env).len() == 0 {
        ProgressView::Done(Ok(Seq::empty()))
    } else if requests(env).len() > 1 {
        refused(ErrorView::DuplicateRequest)
    } else {
        match ceiling {
            None => refused(ErrorView::NoCeiling),
            Some(ceiling) => {
                let work = untouched(
                    setup_of(request_cwd, ceiling, policy_root, deny_paths),
                );
                work.at(StageView::Envelope { encoded: requests(env)[0] })
            },
        }
    }
}

} // verus!
