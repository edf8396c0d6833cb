//! Why a filesystem request is refused.
use crate::grant::AccessMode;
use crate::path;
use crate::text;
use crate::text::{lossy, shown};
use vstd::prelude::*;
use vstd::utf8::{decode_utf8, valid_utf8};

verus! {

/// What can stand in the way of a filesystem request.
#[derive(Debug)]
pub enum ApprovalError {
    /// The environment holds more than one request.
    DuplicateRequest,
    /// There is a request, but the policy has no ceiling for it.
    NoCeiling,
    /// The request cannot be read, for the reason given.
    InvalidJson { message: String },
    /// The request asks for nothing.
    EmptyRequest,
    /// The request asks for more grants than one request may.
    TooManyGrants,
    /// A requested path is empty or holds a NUL byte.
    InvalidPath,
    /// The path cannot be canonicalized.
    PathCanonicalization { path: Vec<u8> },
    /// A root of the ceiling cannot be expanded.
    Expansion { entry: String },
    /// A root of the ceiling is `/` or no directory.
    UnusableRoot { path: Vec<u8> },
    /// A requested path is the root of the filesystem.
    FilesystemRoot,
    /// The metadata of the path cannot be read.
    ConfigRead { path: Vec<u8> },
    /// The path was requested as a file and is none.
    ExpectedFile { path: Vec<u8> },
    /// The path was requested as a directory and is none.
    ExpectedDirectory { path: Vec<u8> },
    /// The path overlaps a denied one.
    DeniedPath { path: Vec<u8> },
    /// The path lies outside of the ceiling for this access.
    ExceedsCeiling { path: Vec<u8>, access: AccessMode },
    /// The path of an approved grant is not UTF-8.
    NotUtf8 { path: Vec<u8> },
}

/// The contents of an `ApprovalError`.
pub enum ErrorView {
    DuplicateRequest,
    NoCeiling,
    InvalidJson { message: Seq<char> },
    EmptyRequest,
    TooManyGrants,
    InvalidPath,
    PathCanonicalization { path: Seq<u8> },
    Expansion { entry: Seq<char> },
    UnusableRoot { path: Seq<u8> },
    FilesystemRoot,
    ConfigRead { path: Seq<u8> },
    ExpectedFile { path: Seq<u8> },
    ExpectedDirectory { path: Seq<u8> },
    DeniedPath { path: Seq<u8> },
    ExceedsCeiling { path: Seq<u8>, access: AccessMode },
    NotUtf8 { path: Seq<u8> },
}

impl View for ApprovalError {
    type V = ErrorView;

    open spec fn view(&self) -> ErrorView {
        match self {
            ApprovalError::DuplicateRequest => ErrorView::DuplicateRequest,
            ApprovalError::NoCeiling => ErrorView::NoCeiling,
            ApprovalError::InvalidJson { message } => ErrorView::InvalidJson { message: message@ },
            ApprovalError::EmptyRequest => ErrorView::EmptyRequest,
            ApprovalError::TooManyGrants => ErrorView::TooManyGrants,
            ApprovalError::InvalidPath => ErrorView::InvalidPath,
            ApprovalError::PathCanonicalization { path } => ErrorView::PathCanonicalization {
                path: path@,
            },
            ApprovalError::Expansion { entry } => ErrorView::Expansion { entry: entry@ },
            ApprovalError::UnusableRoot { path } => ErrorView::UnusableRoot { path: path@ },
            ApprovalError::FilesystemRoot => ErrorView::FilesystemRoot,
            ApprovalError::ConfigRead { path } => ErrorView::ConfigRead { path: path@ },
            ApprovalError::ExpectedFile { path } => ErrorView::ExpectedFile { path: path@ },
            ApprovalError::ExpectedDirectory { path } => ErrorView::ExpectedDirectory {
                path: path@,
            },
            ApprovalError::DeniedPath { path } => ErrorView::DeniedPath { path: path@ },
            ApprovalError::ExceedsCeiling { path, access } => ErrorView::ExceedsCeiling {
                path: path@,
                access: *access,
            },
            ApprovalError::NotUtf8 { path } => ErrorView::NotUtf8 { path: path@ },
        }
    }
}

/// How a refusal is reported to the caller.
#[derive(Debug)]
pub enum NonoError {
    /// Something could not be parsed.
    ConfigParse(String),
    /// A command was blocked.
    BlockedCommand { command: String, reason: String },
    /// A path could not be canonicalized.
    PathCanonicalization { path: Vec<u8> },
    /// The variables of an entry could not be expanded.
    Expansion { entry: String },
    /// A path could not be read.
    ConfigRead { path: Vec<u8> },
    /// A path should be a file.
    ExpectedFile(Vec<u8>),
    /// A path should be a directory.
    ExpectedDirectory(Vec<u8>),
}

/// The contents of a `NonoError`.
pub enum ReportView {
    ConfigParse(Seq<char>),
    BlockedCommand { command: Seq<char>, reason: Seq<char> },
    PathCanonicalization { path: Seq<u8> },
    Expansion { entry: Seq<char> },
    ConfigRead { path: Seq<u8> },
    ExpectedFile(Seq<u8>),
    ExpectedDirectory(Seq<u8>),
}

impl View for NonoError {
    type V = ReportView;

    open spec fn view(&self) -> ReportView {
        match self {
            NonoError::ConfigParse(text) => ReportView::ConfigParse(text@),
            NonoError::BlockedCommand { command, reason } => ReportView::BlockedCommand {
                command: command@,
                reason: reason@,
            },
            NonoError::PathCanonicalization { path } => ReportView::PathCanonicalization {
                path: path@,
            },
            NonoError::Expansion { entry } => ReportView::Expansion { entry: entry@ },
            NonoError::ConfigRead { path } => ReportView::ConfigRead { path: path@ },
            NonoError::ExpectedFile(path) => ReportView::ExpectedFile(path@),
            NonoError::ExpectedDirectory(path) => ReportView::ExpectedDirectory(path@),
        }
    }
}

/// The name of an access mode.
pub open spec fn access_name(access: AccessMode) -> Seq<char> {
    match access {
        AccessMode::Read => "read"@,
        AccessMode::Write => "write"@,
        AccessMode::ReadWrite => "read+write"@,
    }
}

/// A blocked filesystem approval.
pub open spec fn blocked(reason: Seq<char>) -> ReportView {
    ReportView::BlockedCommand { command: "filesystem approval"@, reason }
}

/// The report of each refusal.
pub open spec fn report_of(error: ErrorView) -> ReportView {
    match error {
        ErrorView::DuplicateRequest => ReportView::ConfigParse(
            "tool-sandbox request contains duplicate NONO_TOOL_SANDBOX_FS_REQUEST entries"@,
        ),
        ErrorView::NoCeiling => blocked(
            "NONO_TOOL_SANDBOX_FS_REQUEST was supplied but the selected command sandbox has no approval_fs ceiling"@,
        ),
        ErrorView::InvalidJson { message } => ReportView::ConfigParse(
            "invalid NONO_TOOL_SANDBOX_FS_REQUEST JSON: "@ + message,
        ),
        ErrorView::EmptyRequest => ReportView::ConfigParse(
            "NONO_TOOL_SANDBOX_FS_REQUEST.filesystem must not be empty"@,
        ),
        ErrorView::TooManyGrants => ReportView::ConfigParse(
            "NONO_TOOL_SANDBOX_FS_REQUEST exceeds the 32-grant limit"@,
        ),
        ErrorView::InvalidPath => ReportView::ConfigParse(
            "tool-sandbox filesystem request contains an empty path or NUL byte"@,
        ),
        ErrorView::PathCanonicalization { path } => ReportView::PathCanonicalization { path },
        ErrorView::Expansion { entry } => ReportView::Expansion { entry },
        ErrorView::UnusableRoot { path } => blocked(
            "approval_fs root must be an existing directory below '/': "@ + shown(path),
        ),
        ErrorView::FilesystemRoot => blocked("cannot grant the filesystem root"@),
        ErrorView::ConfigRead { path } => ReportView::ConfigRead { path },
        ErrorView::ExpectedFile { path } => ReportView::ExpectedFile(path),
        ErrorView::ExpectedDirectory { path } => ReportView::ExpectedDirectory(path),
        ErrorView::DeniedPath { path } => blocked(
            "requested path overlaps a deny: "@ + shown(path),
        ),
        ErrorView::ExceedsCeiling { path, access } => blocked(
            "requested path exceeds its approval_fs ceiling: "@ + shown(path) + " ("@ + access_name(
                access,
            ) + ")"@,
        ),
        ErrorView::NotUtf8 { path } => ReportView::ConfigParse(
            "approved filesystem path is not UTF-8: "@ + shown(path),
        ),
    }
}

/// The name of an access mode, as reports show it.
pub fn access_label(access: AccessMode) -> (label: &'static str)
    ensures
        label@ == access_name(access),
{
    match access {
        AccessMode::Read => "read",
        AccessMode::Write => "write",
        AccessMode::ReadWrite => "read+write",
    }
}

fn block(reason: String) -> (report: NonoError)
    ensures
        report@ == blocked(reason@),
{
    NonoError::BlockedCommand { command: "filesystem approval".to_owned(), reason }
}

fn with_path(lead: &str, path: &Vec<u8>) -> (text: String)
    ensures
        text@ == lead@ + shown(path@),
{
    lead.to_owned().concat(text::read_lossy(path.as_slice()).as_str())
}

impl ApprovalError {
    /// The refusal as the caller reports it.
    pub fn report(&self) -> (report: NonoError)
        ensures
            report@ == report_of(self@),
    {
        match self {
            ApprovalError::DuplicateRequest => NonoError::ConfigParse(
                "tool-sandbox request contains duplicate NONO_TOOL_SANDBOX_FS_REQUEST entries".to_owned(),
            ),
            ApprovalError::NoCeiling => block(
                "NONO_TOOL_SANDBOX_FS_REQUEST was supplied but the selected command sandbox has no approval_fs ceiling".to_owned(),
            ),
            ApprovalError::InvalidJson { message } => NonoError::ConfigParse(
                "invalid NONO_TOOL_SANDBOX_FS_REQUEST JSON: ".to_owned().concat(message.as_str()),
            ),
            ApprovalError::EmptyRequest => NonoError::ConfigParse(
                "NONO_TOOL_SANDBOX_FS_REQUEST.filesystem must not be empty".to_owned(),
            ),
            ApprovalError::TooManyGrants => NonoError::ConfigParse(
                "NONO_TOOL_SANDBOX_FS_REQUEST exceeds the 32-grant limit".to_owned(),
            ),
            ApprovalError::InvalidPath => NonoError::ConfigParse(
                "tool-sandbox filesystem request contains an empty path or NUL byte".to_owned(),
            ),
            ApprovalError::PathCanonicalization { path } => NonoError::PathCanonicalization {
                path: path::to_bytes(path.as_slice()),
            },
            ApprovalError::Expansion { entry } => NonoError::Expansion { entry: entry.clone() },
            ApprovalError::UnusableRoot { path } => block(
                with_path("approval_fs root must be an existing directory below '/': ", path),
            ),
            ApprovalError::FilesystemRoot => block("cannot grant the filesystem root".to_owned()),
            ApprovalError::ConfigRead { path } => NonoError::ConfigRead {
                path: path::to_bytes(path.as_slice()),
            },
            ApprovalError::ExpectedFile { path } => NonoError::ExpectedFile(
                path::to_bytes(path.as_slice()),
            ),
            ApprovalError::ExpectedDirectory { path } => NonoError::ExpectedDirectory(
                path::to_bytes(path.as_slice()),
            ),
            ApprovalError::DeniedPath { path } => block(
                with_path("requested path overlaps a deny: ", path),
            ),
            ApprovalError::ExceedsCeiling { path, access } => block(
                with_path("requested path exceeds its approval_fs ceiling: ", path).concat(
                    " (",
                ).concat(access_label(*access)).concat(")"),
            ),
            ApprovalError::NotUtf8 { path } => NonoError::ConfigParse(
                with_path("approved filesystem path is not UTF-8: ", path),
            ),
        }
    }
}

/// The contents of an error and of its report are those of their fields.
pub proof fn law_contents_of_errors(error: ApprovalError, report: NonoError)
    ensures
        match error {
            ApprovalError::DuplicateRequest => error@ == ErrorView::DuplicateRequest,
            ApprovalError::NoCeiling => error@ == ErrorView::NoCeiling,
            ApprovalError::InvalidJson { message } => error@ == (ErrorView::InvalidJson {
                message: message@,
            }),
            ApprovalError::EmptyRequest => error@ == ErrorView::EmptyRequest,
            ApprovalError::TooManyGrants => error@ == ErrorView::TooManyGrants,
            ApprovalError::InvalidPath => error@ == ErrorView::InvalidPath,
            ApprovalError::PathCanonicalization { path } => error@ == (
            ErrorView::PathCanonicalization { path: path@ }),
            ApprovalError::Expansion { entry } => error@ == (ErrorView::Expansion {
                entry: entry@,
            }),
            ApprovalError::UnusableRoot { path } => error@ == (ErrorView::UnusableRoot {
                path: path@,
            }),
            ApprovalError::FilesystemRoot => error@ == ErrorView::FilesystemRoot,
            ApprovalError::ConfigRead { path } => error@ == (ErrorView::ConfigRead { path: path@ }),
            ApprovalError::ExpectedFile { path } => error@ == (ErrorView::ExpectedFile {
                path: path@,
            }),
            ApprovalError::ExpectedDirectory { path } => error@ == (ErrorView::ExpectedDirectory {
                path: path@,
            }),
            ApprovalError::DeniedPath { path } => error@ == (ErrorView::DeniedPath { path: path@ }),
            ApprovalError::ExceedsCeiling { path, access } => error@ == (
            ErrorView::ExceedsCeiling { path: path@, access }),
            ApprovalError::NotUtf8 { path } => error@ == (ErrorView::NotUtf8 { path: path@ }),
        },
        match report {
            NonoError::ConfigParse(text) => report@ == ReportView::ConfigParse(text@),
            NonoError::BlockedCommand { command, reason } => report@ == (
            ReportView::BlockedCommand { command: command@, reason: reason@ }),
            NonoError::PathCanonicalization { path } => report@ == (
            ReportView::PathCanonicalization { path: path@ }),
            NonoError::Expansion { entry } => report@ == (ReportView::Expansion { entry: entry@ }),
            NonoError::ConfigRead { path } => report@ == (ReportView::ConfigRead { path: path@ }),
            NonoError::ExpectedFile(path) => report@ == ReportView::ExpectedFile(path@),
            NonoError::ExpectedDirectory(path) => report@ == ReportView::ExpectedDirectory(path@),
        },
{
}

/// Whether a report is on a blocked filesystem approval, with a reason made of
/// these parts.
pub open spec fn is_blocked(
    report: ReportView,
    lead: Seq<char>,
    shown_path: Seq<char>,
    end: Seq<char>,
) -> bool {
    report matches ReportView::BlockedCommand { command, reason } && command
        == "filesystem approval"@ && reason == lead + shown_path + end
}

/// A refusal that is about a path shows that path whole, whatever its length, or
/// hands it on as it stands; one that is about a message or an entry does the same
/// with that.
pub proof fn law_reports_of_paths(
    path: Seq<u8>,
    text: Seq<char>,
    access: AccessMode,
)
    ensures
        report_of(ErrorView::InvalidJson { message: text }) == ReportView::ConfigParse(
            "invalid NONO_TOOL_SANDBOX_FS_REQUEST JSON: "@ + text,
        ),
        report_of(ErrorView::Expansion { entry: text }) == (ReportView::Expansion { entry: text }),
        report_of(ErrorView::PathCanonicalization { path }) == (ReportView::PathCanonicalization {
            path,
        }),
        report_of(ErrorView::ConfigRead { path }) == (ReportView::ConfigRead { path }),
        report_of(ErrorView::ExpectedFile { path }) == ReportView::ExpectedFile(path),
        report_of(ErrorView::ExpectedDirectory { path }) == ReportView::ExpectedDirectory(path),
        ({
            let seen = if valid_utf8(path) {
                decode_utf8(path)
            } else {
                lossy(path)
            };
            &&& is_blocked(
                report_of(ErrorView::UnusableRoot { path }),
                "approval_fs root must be an existing directory below '/': "@,
                seen,
                Seq::empty(),
            )
            &&& is_blocked(
                report_of(ErrorView::DeniedPath { path }),
                "requested path overlaps a deny: "@,
                seen,
                Seq::empty(),
            )
            &&& is_blocked(
                report_of(ErrorView::ExceedsCeiling { path, access }),
                "requested path exceeds its approval_fs ceiling: "@,
                seen,
                " ("@ + match access {
                    AccessMode::Read => "read"@,
                    AccessMode::Write => "write"@,
                    AccessMode::ReadWrite => "read+write"@,
                } + ")"@,
            )
            &&& report_of(ErrorView::NotUtf8 { path }) == ReportView::ConfigParse(
                "approved filesystem path is not UTF-8: "@ + seen,
            )
        }),
{
    let none = Seq::<char>::empty();
    let root_lead = "approval_fs root must be an existing directory below '/': "@;
    let deny_lead = "requested path overlaps a deny: "@;
    let ceiling_lead = "requested path exceeds its approval_fs ceiling: "@;
    assert(root_lead + shown(path) + none =~= root_lead + shown(path));
    assert(deny_lead + shown(path) + none =~= deny_lead + shown(path));
    assert(ceiling_lead + shown(path) + (" ("@ + access_name(access) + ")"@) =~= ceiling_lead
        + shown(path) + " ("@ + access_name(access) + ")"@);
}

/// The refusals that are about nothing in particular have one report each.
pub proof fn law_other_reports()
    ensures
        report_of(ErrorView::DuplicateRequest) == ReportView::ConfigParse(
            "tool-sandbox request contains duplicate NONO_TOOL_SANDBOX_FS_REQUEST entries"@,
        ),
        is_blocked(
            report_of(ErrorView::NoCeiling),
            "NONO_TOOL_SANDBOX_FS_REQUEST was supplied but the selected command sandbox has no approval_fs ceiling"@,
            Seq::empty(),
            Seq::empty(),
        ),
        report_of(ErrorView::EmptyRequest) == ReportView::ConfigParse(
            "NONO_TOOL_SANDBOX_FS_REQUEST.filesystem must not be empty"@,
        ),
        report_of(ErrorView::TooManyGrants) == ReportView::ConfigParse(
            "NONO_TOOL_SANDBOX_FS_REQUEST exceeds the 32-grant limit"@,
        ),
        report_of(ErrorView::InvalidPath) == ReportView::ConfigParse(
            "tool-sandbox filesystem request contains an empty path or NUL byte"@,
        ),
        is_blocked(
            report_of(ErrorView::FilesystemRoot),
            "cannot grant the filesystem root"@,
            Seq::empty(),
            Seq::empty(),
        ),
{
    let none = Seq::<char>::empty();
    let ceiling = "NONO_TOOL_SANDBOX_FS_REQUEST was supplied but the selected command sandbox has no approval_fs ceiling"@;
    let root = "cannot grant the filesystem root"@;
    assert(ceiling + none + none =~= ceiling);
    assert(root + none + none =~= root);
}

} // verus!
