//! What a sandboxed command may be granted on the filesystem.
use vstd::prelude::*;

verus! {

/// What a grant lets a command do.
#[derive(Debug, Clone, Copy, PartialEq, Eq, Structural)]
pub enum AccessMode {
    Read,
    Write,
    ReadWrite,
}

/// The access that a command asks for.
#[derive(Debug, Clone, Copy, PartialEq, Eq, Structural)]
pub enum RequestedAccess {
    Read,
    Write,
    ReadWrite,
}

/// What a grant is on.
#[derive(Debug, Clone, Copy, PartialEq, Eq, Structural)]
pub enum CommandFilesystemGrantKind {
    File,
    Directory,
}

/// One grant that a command asks for.
#[derive(Debug)]
pub struct RequestedFilesystemGrant {
    pub path: String,
    pub access: RequestedAccess,
    pub kind: CommandFilesystemGrantKind,
}

/// All that a command asks for.
#[derive(Debug)]
pub struct FilesystemRequestEnvelope {
    pub filesystem: Vec<RequestedFilesystemGrant>,
}

/// One normalized grant.
#[derive(Debug)]
pub struct CommandFilesystemGrant {
    /// The bytes of the path.
    pub path: Vec<u8>,
    pub access: AccessMode,
    pub kind: CommandFilesystemGrantKind,
}

/// The contents of a `RequestedFilesystemGrant`.
#[verifier::ext_equal]
pub struct RequestView {
    pub path: Seq<char>,
    pub access: RequestedAccess,
    pub kind: CommandFilesystemGrantKind,
}

/// The contents of a `CommandFilesystemGrant`.
#[verifier::ext_equal]
pub struct GrantView {
    pub path: Seq<u8>,
    pub access: AccessMode,
    pub kind: CommandFilesystemGrantKind,
}

impl View for RequestedFilesystemGrant {
    type V = RequestView;

    open spec fn view(&self) -> RequestView {
        RequestView { path: self.path@, access: self.access, kind: self.kind }
    }
}

impl View for FilesystemRequestEnvelope {
    type V = Seq<RequestView>;

    open spec fn view(&self) -> Seq<RequestView> {
        Seq::new(self.filesystem@.len(), |i: int| self.filesystem@[i]@)
    }
}

impl View for CommandFilesystemGrant {
    type V = GrantView;

    open spec fn view(&self) -> GrantView {
        GrantView { path: self.path@, access: self.access, kind: self.kind }
    }
}

/// The contents of a list of grants.
pub open spec fn all_grants(list: Seq<CommandFilesystemGrant>) -> Seq<GrantView> {
    Seq::new(list.len(), |i: int| list[i]@)
}

/// The access that a request is granted: writing always comes with reading.
pub open spec fn normalized(access: RequestedAccess) -> AccessMode {
    if access == RequestedAccess::Read {
        AccessMode::Read
    } else {
        AccessMode::ReadWrite
    }
}

impl From<RequestedAccess> for AccessMode {
    /// The access that will actually be installed. Write grants of the sandbox
    /// are read-write, so that is what gets approved.
    fn from(value: RequestedAccess) -> (mode: Self) {
        match value {
            RequestedAccess::Read => AccessMode::Read,
            RequestedAccess::Write => AccessMode::ReadWrite,
            RequestedAccess::ReadWrite => AccessMode::ReadWrite,
        }
    }
}

impl vstd::std_specs::convert::FromSpecImpl<RequestedAccess> for AccessMode {
    open spec fn obeys_from_spec() -> bool {
        true
    }

    open spec fn from_spec(value: RequestedAccess) -> AccessMode {
        normalized(value)
    }
}

/// Whether `mode` lets a command read.
pub open spec fn reads(mode: AccessMode) -> bool {
    mode != AccessMode::Write
}

/// Whether `mode` lets a command write.
pub open spec fn writes(mode: AccessMode) -> bool {
    mode != AccessMode::Read
}

/// The least access that lets a command do what either of two modes does.
pub fn merge_access(left: AccessMode, right: AccessMode) -> (merged: AccessMode)
    ensures
        reads(merged) == (reads(left) || reads(right)),
        writes(merged) == (writes(left) || writes(right)),
        merged == merge(left, right),
        merged == left || merged == AccessMode::ReadWrite,
        merged == AccessMode::ReadWrite <==> left != right || left == AccessMode::ReadWrite,
{
    if left == right {
        left
    } else {
        AccessMode::ReadWrite
    }
}

/// What `merge_access` returns.
pub open spec fn merge(left: AccessMode, right: AccessMode) -> AccessMode {
    if left == right {
        left
    } else {
        AccessMode::ReadWrite
    }
}

/// Reading is granted as reading, and writing as reading and writing.
pub proof fn law_normalized()
    ensures
        normalized(RequestedAccess::Read) == AccessMode::Read,
        normalized(RequestedAccess::Write) == AccessMode::ReadWrite,
        normalized(RequestedAccess::ReadWrite) == AccessMode::ReadWrite,
{
}

/// What each access mode lets a command do.
pub proof fn law_access_modes()
    ensures
        reads(AccessMode::Read) && !writes(AccessMode::Read),
        !reads(AccessMode::Write) && writes(AccessMode::Write),
        reads(AccessMode::ReadWrite) && writes(AccessMode::ReadWrite),
{
}

/// Merging two modes lets a command do what either of them does and no more; it
/// does not matter which comes first, in which order three are merged, or how
/// often.
pub proof fn law_merge(left: AccessMode, right: AccessMode, third: AccessMode)
    ensures
        reads(merge(left, right)) <==> reads(left) || reads(right),
        writes(merge(left, right)) <==> writes(left) || writes(right),
        merge(left, right) == merge(right, left),
        merge(left, left) == left,
        merge(merge(left, right), third) == merge(left, merge(right, third)),
{
}

/// The contents of a grant, of a list of grants, of a requested grant and of all
/// that a command asks for are those of their fields.
pub proof fn law_contents_of_grants(
    grant: CommandFilesystemGrant,
    grants: Seq<CommandFilesystemGrant>,
    request: RequestedFilesystemGrant,
    envelope: FilesystemRequestEnvelope,
)
    ensures
        grant@.path == grant.path@ && grant@.access == grant.access && grant@.kind == grant.kind,
        all_grants(grants).len() == grants.len(),
        forall|i: int|
            0 <= i < grants.len() ==> (#[trigger] all_grants(grants)[i]).path == grants[i].path@
                && all_grants(grants)[i].access == grants[i].access && all_grants(grants)[i].kind
                == grants[i].kind,
        request@.path == request.path@ && request@.access == request.access && request@.kind
            == request.kind,
        envelope@.len() == envelope.filesystem@.len(),
        forall|i: int|
            0 <= i < envelope@.len() ==> (#[trigger] envelope@[i]).path
                == envelope.filesystem@[i].path@ && envelope@[i].access
                == envelope.filesystem@[i].access && envelope@[i].kind
                == envelope.filesystem@[i].kind,
{
}

} // verus!
