//! The policy of a command sandbox, and what an approval adds to it.
use crate::error::{ApprovalError, ErrorView};
use crate::grant::{
    all_grants, writes, AccessMode, CommandFilesystemGrant, CommandFilesystemGrantKind, GrantView,
};
use crate::path;
use crate::text;
use crate::text::all_chars;
use vstd::prelude::*;
use vstd::utf8::{decode_utf8, valid_utf8};

verus! {

/// How far a command may be granted more than its policy lists, and who
/// approves it.
#[derive(Debug)]
pub struct CommandApprovalFilesystemConfig {
    /// Directories below which reading can be approved.
    pub read_roots: Vec<String>,
    /// Directories below which reading and writing can be approved.
    pub write_roots: Vec<String>,
    /// The approval backend, where not the default one.
    pub backend: Option<String>,
    /// How long to wait for an approval, where not the default time.
    pub timeout_secs: Option<u64>,
}

/// What a sandboxed command may access.
#[derive(Debug)]
pub struct CommandSandboxConfig {
    /// The ceiling of what can be approved on request.
    pub approval_fs: Option<CommandApprovalFilesystemConfig>,
    /// Directories that can be read.
    pub fs_read: Vec<String>,
    /// Files that can be read.
    pub fs_read_file: Vec<String>,
    /// Directories that can be read and written.
    pub fs_write: Vec<String>,
    /// Files that can be read and written.
    pub fs_write_file: Vec<String>,
}

impl Default for CommandApprovalFilesystemConfig {
    /// A ceiling under which nothing can be approved.
    fn default() -> (ceiling: Self)
        ensures
            ceiling.read_roots@.len() == 0,
            ceiling.write_roots@.len() == 0,
            ceiling.backend is None,
            ceiling.timeout_secs is None,
    {
        CommandApprovalFilesystemConfig {
            read_roots: Vec::new(),
            write_roots: Vec::new(),
            backend: None,
            timeout_secs: None,
        }
    }
}

impl Default for CommandSandboxConfig {
    /// A policy that grants nothing.
    fn default() -> (policy: Self)
        ensures
            policy.approval_fs is None,
            policy.lists() == (GrantLists {
                read: Seq::empty(),
                read_file: Seq::empty(),
                write: Seq::empty(),
                write_file: Seq::empty(),
            }),
    {
        let policy = CommandSandboxConfig {
            approval_fs: None,
            fs_read: Vec::new(),
            fs_read_file: Vec::new(),
            fs_write: Vec::new(),
            fs_write_file: Vec::new(),
        };
        assert(all_chars(policy.fs_read@) =~= Seq::<Seq<char>>::empty());
        assert(all_chars(policy.fs_read_file@) =~= Seq::<Seq<char>>::empty());
        assert(all_chars(policy.fs_write@) =~= Seq::<Seq<char>>::empty());
        assert(all_chars(policy.fs_write_file@) =~= Seq::<Seq<char>>::empty());
        policy
    }
}

/// The four lists of what a policy grants.
#[verifier::ext_equal]
pub struct GrantLists {
    pub read: Seq<Seq<char>>,
    pub read_file: Seq<Seq<char>>,
    pub write: Seq<Seq<char>>,
    pub write_file: Seq<Seq<char>>,
}

impl CommandSandboxConfig {
    /// What the policy grants.
    pub open spec fn lists(&self) -> GrantLists {
        GrantLists {
            read: all_chars(self.fs_read@),
            read_file: all_chars(self.fs_read_file@),
            write: all_chars(self.fs_write@),
            write_file: all_chars(self.fs_write_file@),
        }
    }
}

/// `list` with `entry` at its end, unless it is in there already.
pub open spec fn with_entry(list: Seq<Seq<char>>, entry: Seq<char>) -> Seq<Seq<char>> {
    if list.contains(entry) {
        list
    } else {
        list.push(entry)
    }
}

/// The lists with one grant added to the list of its kind and access.
pub open spec fn with_grant(lists: GrantLists, grant: GrantView) -> GrantLists {
    let entry = decode_utf8(grant.path);
    match (grant.kind, writes(grant.access)) {
        (CommandFilesystemGrantKind::File, false) => GrantLists {
            read_file: with_entry(lists.read_file, entry),
            ..lists
        },
        (CommandFilesystemGrantKind::Directory, false) => GrantLists {
            read: with_entry(lists.read, entry),
            ..lists
        },
        (CommandFilesystemGrantKind::File, true) => GrantLists {
            write_file: with_entry(lists.write_file, entry),
            ..lists
        },
        (CommandFilesystemGrantKind::Directory, true) => GrantLists {
            write: with_entry(lists.write, entry),
            ..lists
        },
    }
}

/// The lists with all grants added, one after the other.
pub open spec fn with_grants(lists: GrantLists, grants: Seq<GrantView>) -> GrantLists
    decreases grants.len(),
{
    if grants.len() == 0 {
        lists
    } else {
        with_grant(with_grants(lists, grants.drop_last()), grants.last())
    }
}

/// The position of the first grant from `from` on whose path is not UTF-8, or
/// the number of grants where there is none.
pub open spec fn readable_from(grants: Seq<GrantView>, from: int) -> int
    decreases grants.len() - from,
{
    if 0 <= from < grants.len() && valid_utf8(grants[from].path) {
        readable_from(grants, from + 1)
    } else {
        from
    }
}

/// How many grants come before the first one whose path is not UTF-8.
pub open spec fn readable(grants: Seq<GrantView>) -> int {
    readable_from(grants, 0)
}

/// Adds an entry to a list that does not hold it yet.
fn add_entry(list: &mut Vec<String>, entry: String)
    ensures
        all_chars(final(list)@) == with_entry(all_chars(old(list)@), entry@),
{
    let ghost before = all_chars(list@);
    let mut i: usize = 0;
    while i < list.len()
        invariant
            before == all_chars(list@),
            i <= list@.len(),
            forall|j: int| 0 <= j < i ==> before[j] != entry@,
        decreases list@.len() - i,
    {
        if list[i] == entry {
            assert(before[i as int] == entry@);
            assert(before.contains(entry@));
            return;
        }
        i += 1;
    }
    assert(!before.contains(entry@));
    list.push(entry);
    assert(all_chars(list@) =~= before.push(entry@));
}

/// Adds approved grants to the policy, each to the list of its kind and access.
///
/// A grant whose path is not UTF-8 ends this with an error; the grants before it
/// have been added by then.
pub fn add_approved_filesystem_to_policy(
    policy: &mut CommandSandboxConfig,
    grants: &[CommandFilesystemGrant],
) -> (result: Result<(), ApprovalError>)
    ensures
        final(policy).approval_fs == old(policy).approval_fs,
        final(policy).lists() == with_grants(
            old(policy).lists(),
            all_grants(grants@).take(readable(all_grants(grants@))),
        ),
        result is Ok <==> forall|i: int|
            0 <= i < grants@.len() ==> valid_utf8(#[trigger] grants@[i].path@),
        result matches Err(error) ==> error@ == (ErrorView::NotUtf8 {
            path: grants@[readable(all_grants(grants@))].path@,
        }),
        result is Ok ==> final(policy).lists() == with_grants(
            old(policy).lists(),
            all_grants(grants@),
        ),
        result matches Err(error) ==> exists|n: int|
            #![trigger grants@[n]]
            0 <= n < grants@.len() && !valid_utf8(grants@[n].path@) && (forall|i: int|
                0 <= i < n ==> valid_utf8(#[trigger] grants@[i].path@)) && error@ == (
            ErrorView::NotUtf8 { path: grants@[n].path@ }) && final(policy).lists() == with_grants(
                old(policy).lists(),
                all_grants(grants@.take(n)),
            ),
{
    let ghost start = policy.lists();
    let ghost list = all_grants(grants@);
    let mut i: usize = 0;
    assert(list.take(0) =~= Seq::<GrantView>::empty());
    while i < grants.len()
        invariant
            i <= grants@.len(),
            list == all_grants(grants@),
            start == old(policy).lists(),
            policy.approval_fs == old(policy).approval_fs,
            policy.lists() == with_grants(start, list.take(i as int)),
            forall|j: int| 0 <= j < i ==> valid_utf8(#[trigger] grants@[j].path@),
            readable(list) == readable_from(list, i as int),
        decreases grants@.len() - i,
    {
        let grant: &CommandFilesystemGrant = &grants[i];
        assert(list[i as int] == grant@);
        match text::read_utf8(grant.path.as_slice()) {
            None => {
                assert(all_grants(grants@.take(i as int)) =~= list.take(i as int));
                assert(!valid_utf8(grants@[i as int].path@));
                return Err(
                    ApprovalError::NotUtf8 { path: path::to_bytes(grant.path.as_slice()) },
                );
            },
            Some(entry) => {
                match (grant.kind, grant.access) {
                    (CommandFilesystemGrantKind::File, AccessMode::Read) => {
                        add_entry(&mut policy.fs_read_file, entry);
                    },
                    (CommandFilesystemGrantKind::Directory, AccessMode::Read) => {
                        add_entry(&mut policy.fs_read, entry);
                    },
                    (CommandFilesystemGrantKind::File, _) => {
                        add_entry(&mut policy.fs_write_file, entry);
                    },
                    (CommandFilesystemGrantKind::Directory, _) => {
                        add_entry(&mut policy.fs_write, entry);
                    },
                }
                assert(policy.lists() =~= with_grant(with_grants(start, list.take(i as int)), grant@));
                assert(list.take(i + 1).drop_last() =~= list.take(i as int));
            },
        }
        i += 1;
    }
    assert(list.take(i as int) =~= list);
    Ok(())
}

/// Who is to approve requests under the ceiling, and how long to wait.
pub fn approval_route(ceiling: &CommandApprovalFilesystemConfig) -> (route: (
    Option<&str>,
    Option<u64>,
))
    ensures
        match ceiling.backend {
            Some(backend) => route.0 matches Some(name) && name@ == backend@,
            None => route.0 is None,
        },
        route.1 == ceiling.timeout_secs,
{
    let backend: Option<&str> = match &ceiling.backend {
        Some(backend) => Some(backend.as_str()),
        None => None,
    };
    (backend, ceiling.timeout_secs)
}

/// The list for grants of a kind, for writing or only for reading.
pub open spec fn list_of(
    lists: GrantLists,
    kind: CommandFilesystemGrantKind,
    write: bool,
) -> Seq<Seq<char>> {
    match (kind, write) {
        (CommandFilesystemGrantKind::File, false) => lists.read_file,
        (CommandFilesystemGrantKind::Directory, false) => lists.read,
        (CommandFilesystemGrantKind::File, true) => lists.write_file,
        (CommandFilesystemGrantKind::Directory, true) => lists.write,
    }
}

/// Whether a list holds what a grant adds to it.
pub open spec fn listed(lists: GrantLists, grant: GrantView) -> bool {
    list_of(lists, grant.kind, writes(grant.access)).contains(decode_utf8(grant.path))
}

proof fn lemma_with_grant(
    lists: GrantLists,
    grant: GrantView,
    kind: CommandFilesystemGrantKind,
    write: bool,
)
    ensures
        list_of(with_grant(lists, grant), kind, write) == if grant.kind == kind && writes(
            grant.access,
        ) == write {
            with_entry(list_of(lists, kind, write), decode_utf8(grant.path))
        } else {
            list_of(lists, kind, write)
        },
{
}

proof fn lemma_with_entry(list: Seq<Seq<char>>, entry: Seq<char>)
    ensures
        with_entry(list, entry).contains(entry),
        list.is_prefix_of(with_entry(list, entry)),
        forall|text: Seq<char>| #[trigger]
            with_entry(list, entry).contains(text) <==> list.contains(text) || text == entry,
        list.no_duplicates() ==> with_entry(list, entry).no_duplicates(),
{
    let result = with_entry(list, entry);
    if !list.contains(entry) {
        assert(result[list.len() as int] == entry);
        assert(list =~= result.subrange(0, list.len() as int));
        assert forall|text: Seq<char>| #[trigger] result.contains(text) <==> list.contains(text)
            || text == entry by {
            if list.contains(text) {
                let at = choose|at: int| 0 <= at < list.len() && list[at] == text;
                assert(result[at] == text);
            }
            if result.contains(text) && text != entry {
                let at = choose|at: int| 0 <= at < result.len() && result[at] == text;
                assert(list[at] == text);
            }
        }
    } else {
        assert(list =~= result.subrange(0, list.len() as int));
    }
}

/// Approved grants only add to a policy. In each list the old entries stay in
/// front, in their order; what is new comes from a grant of the list's kind and
/// access; and no entry is written twice.
pub proof fn law_grants_only_add(
    lists: GrantLists,
    grants: Seq<GrantView>,
    kind: CommandFilesystemGrantKind,
    write: bool,
)
    ensures
        list_of(lists, kind, write).is_prefix_of(list_of(with_grants(lists, grants), kind, write)),
        forall|text: Seq<char>| #[trigger]
            list_of(with_grants(lists, grants), kind, write).contains(text) ==> list_of(
                lists,
                kind,
                write,
            ).contains(text) || exists|i: int|
                0 <= i < grants.len() && (#[trigger] grants[i]).kind == kind && writes(
                    grants[i].access,
                ) == write && decode_utf8(grants[i].path) == text,
        list_of(lists, kind, write).no_duplicates() ==> list_of(
            with_grants(lists, grants),
            kind,
            write,
        ).no_duplicates(),
    decreases grants.len(),
{
    let old_list = list_of(lists, kind, write);
    if grants.len() == 0 {
        assert(old_list =~= old_list.subrange(0, old_list.len() as int));
    } else {
        let front = grants.drop_last();
        let before = list_of(with_grants(lists, front), kind, write);
        let after = list_of(with_grants(lists, grants), kind, write);
        let last = grants.last();
        law_grants_only_add(lists, front, kind, write);
        lemma_with_grant(with_grants(lists, front), last, kind, write);
        lemma_with_entry(before, decode_utf8(last.path));
        assert(before.is_prefix_of(after)) by {
            assert(before =~= before.subrange(0, before.len() as int));
        }
        assert(old_list =~= after.subrange(0, old_list.len() as int)) by {
            assert(old_list == before.subrange(0, old_list.len() as int));
            assert(before == after.subrange(0, before.len() as int));
        }
        assert forall|text: Seq<char>| #[trigger] after.contains(text) && !old_list.contains(
            text,
        ) implies exists|i: int|
            0 <= i < grants.len() && (#[trigger] grants[i]).kind == kind && writes(grants[i].access)
                == write && decode_utf8(grants[i].path) == text by {
            if before.contains(text) {
                let i = choose|i: int|
                    0 <= i < front.len() && (#[trigger] front[i]).kind == kind && writes(
                        front[i].access,
                    ) == write && decode_utf8(front[i].path) == text;
                assert(grants[i] == front[i]);
            } else {
                assert(grants[grants.len() - 1] == last);
            }
        }
    }
}

/// After an approval every grant is in the list of its kind and access.
pub proof fn law_grants_are_listed(lists: GrantLists, grants: Seq<GrantView>)
    ensures
        forall|i: int|
            0 <= i < grants.len() ==> listed(with_grants(lists, grants), #[trigger] grants[i]),
    decreases grants.len(),
{
    if grants.len() > 0 {
        let front = grants.drop_last();
        let last = grants.last();
        law_grants_are_listed(lists, front);
        assert forall|i: int| 0 <= i < grants.len() implies listed(
            with_grants(lists, grants),
            #[trigger] grants[i],
        ) by {
            let grant = grants[i];
            let write = writes(grant.access);
            lemma_with_grant(with_grants(lists, front), last, grant.kind, write);
            lemma_with_entry(
                list_of(with_grants(lists, front), grant.kind, write),
                decode_utf8(last.path),
            );
            if i < front.len() {
                assert(front[i] == grant);
            }
        }
    }
}

proof fn lemma_nothing_new(lists: GrantLists, grants: Seq<GrantView>)
    requires
        forall|i: int| 0 <= i < grants.len() ==> listed(lists, #[trigger] grants[i]),
    ensures
        with_grants(lists, grants) == lists,
    decreases grants.len(),
{
    if grants.len() > 0 {
        let front = grants.drop_last();
        assert forall|i: int| 0 <= i < front.len() implies listed(lists, #[trigger] front[i]) by {
            assert(grants[i] == front[i]);
        }
        lemma_nothing_new(lists, front);
        assert(listed(lists, grants[grants.len() - 1]));
        assert(with_grant(lists, grants.last()) =~= lists);
    }
}

/// Adding the same grants once more changes nothing.
pub proof fn law_adding_twice_adds_once(lists: GrantLists, grants: Seq<GrantView>)
    ensures
        with_grants(with_grants(lists, grants), grants) == with_grants(lists, grants),
{
    law_grants_are_listed(lists, grants);
    lemma_nothing_new(with_grants(lists, grants), grants);
}

/// Adding two lists of grants one after the other is adding them as one list.
pub proof fn law_adding_in_two_steps(
    lists: GrantLists,
    first: Seq<GrantView>,
    second: Seq<GrantView>,
)
    ensures
        with_grants(lists, first + second) == with_grants(with_grants(lists, first), second),
    decreases second.len(),
{
    let both = first + second;
    if second.len() == 0 {
        assert(both =~= first);
    } else {
        assert(both.drop_last() =~= first + second.drop_last());
        law_adding_in_two_steps(lists, first, second.drop_last());
    }
}

/// Adding grants again changes nothing, whichever of them, in whatever order and
/// however often.
pub proof fn law_adding_again_adds_nothing(
    lists: GrantLists,
    grants: Seq<GrantView>,
    again: Seq<GrantView>,
)
    requires
        forall|i: int| 0 <= i < again.len() ==> grants.contains(#[trigger] again[i]),
    ensures
        with_grants(with_grants(lists, grants), again) == with_grants(lists, grants),
{
    law_grants_are_listed(lists, grants);
    let after = with_grants(lists, grants);
    assert forall|i: int| 0 <= i < again.len() implies listed(after, #[trigger] again[i]) by {
        assert(grants.contains(again[i]));
        let at = choose|at: int| 0 <= at < grants.len() && grants[at] == again[i];
        assert(listed(after, grants[at]));
    }
    lemma_nothing_new(after, again);
}

/// The lists of a policy hold the texts of its four fields, in order.
pub proof fn law_lists_of_a_policy(policy: CommandSandboxConfig)
    ensures
        policy.lists().read.len() == policy.fs_read@.len(),
        policy.lists().read_file.len() == policy.fs_read_file@.len(),
        policy.lists().write.len() == policy.fs_write@.len(),
        policy.lists().write_file.len() == policy.fs_write_file@.len(),
        forall|i: int|
            0 <= i < policy.fs_read@.len() ==> #[trigger] policy.lists().read[i]
                == policy.fs_read@[i]@,
        forall|i: int|
            0 <= i < policy.fs_read_file@.len() ==> #[trigger] policy.lists().read_file[i]
                == policy.fs_read_file@[i]@,
        forall|i: int|
            0 <= i < policy.fs_write@.len() ==> #[trigger] policy.lists().write[i]
                == policy.fs_write@[i]@,
        forall|i: int|
            0 <= i < policy.fs_write_file@.len() ==> #[trigger] policy.lists().write_file[i]
                == policy.fs_write_file@[i]@,
{
}

/// One grant goes to the end of one list, the one for its kind and for whether it
/// lets a command write, unless its path is there already; the other three lists
/// stay as they are.
pub proof fn law_one_grant(lists: GrantLists, grant: GrantView, entry: Seq<char>)
    requires
        entry == decode_utf8(grant.path),
    ensures
        ({
            let after = with_grants(lists, seq![grant]);
            let file = grant.kind == CommandFilesystemGrantKind::File;
            let write = grant.access != AccessMode::Read;
            &&& after.read == if !file && !write && !lists.read.contains(entry) {
                lists.read.push(entry)
            } else {
                lists.read
            }
            &&& after.read_file == if file && !write && !lists.read_file.contains(entry) {
                lists.read_file.push(entry)
            } else {
                lists.read_file
            }
            &&& after.write == if !file && write && !lists.write.contains(entry) {
                lists.write.push(entry)
            } else {
                lists.write
            }
            &&& after.write_file == if file && write && !lists.write_file.contains(entry) {
                lists.write_file.push(entry)
            } else {
                lists.write_file
            }
        }),
        with_grants(lists, Seq::empty()) == lists,
{
    reveal_with_fuel(with_grants, 2);
    assert(seq![grant].drop_last() =~= Seq::<GrantView>::empty());
}

/// After all grants are added, each list holds what it held before, the paths of
/// the grants that belong to it, and nothing else.
pub proof fn law_lists_after_grants(lists: GrantLists, grants: Seq<GrantView>, text: Seq<char>)
    ensures
        ({
            let after = with_grants(lists, grants);
            &&& after.read.contains(text) <==> lists.read.contains(text) || exists|i: int|
                0 <= i < grants.len() && decode_utf8((#[trigger] grants[i]).path) == text
                    && grants[i].kind == CommandFilesystemGrantKind::Directory && grants[i].access
                    == AccessMode::Read
            &&& after.read_file.contains(text) <==> lists.read_file.contains(text) || exists|i: int|
                0 <= i < grants.len() && decode_utf8((#[trigger] grants[i]).path) == text
                    && grants[i].kind == CommandFilesystemGrantKind::File && grants[i].access
                    == AccessMode::Read
            &&& after.write.contains(text) <==> lists.write.contains(text) || exists|i: int|
                0 <= i < grants.len() && decode_utf8((#[trigger] grants[i]).path) == text
                    && grants[i].kind == CommandFilesystemGrantKind::Directory && grants[i].access
                    != AccessMode::Read
            &&& after.write_file.contains(text) <==> lists.write_file.contains(text)
                || exists|i: int|
                0 <= i < grants.len() && decode_utf8((#[trigger] grants[i]).path) == text
                    && grants[i].kind == CommandFilesystemGrantKind::File && grants[i].access
                    != AccessMode::Read
        }),
{
    let after = with_grants(lists, grants);
    law_grants_are_listed(lists, grants);
    law_grants_only_add(lists, grants, CommandFilesystemGrantKind::Directory, false);
    law_grants_only_add(lists, grants, CommandFilesystemGrantKind::File, false);
    law_grants_only_add(lists, grants, CommandFilesystemGrantKind::Directory, true);
    law_grants_only_add(lists, grants, CommandFilesystemGrantKind::File, true);
    lemma_prefix_keeps(lists.read, after.read, text);
    lemma_prefix_keeps(lists.read_file, after.read_file, text);
    lemma_prefix_keeps(lists.write, after.write, text);
    lemma_prefix_keeps(lists.write_file, after.write_file, text);
}

proof fn lemma_prefix_keeps(front: Seq<Seq<char>>, whole: Seq<Seq<char>>, text: Seq<char>)
    requires
        front.is_prefix_of(whole),
    ensures
        front.contains(text) ==> whole.contains(text),
{
    if front.contains(text) {
        let at = choose|at: int| 0 <= at < front.len() && front[at] == text;
        assert(whole[at] == whole.subrange(0, front.len() as int)[at]);
        assert(whole[at] == text);
    }
}

/// The number of readable grants is the number of all grants, or the position of
/// the first one whose path is not UTF-8.
pub proof fn law_readable(grants: Seq<GrantView>)
    ensures
        0 <= readable(grants) <= grants.len(),
        forall|i: int|
            0 <= i < readable(grants) ==> valid_utf8((#[trigger] grants[i]).path),
        readable(grants) < grants.len() ==> !valid_utf8(grants[readable(grants)].path),
{
    lemma_readable_from(grants, 0);
}

proof fn lemma_readable_from(grants: Seq<GrantView>, from: int)
    requires
        0 <= from <= grants.len(),
    ensures
        from <= readable_from(grants, from) <= grants.len(),
        forall|i: int|
            from <= i < readable_from(grants, from) ==> valid_utf8((#[trigger] grants[i]).path),
        readable_from(grants, from) < grants.len() ==> !valid_utf8(
            grants[readable_from(grants, from)].path,
        ),
    decreases grants.len() - from,
{
    if from < grants.len() && valid_utf8(grants[from].path) {
        lemma_readable_from(grants, from + 1);
    }
}

} // verus!
