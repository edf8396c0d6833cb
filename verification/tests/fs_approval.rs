use sandbox_policy::error::{ApprovalError, NonoError};
use sandbox_policy::fs_approval::{
    find_request, overlaps_deny, resolve_requested_filesystem, Answer, FileType, Progress, Question,
    MAX_REQUESTED_GRANTS, TOOL_SANDBOX_FS_REQUEST_ENV,
};
use sandbox_policy::grant::{
    merge_access, AccessMode, CommandFilesystemGrant, CommandFilesystemGrantKind,
    FilesystemRequestEnvelope, RequestedAccess, RequestedFilesystemGrant,
};
use sandbox_policy::policy::{CommandApprovalFilesystemConfig, CommandSandboxConfig};

/// A filesystem in memory: what is there, and what links lead to.
struct Disk {
    entries: Vec<(&'static str, FileType)>,
    links: Vec<(&'static str, &'static str)>,
    unreadable: Vec<&'static str>,
}

impl Disk {
    fn with(entries: &[(&'static str, FileType)]) -> Disk {
        Disk {
            entries: entries.to_vec(),
            links: Vec::new(),
            unreadable: Vec::new(),
        }
    }

    fn canonical(&self, path: &[u8]) -> Option<Vec<u8>> {
        let text = std::str::from_utf8(path).ok()?;
        if let Some((_, target)) = self.links.iter().find(|(link, _)| *link == text) {
            return Some(target.as_bytes().to_vec());
        }
        if text == "/" || self.entries.iter().any(|(entry, _)| *entry == text) {
            return Some(path.to_vec());
        }
        None
    }

    fn inspect(&self, path: &[u8]) -> Option<FileType> {
        let text = std::str::from_utf8(path).ok()?;
        if self.unreadable.contains(&text) {
            return None;
        }
        if text == "/" {
            return Some(FileType::Directory);
        }
        self.entries
            .iter()
            .find(|(entry, _)| *entry == text)
            .map(|(_, kind)| *kind)
    }
}

fn text_of<'v>(value: &'v serde_json::Value, key: &str) -> Result<&'v str, String> {
    value
        .get(key)
        .and_then(|text| text.as_str())
        .ok_or_else(|| format!("missing {key}"))
}

fn read_envelope(json: &[u8]) -> Result<FilesystemRequestEnvelope, String> {
    let value: serde_json::Value =
        serde_json::from_slice(json).map_err(|error| error.to_string())?;
    let list = value
        .get("filesystem")
        .and_then(|list| list.as_array())
        .ok_or_else(|| "missing field `filesystem`".to_string())?;
    let mut filesystem = Vec::new();
    for entry in list {
        filesystem.push(RequestedFilesystemGrant {
            path: text_of(entry, "path")?.to_string(),
            access: match text_of(entry, "access")? {
                "read" => RequestedAccess::Read,
                "write" => RequestedAccess::Write,
                "read_write" => RequestedAccess::ReadWrite,
                other => return Err(format!("unknown variant {other}")),
            },
            kind: match text_of(entry, "kind")? {
                "file" => CommandFilesystemGrantKind::File,
                "directory" => CommandFilesystemGrantKind::Directory,
                other => return Err(format!("unknown variant {other}")),
            },
        });
    }
    Ok(FilesystemRequestEnvelope { filesystem })
}

/// Answers questions until there is a decision, and counts them.
fn drive(disk: &Disk, start: Progress<'_>) -> (Result<Vec<CommandFilesystemGrant>, ApprovalError>, usize) {
    let mut progress = start;
    let mut asked: usize = 0;
    loop {
        match progress {
            Progress::Done(result) => return (result, asked),
            Progress::Pending(resolution) => {
                asked += 1;
                let answer = match resolution.question() {
                    Question::Envelope(json) => Answer::Envelope(read_envelope(&json)),
                    Question::Canonicalize(path) => Answer::Canonical(disk.canonical(&path)),
                    Question::Expand { entry, policy_root: _ } => {
                        if entry.contains('$') {
                            Answer::Expanded(None)
                        } else {
                            Answer::Expanded(Some(entry.into_bytes()))
                        }
                    }
                    Question::Inspect(path) => Answer::Inspected(disk.inspect(&path)),
                };
                progress = resolution.answer(answer);
            }
        }
    }
}

fn entry(path: &str, access: &str, kind: &str) -> String {
    format!(
        "{{\"path\":{},\"access\":\"{access}\",\"kind\":\"{kind}\"}}",
        serde_json::to_string(path).expect("serialize path")
    )
}

fn env(entries: &[String]) -> Vec<Vec<u8>> {
    vec![format!(
        "{TOOL_SANDBOX_FS_REQUEST_ENV}={{\"filesystem\":[{}]}}",
        entries.join(",")
    )
    .into_bytes()]
}

fn request(path: &str, access: &str, kind: &str) -> Vec<Vec<u8>> {
    env(&[entry(path, access, kind)])
}

fn policy(read_roots: &[&str], write_roots: &[&str]) -> CommandSandboxConfig {
    CommandSandboxConfig {
        approval_fs: Some(CommandApprovalFilesystemConfig {
            read_roots: read_roots.iter().map(|root| root.to_string()).collect(),
            write_roots: write_roots.iter().map(|root| root.to_string()).collect(),
            ..CommandApprovalFilesystemConfig::default()
        }),
        ..CommandSandboxConfig::default()
    }
}

fn resolve(
    disk: &Disk,
    request_env: &[Vec<u8>],
    cwd: &str,
    policy: &CommandSandboxConfig,
    denies: &[&str],
) -> Result<Vec<CommandFilesystemGrant>, ApprovalError> {
    let deny_paths: Vec<Vec<u8>> = denies.iter().map(|deny| deny.as_bytes().to_vec()).collect();
    drive(
        disk,
        resolve_requested_filesystem(request_env, cwd.as_bytes(), policy, b"/policy", &deny_paths),
    )
    .0
}

fn tmp(entries: &[(&'static str, FileType)]) -> Disk {
    let mut all = vec![("/tmp", FileType::Directory), ("/tmp/d", FileType::Directory)];
    all.extend_from_slice(entries);
    Disk::with(&all)
}

#[test]
fn request_is_bounded_by_configured_root() {
    let disk = tmp(&[("/tmp/d/input", FileType::File)]);
    let grants = resolve(
        &disk,
        &request("/tmp/d/input", "read", "file"),
        "/tmp/d",
        &policy(&["/tmp/d"], &[]),
        &[],
    )
    .expect("resolve request");
    assert_eq!(grants.len(), 1);
    assert_eq!(grants[0].path, b"/tmp/d/input".to_vec());
}

#[test]
fn write_request_fails_under_read_only_ceiling() {
    let disk = tmp(&[("/tmp/d/input", FileType::File)]);
    let result = resolve(
        &disk,
        &request("/tmp/d/input", "write", "file"),
        "/tmp/d",
        &policy(&["/tmp/d"], &[]),
        &[],
    );
    assert!(result.is_err());
    assert!(matches!(
        result,
        Err(ApprovalError::ExceedsCeiling { path, access: AccessMode::ReadWrite }) if path == b"/tmp/d/input"
    ));
}

#[test]
fn write_request_is_normalized_to_actual_read_write_grant() {
    let disk = tmp(&[("/tmp/d/output", FileType::File)]);
    let grants = resolve(
        &disk,
        &request("/tmp/d/output", "write", "file"),
        "/tmp/d",
        &policy(&[], &["/tmp/d"]),
        &[],
    )
    .expect("resolve request");
    assert_eq!(grants[0].access, AccessMode::ReadWrite);
}

#[test]
fn directory_request_cannot_enclose_a_denied_path() {
    let disk = tmp(&[("/tmp/d/secret", FileType::Directory)]);
    let result = resolve(
        &disk,
        &request("/tmp/d", "read", "directory"),
        "/tmp/d",
        &policy(&["/tmp/d"], &[]),
        &["/tmp/d/secret"],
    );
    assert!(result.is_err());
    assert!(matches!(result, Err(ApprovalError::DeniedPath { path }) if path == b"/tmp/d"));
}

#[test]
fn no_request_grants_nothing_and_asks_nothing() {
    let disk = tmp(&[]);
    let none = CommandSandboxConfig::default();
    let (result, asked) = drive(
        &disk,
        resolve_requested_filesystem(&[b"PATH=/bin".to_vec()], b"/tmp", &none, b"/", &[]),
    );
    assert!(result.expect("no request").is_empty());
    assert_eq!(asked, 0);
}

#[test]
fn names_that_only_look_alike_are_no_request() {
    let look_alikes = vec![
        b"NONO_TOOL_SANDBOX_FS_REQUEST".to_vec(),
        b"NONO_TOOL_SANDBOX_FS_REQUESTS={}".to_vec(),
        b"XNONO_TOOL_SANDBOX_FS_REQUEST={}".to_vec(),
        b"=".to_vec(),
        Vec::new(),
    ];
    assert!(matches!(find_request(&look_alikes), Ok(None)));
    let empty = vec![b"NONO_TOOL_SANDBOX_FS_REQUEST=".to_vec()];
    assert!(matches!(find_request(&empty), Ok(Some(value)) if value.is_empty()));
    let with_equals = vec![b"NONO_TOOL_SANDBOX_FS_REQUEST=a=b".to_vec()];
    assert!(matches!(find_request(&with_equals), Ok(Some(value)) if value == b"a=b"));
}

#[test]
fn other_variables_do_not_matter() {
    let disk = tmp(&[("/tmp/d/input", FileType::File)]);
    let mut all = vec![b"PATH=/bin".to_vec(), b"not an entry".to_vec()];
    all.extend(request("/tmp/d/input", "read", "file"));
    all.push(b"HOME=/root".to_vec());
    let grants = resolve(&disk, &all, "/tmp/d", &policy(&["/tmp/d"], &[]), &[]);
    assert_eq!(grants.expect("resolve request").len(), 1);
}

#[test]
fn duplicate_requests_are_refused() {
    let disk = tmp(&[]);
    let mut twice = request("/tmp/d", "read", "directory");
    twice.push(b"NONO_TOOL_SANDBOX_FS_REQUEST=".to_vec());
    let result = resolve(&disk, &twice, "/tmp/d", &CommandSandboxConfig::default(), &[]);
    assert!(matches!(result, Err(ApprovalError::DuplicateRequest)));
}

#[test]
fn request_without_ceiling_is_refused() {
    let disk = tmp(&[]);
    let result = resolve(
        &disk,
        &request("/tmp/d", "read", "directory"),
        "/tmp/d",
        &CommandSandboxConfig::default(),
        &[],
    );
    assert!(matches!(result, Err(ApprovalError::NoCeiling)));
}

#[test]
fn unreadable_empty_and_oversized_requests_are_refused() {
    let disk = tmp(&[("/tmp/d/input", FileType::File)]);
    let ceiling = policy(&["/tmp/d"], &[]);
    let broken = vec![b"NONO_TOOL_SANDBOX_FS_REQUEST={".to_vec()];
    assert!(matches!(
        resolve(&disk, &broken, "/tmp/d", &ceiling, &[]),
        Err(ApprovalError::InvalidJson { message }) if message.contains("EOF")
    ));
    assert!(matches!(
        resolve(&disk, &env(&[]), "/tmp/d", &ceiling, &[]),
        Err(ApprovalError::EmptyRequest)
    ));
    let most = vec![entry("/tmp/d/input", "read", "file"); MAX_REQUESTED_GRANTS];
    assert_eq!(
        resolve(&disk, &env(&most), "/tmp/d", &ceiling, &[])
            .expect("within the limit")
            .len(),
        1
    );
    let many = vec![entry("/tmp/d/input", "read", "file"); MAX_REQUESTED_GRANTS + 1];
    assert!(matches!(
        resolve(&disk, &env(&many), "/tmp/d", &ceiling, &[]),
        Err(ApprovalError::TooManyGrants)
    ));
    assert_eq!(MAX_REQUESTED_GRANTS, 32);
}

#[test]
fn working_directory_must_exist() {
    let disk = tmp(&[]);
    assert!(matches!(
        resolve(&disk, &request("x", "read", "file"), "/gone", &policy(&[], &[]), &[]),
        Err(ApprovalError::PathCanonicalization { path }) if path == b"/gone"
    ));
}

#[test]
fn roots_must_be_directories_below_the_root() {
    let mut disk = tmp(&[("/tmp/d/input", FileType::File)]);
    disk.links.push(("/tmp/link", "/"));
    let wanted = request("/tmp/d/input", "read", "file");
    for bad in ["/", "/tmp/link", "/tmp/d/input"] {
        assert!(
            matches!(
                resolve(&disk, &wanted, "/tmp/d", &policy(&[bad], &[]), &[]),
                Err(ApprovalError::UnusableRoot { .. })
            ),
            "{bad}"
        );
    }
    assert!(matches!(
        resolve(&disk, &wanted, "/tmp/d", &policy(&["/tmp/d"], &["gone"]), &[]),
        Err(ApprovalError::PathCanonicalization { path }) if path == b"/tmp/d/gone"
    ));
    assert!(matches!(
        resolve(&disk, &wanted, "/tmp/d", &policy(&["$NOPE"], &[]), &[]),
        Err(ApprovalError::Expansion { entry }) if entry == "$NOPE"
    ));
}

#[test]
fn relative_roots_and_paths_start_at_the_working_directory() {
    let disk = tmp(&[
        ("/tmp/d/sub", FileType::Directory),
        ("/tmp/d/sub/input", FileType::File),
    ]);
    let grants = resolve(
        &disk,
        &request("sub/input", "read", "file"),
        "/tmp/d",
        &policy(&["sub"], &[]),
        &[],
    )
    .expect("resolve request");
    assert_eq!(grants[0].path, b"/tmp/d/sub/input".to_vec());
    assert_eq!(grants[0].access, AccessMode::Read);
    assert_eq!(grants[0].kind, CommandFilesystemGrantKind::File);
}

#[test]
fn requested_paths_must_be_usable() {
    let disk = tmp(&[]);
    let ceiling = policy(&["/tmp/d"], &[]);
    for bad in ["", "a\u{0}b"] {
        assert!(matches!(
            resolve(&disk, &request(bad, "read", "file"), "/tmp/d", &ceiling, &[]),
            Err(ApprovalError::InvalidPath)
        ));
    }
    assert!(matches!(
        resolve(&disk, &request("gone", "read", "file"), "/tmp/d", &ceiling, &[]),
        Err(ApprovalError::PathCanonicalization { path }) if path == b"/tmp/d/gone"
    ));
    assert!(matches!(
        resolve(&disk, &request("/", "read", "directory"), "/tmp/d", &ceiling, &[]),
        Err(ApprovalError::FilesystemRoot)
    ));
}

#[test]
fn what_is_there_must_be_what_was_asked_for() {
    let mut disk = tmp(&[
        ("/tmp/d/input", FileType::File),
        ("/tmp/d/sub", FileType::Directory),
        ("/tmp/d/socket", FileType::Other),
        ("/tmp/d/secret", FileType::File),
    ]);
    disk.unreadable.push("/tmp/d/secret");
    let ceiling = policy(&["/tmp/d"], &[]);
    assert!(matches!(
        resolve(&disk, &request("sub", "read", "file"), "/tmp/d", &ceiling, &[]),
        Err(ApprovalError::ExpectedFile { path }) if path == b"/tmp/d/sub"
    ));
    assert!(matches!(
        resolve(&disk, &request("input", "read", "directory"), "/tmp/d", &ceiling, &[]),
        Err(ApprovalError::ExpectedDirectory { path }) if path == b"/tmp/d/input"
    ));
    assert!(matches!(
        resolve(&disk, &request("socket", "read", "file"), "/tmp/d", &ceiling, &[]),
        Err(ApprovalError::ExpectedFile { .. })
    ));
    assert!(matches!(
        resolve(&disk, &request("secret", "read", "file"), "/tmp/d", &ceiling, &[]),
        Err(ApprovalError::ConfigRead { path }) if path == b"/tmp/d/secret"
    ));
}

#[test]
fn denied_paths_count_by_what_they_lead_to() {
    let mut disk = tmp(&[
        ("/tmp/d/secret", FileType::Directory),
        ("/tmp/d/secret/key", FileType::File),
        ("/tmp/d/open", FileType::File),
    ]);
    disk.links.push(("/etc/secret", "/tmp/d/secret"));
    let ceiling = policy(&["/tmp/d"], &[]);
    assert!(matches!(
        resolve(&disk, &request("secret/key", "read", "file"), "/tmp/d", &ceiling, &["/etc/secret"]),
        Err(ApprovalError::DeniedPath { path }) if path == b"/tmp/d/secret/key"
    ));
    // A denied path that does not exist counts as it is written.
    assert!(matches!(
        resolve(&disk, &request("/tmp/d", "read", "directory"), "/tmp/d", &ceiling, &["/tmp/d/./gone/"]),
        Err(ApprovalError::DeniedPath { .. })
    ));
    assert_eq!(
        resolve(&disk, &request("open", "read", "file"), "/tmp/d", &ceiling, &["/etc/secret", "/gone"])
            .expect("nothing denies it")
            .len(),
        1
    );
    // A denied path that is empty lies above everything.
    assert!(matches!(
        resolve(&disk, &request("open", "read", "file"), "/tmp/d", &ceiling, &[""]),
        Err(ApprovalError::DeniedPath { .. })
    ));
}

#[test]
fn only_directories_enclose_what_is_denied() {
    assert!(overlaps_deny(b"/a", CommandFilesystemGrantKind::Directory, b"/a/b"));
    assert!(!overlaps_deny(b"/a", CommandFilesystemGrantKind::File, b"/a/b"));
    assert!(overlaps_deny(b"/a/b", CommandFilesystemGrantKind::File, b"/a"));
    assert!(!overlaps_deny(b"/ab", CommandFilesystemGrantKind::Directory, b"/a"));
}

#[test]
fn links_do_not_lead_out_of_the_ceiling() {
    let mut disk = tmp(&[("/etc", FileType::Directory), ("/etc/passwd", FileType::File)]);
    disk.links.push(("/tmp/d/link", "/etc/passwd"));
    let result = resolve(
        &disk,
        &request("link", "read", "file"),
        "/tmp/d",
        &policy(&["/tmp/d"], &["/tmp"]),
        &[],
    );
    assert!(matches!(
        result,
        Err(ApprovalError::ExceedsCeiling { path, access: AccessMode::Read }) if path == b"/etc/passwd"
    ));
}

#[test]
fn write_roots_admit_reading() {
    let disk = tmp(&[("/tmp/d/input", FileType::File)]);
    let grants = resolve(
        &disk,
        &request("input", "read", "file"),
        "/tmp/d",
        &policy(&[], &["/tmp/d"]),
        &[],
    )
    .expect("resolve request");
    assert_eq!(grants[0].access, AccessMode::Read);
}

#[test]
fn requests_for_one_target_are_merged() {
    let mut disk = tmp(&[
        ("/tmp/d/one", FileType::File),
        ("/tmp/d/two", FileType::File),
    ]);
    disk.links.push(("/tmp/d/alias", "/tmp/d/one"));
    let grants = resolve(
        &disk,
        &env(&[
            entry("one", "read", "file"),
            entry("two", "read", "file"),
            entry("alias", "read_write", "file"),
            entry("two", "read", "file"),
        ]),
        "/tmp/d",
        &policy(&[], &["/tmp/d"]),
        &[],
    )
    .expect("resolve request");
    assert_eq!(grants.len(), 2);
    assert_eq!(grants[0].path, b"/tmp/d/one".to_vec());
    assert_eq!(grants[0].access, AccessMode::ReadWrite);
    assert_eq!(grants[1].path, b"/tmp/d/two".to_vec());
    assert_eq!(grants[1].access, AccessMode::Read);
}

#[test]
fn first_bad_request_decides() {
    let disk = tmp(&[("/tmp/d/one", FileType::File)]);
    let result = resolve(
        &disk,
        &env(&[
            entry("one", "read", "file"),
            entry("", "read", "file"),
            entry("gone", "read", "file"),
        ]),
        "/tmp/d",
        &policy(&["/tmp/d"], &[]),
        &[],
    );
    assert!(matches!(result, Err(ApprovalError::InvalidPath)));
}

#[test]
fn number_of_questions_is_bounded() {
    let disk = tmp(&[("/tmp/d/one", FileType::File), ("/x", FileType::File)]);
    let wanted = request("one", "read", "file");
    let ceiling = policy(&["/tmp/d"], &["/tmp"]);
    let denies = vec![b"/x".to_vec()];
    let (result, asked) = drive(
        &disk,
        resolve_requested_filesystem(&wanted, b"/tmp/d", &ceiling, b"/", &denies),
    );
    assert!(result.is_ok());
    // The text, the directory, two roots, and one grant with one denied path.
    assert_eq!(asked, 1 + 1 + 2 * 3 + (2 + 1));
}

#[test]
fn answers_to_other_questions_change_nothing() {
    let wanted = request("one", "read", "file");
    let ceiling = policy(&["/tmp/d"], &[]);
    let start = resolve_requested_filesystem(&wanted, b"/tmp/d", &ceiling, b"/root", &[]);
    let Progress::Pending(resolution) = start else {
        panic!("there is a request");
    };
    let Progress::Pending(resolution) = resolution.answer(Answer::Canonical(None)) else {
        panic!("the request was not read yet");
    };
    assert!(matches!(resolution.question(), Question::Envelope(_)));
    let read = Answer::Envelope(Ok(FilesystemRequestEnvelope {
        filesystem: vec![RequestedFilesystemGrant {
            path: "one".to_string(),
            access: RequestedAccess::Read,
            kind: CommandFilesystemGrantKind::File,
        }],
    }));
    let Progress::Pending(resolution) = resolution.answer(read) else {
        panic!("the request was read");
    };
    assert!(matches!(resolution.question(), Question::Canonicalize(path) if path == b"/tmp/d"));
    let Progress::Pending(resolution) = resolution.answer(Answer::Canonical(Some(b"/tmp/d".to_vec())))
    else {
        panic!("the directory is there");
    };
    assert!(matches!(
        resolution.question(),
        Question::Expand { entry, policy_root } if entry == "/tmp/d" && policy_root == b"/root"
    ));
}

#[test]
fn access_modes_are_normalized_and_merged() {
    assert_eq!(AccessMode::from(RequestedAccess::Read), AccessMode::Read);
    assert_eq!(AccessMode::from(RequestedAccess::Write), AccessMode::ReadWrite);
    assert_eq!(AccessMode::from(RequestedAccess::ReadWrite), AccessMode::ReadWrite);
    assert_eq!(merge_access(AccessMode::Read, AccessMode::Read), AccessMode::Read);
    assert_eq!(merge_access(AccessMode::Write, AccessMode::Write), AccessMode::Write);
    assert_eq!(merge_access(AccessMode::Read, AccessMode::Write), AccessMode::ReadWrite);
    assert_eq!(merge_access(AccessMode::ReadWrite, AccessMode::Read), AccessMode::ReadWrite);
}

fn parse_text(error: ApprovalError) -> String {
    match error.report() {
        NonoError::ConfigParse(text) => text,
        other => panic!("{other:?}"),
    }
}

fn blocked_text(error: ApprovalError) -> String {
    match error.report() {
        NonoError::BlockedCommand { command, reason } => {
            assert_eq!(command, "filesystem approval");
            reason
        }
        other => panic!("{other:?}"),
    }
}

#[test]
fn reports_say_what_is_wrong() {
    assert_eq!(
        parse_text(ApprovalError::DuplicateRequest),
        "tool-sandbox request contains duplicate NONO_TOOL_SANDBOX_FS_REQUEST entries"
    );
    assert_eq!(
        blocked_text(ApprovalError::NoCeiling),
        "NONO_TOOL_SANDBOX_FS_REQUEST was supplied but the selected command sandbox has no approval_fs ceiling"
    );
    assert_eq!(
        parse_text(ApprovalError::InvalidJson { message: "oops".to_string() }),
        "invalid NONO_TOOL_SANDBOX_FS_REQUEST JSON: oops"
    );
    assert_eq!(
        parse_text(ApprovalError::EmptyRequest),
        "NONO_TOOL_SANDBOX_FS_REQUEST.filesystem must not be empty"
    );
    assert_eq!(
        parse_text(ApprovalError::TooManyGrants),
        "NONO_TOOL_SANDBOX_FS_REQUEST exceeds the 32-grant limit"
    );
    assert_eq!(
        parse_text(ApprovalError::InvalidPath),
        "tool-sandbox filesystem request contains an empty path or NUL byte"
    );
    assert_eq!(
        blocked_text(ApprovalError::UnusableRoot { path: b"/f".to_vec() }),
        "approval_fs root must be an existing directory below '/': /f"
    );
    assert_eq!(
        blocked_text(ApprovalError::FilesystemRoot),
        "cannot grant the filesystem root"
    );
    assert_eq!(
        blocked_text(ApprovalError::DeniedPath { path: b"/s".to_vec() }),
        "requested path overlaps a deny: /s"
    );
    assert_eq!(
        blocked_text(ApprovalError::ExceedsCeiling {
            path: b"/p".to_vec(),
            access: AccessMode::ReadWrite,
        }),
        "requested path exceeds its approval_fs ceiling: /p (read+write)"
    );
    assert_eq!(
        parse_text(ApprovalError::NotUtf8 { path: b"/a\xffb".to_vec() }),
        "approved filesystem path is not UTF-8: /a\u{fffd}b"
    );
}

#[test]
fn reports_keep_paths_and_entries() {
    assert!(matches!(
        (ApprovalError::PathCanonicalization { path: b"/p".to_vec() }).report(),
        NonoError::PathCanonicalization { path } if path == b"/p"
    ));
    assert!(matches!(
        (ApprovalError::ConfigRead { path: b"/p".to_vec() }).report(),
        NonoError::ConfigRead { path } if path == b"/p"
    ));
    assert!(matches!(
        (ApprovalError::ExpectedFile { path: b"/p".to_vec() }).report(),
        NonoError::ExpectedFile(path) if path == b"/p"
    ));
    assert!(matches!(
        (ApprovalError::ExpectedDirectory { path: b"/p".to_vec() }).report(),
        NonoError::ExpectedDirectory(path) if path == b"/p"
    ));
    assert!(matches!(
        (ApprovalError::Expansion { entry: "$X".to_string() }).report(),
        NonoError::Expansion { entry } if entry == "$X"
    ));
}

#[test]
fn grants_come_in_the_order_of_first_requests() {
    let disk = tmp(&[
        ("/tmp/d/a", FileType::File),
        ("/tmp/d/b", FileType::File),
        ("/tmp/d/c", FileType::File),
    ]);
    let grants = resolve(
        &disk,
        &env(&[
            entry("c", "read", "file"),
            entry("a", "write", "file"),
            entry("c", "read", "file"),
            entry("b", "read", "file"),
            entry("a", "read", "file"),
        ]),
        "/tmp/d",
        &policy(&[], &["/tmp/d"]),
        &[],
    )
    .expect("resolve request");
    let listed: Vec<(Vec<u8>, AccessMode)> =
        grants.into_iter().map(|grant| (grant.path, grant.access)).collect();
    assert_eq!(
        listed,
        vec![
            (b"/tmp/d/c".to_vec(), AccessMode::Read),
            (b"/tmp/d/a".to_vec(), AccessMode::ReadWrite),
            (b"/tmp/d/b".to_vec(), AccessMode::Read),
        ]
    );
}

#[test]
fn first_bad_root_decides() {
    let disk = tmp(&[("/tmp/d/input", FileType::File)]);
    let result = resolve(
        &disk,
        &request("input", "read", "file"),
        "/tmp/d",
        &policy(&["/tmp/d", "first", "$SECOND"], &["/"]),
        &[],
    );
    assert!(matches!(
        result,
        Err(ApprovalError::PathCanonicalization { path }) if path == b"/tmp/d/first"
    ));
}
