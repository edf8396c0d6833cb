use sandbox_policy::error::ApprovalError;
use sandbox_policy::grant::{AccessMode, CommandFilesystemGrant, CommandFilesystemGrantKind};
use sandbox_policy::policy::{
    add_approved_filesystem_to_policy, approval_route, CommandApprovalFilesystemConfig,
    CommandSandboxConfig,
};

fn grant(path: &[u8], access: AccessMode, kind: CommandFilesystemGrantKind) -> CommandFilesystemGrant {
    CommandFilesystemGrant { path: path.to_vec(), access, kind }
}

#[test]
fn grants_go_to_the_list_of_their_kind_and_access() {
    let mut policy = CommandSandboxConfig::default();
    let grants = vec![
        grant(b"/rf", AccessMode::Read, CommandFilesystemGrantKind::File),
        grant(b"/rd", AccessMode::Read, CommandFilesystemGrantKind::Directory),
        grant(b"/wf", AccessMode::ReadWrite, CommandFilesystemGrantKind::File),
        grant(b"/wd", AccessMode::ReadWrite, CommandFilesystemGrantKind::Directory),
        grant(b"/wf2", AccessMode::Write, CommandFilesystemGrantKind::File),
        grant(b"/wd2", AccessMode::Write, CommandFilesystemGrantKind::Directory),
    ];
    assert!(add_approved_filesystem_to_policy(&mut policy, &grants).is_ok());
    assert_eq!(policy.fs_read_file, vec!["/rf"]);
    assert_eq!(policy.fs_read, vec!["/rd"]);
    assert_eq!(policy.fs_write_file, vec!["/wf", "/wf2"]);
    assert_eq!(policy.fs_write, vec!["/wd", "/wd2"]);
    assert!(policy.approval_fs.is_none());
}

#[test]
fn adding_twice_adds_once() {
    let mut policy = CommandSandboxConfig {
        fs_read: vec!["/old".to_string(), "/new".to_string()],
        ..CommandSandboxConfig::default()
    };
    let grants = vec![
        grant(b"/new", AccessMode::Read, CommandFilesystemGrantKind::Directory),
        grant("/gr\u{fc}n".as_bytes(), AccessMode::Read, CommandFilesystemGrantKind::Directory),
    ];
    for _ in 0..2 {
        assert!(add_approved_filesystem_to_policy(&mut policy, &grants).is_ok());
        assert_eq!(policy.fs_read, vec!["/old", "/new", "/gr\u{fc}n"]);
    }
}

#[test]
fn path_that_is_not_utf8_ends_the_additions() {
    let mut policy = CommandSandboxConfig::default();
    let grants = vec![
        grant(b"/one", AccessMode::Read, CommandFilesystemGrantKind::File),
        grant(b"/bad\xff", AccessMode::Read, CommandFilesystemGrantKind::File),
        grant(b"/two", AccessMode::Read, CommandFilesystemGrantKind::File),
    ];
    let result = add_approved_filesystem_to_policy(&mut policy, &grants);
    assert!(matches!(result, Err(ApprovalError::NotUtf8 { path }) if path == b"/bad\xff"));
    assert_eq!(policy.fs_read_file, vec!["/one"]);
}

#[test]
fn route_is_that_of_the_ceiling() {
    let none = CommandApprovalFilesystemConfig::default();
    assert_eq!(approval_route(&none), (None, None));
    let some = CommandApprovalFilesystemConfig {
        backend: Some("desktop".to_string()),
        timeout_secs: Some(30),
        ..CommandApprovalFilesystemConfig::default()
    };
    assert_eq!(approval_route(&some), (Some("desktop"), Some(30)));
}

#[test]
fn adding_in_two_steps_and_again_in_another_order() {
    let one = grant(b"/a", AccessMode::Read, CommandFilesystemGrantKind::File);
    let two = grant(b"/b", AccessMode::Read, CommandFilesystemGrantKind::File);
    let mut policy = CommandSandboxConfig::default();
    assert!(add_approved_filesystem_to_policy(&mut policy, &[one]).is_ok());
    assert!(add_approved_filesystem_to_policy(&mut policy, &[two]).is_ok());
    assert_eq!(policy.fs_read_file, vec!["/a", "/b"]);
    let again = vec![
        grant(b"/b", AccessMode::Read, CommandFilesystemGrantKind::File),
        grant(b"/a", AccessMode::Read, CommandFilesystemGrantKind::File),
        grant(b"/b", AccessMode::Read, CommandFilesystemGrantKind::File),
    ];
    assert!(add_approved_filesystem_to_policy(&mut policy, &again).is_ok());
    assert_eq!(policy.fs_read_file, vec!["/a", "/b"]);
}
