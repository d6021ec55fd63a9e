use zone_image::tree::{replicate_step, reprefix, unprefix, ReplicateStep, TreeError, WalkKind};

#[test]
fn unprefix_basic() {
    assert_eq!(unprefix("/usr", "/usr/bin/ls"), Ok("bin/ls".to_string()));
    assert_eq!(unprefix("/usr", "/usr"), Ok(String::new()));
}

#[test]
fn unprefix_mixed_absolute() {
    assert_eq!(unprefix("/usr", "usr/bin"), Err(TreeError::MixedAbsolute));
}

#[test]
fn unprefix_not_under_prefix() {
    assert_eq!(unprefix("/usr", "/var/log"), Err(TreeError::NotPrefixed));
}

#[test]
fn reprefix_basic() {
    assert_eq!(
        reprefix("/usr", "/usr/bin/ls", "/zone/root/usr"),
        Ok("/zone/root/usr/bin/ls".to_string())
    );
}

#[test]
fn reprefix_target_must_be_absolute() {
    assert_eq!(
        reprefix("/usr", "/usr/bin/ls", "zone"),
        Err(TreeError::TargetNotAbsolute)
    );
}

#[test]
fn replicate_symlink_recreated() {
    let r = replicate_step(
        "/usr",
        "/z/usr",
        "/system/usr",
        "/usr/lib/libc.so",
        "libc.so",
        2,
        WalkKind::Symlink,
    )
    .unwrap();
    match r {
        ReplicateStep::RecreateLink { dst } => assert_eq!(dst, "/z/usr/lib/libc.so"),
        _ => panic!("expected a recreated link"),
    }
}

#[test]
fn replicate_directory_created() {
    let r = replicate_step("/usr", "/z/usr", "/system/usr", "/usr/lib", "lib", 1, WalkKind::Directory)
        .unwrap();
    match r {
        ReplicateStep::EnsureDir { dst } => assert_eq!(dst, "/z/usr/lib"),
        _ => panic!("expected a directory"),
    }
}

#[test]
fn replicate_shared_binary_linked() {
    let r = replicate_step(
        "/usr",
        "/z/usr",
        "/system/usr",
        "/usr/bin/ls",
        "ls",
        2,
        WalkKind::Regular,
    )
    .unwrap();
    match r {
        ReplicateStep::LinkToPrefix { linktarget, dst } => {
            assert_eq!(dst, "/z/usr/bin/ls");
            assert_eq!(linktarget, "../../system/usr/bin/ls");
        }
        _ => panic!("expected a link into the prefix tree"),
    }
}

#[test]
fn replicate_shared_library_by_name() {
    let r = replicate_step(
        "/lib",
        "/z/lib",
        "/system/lib",
        "/lib/crypto/libmd.so.1",
        "libmd.so.1",
        2,
        WalkKind::Regular,
    )
    .unwrap();
    assert!(matches!(r, ReplicateStep::LinkToPrefix { .. }));
}

#[test]
fn replicate_ordinary_file_copied() {
    let r = replicate_step(
        "/etc",
        "/z/etc",
        "/system/etc",
        "/etc/motd",
        "motd",
        1,
        WalkKind::Regular,
    )
    .unwrap();
    match r {
        ReplicateStep::CopyFile { dst } => assert_eq!(dst, "/z/etc/motd"),
        _ => panic!("expected a copy"),
    }
}

#[test]
fn replicate_special_file_fatal() {
    assert_eq!(
        replicate_step("/usr", "/z/usr", "/system/usr", "/usr/dev", "dev", 1, WalkKind::Other)
            .err(),
        Some(TreeError::SpecialFile)
    );
}
