use zone_image::unpack::{
    unpack_step, ExistingKind, ExistingMeta, TarKind, UnpackAction, UnpackError,
};

#[test]
fn unpack_skips_entries_outside_prefix() {
    let r = unpack_step("/t", "oxide.json", TarKind::File, 0o444, 0, 0, None, None).unwrap();
    assert!(matches!(r, UnpackAction::Skip));
}

#[test]
fn unpack_creates_missing_directory() {
    let r = unpack_step("/t", "root/etc", TarKind::Dir, 0o755, 0, 3, None, None).unwrap();
    match r {
        UnpackAction::MakeDir { path, create, chmod, chown, mode, uid, gid } => {
            assert_eq!(path, "/t/etc");
            assert!(create);
            assert!(chmod);
            assert!(chown);
            assert_eq!(mode, 0o755);
            assert_eq!(uid, 0);
            assert_eq!(gid, 3);
        }
        _ => panic!("expected a directory action"),
    }
}

#[test]
fn unpack_existing_correct_directory_untouched() {
    // the second run over an already-correct directory writes nothing
    let em = ExistingMeta { kind: ExistingKind::Dir, mode: 0o755, uid: 0, gid: 3 };
    let r = unpack_step("/t", "root/etc", TarKind::Dir, 0o755, 0, 3, None, Some(&em)).unwrap();
    match r {
        UnpackAction::MakeDir { create, chmod, chown, .. } => {
            assert!(!create);
            assert!(!chmod);
            assert!(!chown);
        }
        _ => panic!("expected a directory action"),
    }
}

#[test]
fn unpack_existing_directory_metadata_corrected() {
    let em = ExistingMeta { kind: ExistingKind::Dir, mode: 0o700, uid: 2, gid: 3 };
    let r = unpack_step("/t", "root/etc", TarKind::Dir, 0o755, 0, 3, None, Some(&em)).unwrap();
    match r {
        UnpackAction::MakeDir { create, chmod, chown, .. } => {
            assert!(!create);
            assert!(chmod);
            assert!(chown);
        }
        _ => panic!("expected a directory action"),
    }
}

#[test]
fn unpack_directory_conflict() {
    let em = ExistingMeta { kind: ExistingKind::File, mode: 0o644, uid: 0, gid: 0 };
    assert_eq!(
        unpack_step("/t", "root/etc", TarKind::Dir, 0o755, 0, 0, None, Some(&em)).err(),
        Some(UnpackError::ConflictNotDir)
    );
}

#[test]
fn unpack_file_always_recreated() {
    // an existing file or symlink is unlinked and fully rewritten
    let em = ExistingMeta { kind: ExistingKind::File, mode: 0o644, uid: 0, gid: 0 };
    let r = unpack_step(
        "/t",
        "root/etc/motd",
        TarKind::File,
        0o644,
        0,
        0,
        None,
        Some(&em),
    )
    .unwrap();
    match r {
        UnpackAction::WriteFile { path, remove_first, mode, .. } => {
            assert_eq!(path, "/t/etc/motd");
            assert!(remove_first);
            assert_eq!(mode, 0o644);
        }
        _ => panic!("expected a file action"),
    }
}

#[test]
fn unpack_file_conflict_with_directory() {
    let em = ExistingMeta { kind: ExistingKind::Dir, mode: 0o755, uid: 0, gid: 0 };
    assert_eq!(
        unpack_step("/t", "root/etc/motd", TarKind::File, 0o644, 0, 0, None, Some(&em)).err(),
        Some(UnpackError::ConflictNotFileOrLink)
    );
}

#[test]
fn unpack_symlink_created() {
    let r = unpack_step(
        "/t",
        "root/etc/ln",
        TarKind::Symlink,
        0o777,
        0,
        0,
        Some("motd"),
        None,
    )
    .unwrap();
    match r {
        UnpackAction::MakeSymlink { path, remove_first, target } => {
            assert_eq!(path, "/t/etc/ln");
            assert!(!remove_first);
            assert_eq!(target, "motd");
        }
        _ => panic!("expected a symlink action"),
    }
}

#[test]
fn unpack_hardlink_target_remapped() {
    let r = unpack_step(
        "/t",
        "root/usr/bin/vi",
        TarKind::Hardlink,
        0,
        0,
        0,
        Some("root/has/vim"),
        None,
    )
    .unwrap();
    match r {
        UnpackAction::MakeHardlink { path, target, .. } => {
            assert_eq!(path, "/t/usr/bin/vi");
            assert_eq!(target, "/t/has/vim");
        }
        _ => panic!("expected a hardlink action"),
    }
}

#[test]
fn unpack_link_without_target() {
    assert_eq!(
        unpack_step("/t", "root/etc/ln", TarKind::Symlink, 0, 0, 0, None, None).err(),
        Some(UnpackError::MissingLinkTarget)
    );
}

#[test]
fn unpack_unsupported_entry() {
    assert_eq!(
        unpack_step("/t", "root/dev/null", TarKind::Other, 0, 0, 0, None, None).err(),
        Some(UnpackError::UnsupportedEntry)
    );
}
