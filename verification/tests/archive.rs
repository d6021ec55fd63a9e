use zone_image::archive::{
    build_packaged_index, build_plan, gzonly_exclusions, reconcile_check, BuildError, EntryType,
    FoundEntry, Packaged, PathMap, PathSet, PlanKind,
};
use zone_image::ips::parse_manifest;
use zone_image::unix::{Group, Passwd};

fn passwd_fixture() -> Passwd {
    Passwd::load("root:x:0:0:Super-User:/root:/usr/bin/bash\nbin:x:2:2::/:\n").unwrap()
}

fn group_fixture() -> Group {
    Group::load("root::0:\nbin::2:\nsys::3:\n").unwrap()
}

#[test]
fn gz_only_conflicting_references_retained() {
    // one package marks the path gz-only, another does not: the path stays
    // in the index and off the exclusion list
    let text = "file group=sys mode=0644 owner=root path=lib/svc/seed/x variant.opensolaris.zone=global\n\
file group=sys mode=0644 owner=root path=lib/svc/seed/x\n";
    let actions = parse_manifest(text).unwrap();
    let (idx, gzt, gzf) = build_packaged_index(&actions);
    assert!(idx.get("lib/svc/seed/x").is_some());
    assert!(gzt.contains("lib/svc/seed/x"));
    assert!(gzf.contains("lib/svc/seed/x"));
    let excl = gzonly_exclusions(&gzt, &gzf);
    assert!(excl.is_empty());
}

#[test]
fn gz_only_unanimous_reference_excluded() {
    let text = "file group=sys mode=0644 owner=root path=kernel/drv/ena variant.opensolaris.zone=global\n";
    let actions = parse_manifest(text).unwrap();
    let (idx, gzt, gzf) = build_packaged_index(&actions);
    assert!(idx.get("kernel/drv/ena").is_none());
    let excl = gzonly_exclusions(&gzt, &gzf);
    assert_eq!(excl, vec!["kernel/drv/ena".to_string()]);
}

#[test]
fn gz_exclusions_reverse_sorted_and_skip_devices() {
    let mut gzt = PathSet::new();
    gzt.insert("etc/a".to_string());
    gzt.insert("dev/dsk".to_string());
    gzt.insert("etc/a/b".to_string());
    let gzf = PathSet::new();
    let excl = gzonly_exclusions(&gzt, &gzf);
    assert_eq!(excl, vec!["etc/a/b".to_string(), "etc/a".to_string()]);
}

#[test]
fn index_last_action_wins() {
    let text = "dir group=bin mode=0755 owner=root path=etc\n\
dir group=sys mode=0750 owner=root path=etc\n";
    let actions = parse_manifest(text).unwrap();
    let (idx, _, _) = build_packaged_index(&actions);
    let pk = idx.get("etc").unwrap();
    assert_eq!(pk.mode, 0o750);
    assert_eq!(pk.group, "sys");
}

#[test]
fn crosscheck_allows_file_for_packaged_hardlink() {
    // a discovered regular file where packaging declares a hardlink is no
    // conflict; any other mismatch is
    let mut found: PathMap<FoundEntry> = PathMap::new();
    found.insert(
        "usr/bin/vi".to_string(),
        FoundEntry { etype: EntryType::File, fsmode: 0o755 },
    );
    found.insert(
        "etc/x".to_string(),
        FoundEntry { etype: EntryType::Dir, fsmode: 0o755 },
    );
    let mut packaged: PathMap<Packaged> = PathMap::new();
    packaged.insert(
        "usr/bin/vi".to_string(),
        Packaged {
            owner: "root".to_string(),
            group: "bin".to_string(),
            mode: 0o755,
            etype: EntryType::Hardlink("../has/vim".to_string()),
        },
    );
    packaged.insert(
        "etc/x".to_string(),
        Packaged {
            owner: "root".to_string(),
            group: "sys".to_string(),
            mode: 0o644,
            etype: EntryType::File,
        },
    );
    let (mismatched, missing) = reconcile_check(&found, &packaged);
    assert_eq!(mismatched, vec!["etc/x".to_string()]);
    assert!(missing.is_empty());
}

#[test]
fn crosscheck_reports_missing_paths() {
    let found: PathMap<FoundEntry> = PathMap::new();
    let mut packaged: PathMap<Packaged> = PathMap::new();
    packaged.insert(
        "etc/motd".to_string(),
        Packaged {
            owner: "root".to_string(),
            group: "sys".to_string(),
            mode: 0o644,
            etype: EntryType::File,
        },
    );
    // entries under the suppressed trees come from the shared image
    packaged.insert(
        "usr/bin/ls".to_string(),
        Packaged {
            owner: "root".to_string(),
            group: "bin".to_string(),
            mode: 0o755,
            etype: EntryType::File,
        },
    );
    let (mismatched, missing) = reconcile_check(&found, &packaged);
    assert!(mismatched.is_empty());
    assert_eq!(missing, vec!["etc/motd".to_string()]);
}

#[test]
fn build_plan_example_scenario() {
    // a packaged /etc/motd and an unpackaged stray /etc/oops: the build
    // succeeds, keeps the declared mode for motd, fabricates root:sys for
    // oops, and reports oops as missing from packaging
    let mut found: PathMap<FoundEntry> = PathMap::new();
    found.insert("etc".to_string(), FoundEntry { etype: EntryType::Dir, fsmode: 0o755 });
    found.insert(
        "etc/motd".to_string(),
        FoundEntry { etype: EntryType::File, fsmode: 0o664 },
    );
    found.insert(
        "etc/oops".to_string(),
        FoundEntry { etype: EntryType::File, fsmode: 0o600 },
    );
    let mut packaged: PathMap<Packaged> = PathMap::new();
    packaged.insert(
        "etc".to_string(),
        Packaged {
            owner: "root".to_string(),
            group: "sys".to_string(),
            mode: 0o755,
            etype: EntryType::Dir,
        },
    );
    packaged.insert(
        "etc/motd".to_string(),
        Packaged {
            owner: "root".to_string(),
            group: "root".to_string(),
            mode: 0o644,
            etype: EntryType::File,
        },
    );
    let plan = build_plan(&found, &packaged, &passwd_fixture(), &group_fixture()).unwrap();
    assert_eq!(plan.missing_packaging, vec!["etc/oops".to_string()]);
    assert_eq!(plan.dirs.len(), 1);
    assert_eq!(plan.dirs[0].archive_path, "root/etc");
    assert_eq!(plan.files.len(), 2);
    let motd = &plan.files[0];
    assert_eq!(motd.archive_path, "root/etc/motd");
    assert_eq!(motd.mode, 0o644);
    assert_eq!(motd.uname, "root");
    assert_eq!(motd.gname, "root");
    assert_eq!(motd.uid, 0);
    assert!(motd.packaged);
    let oops = &plan.files[1];
    assert_eq!(oops.archive_path, "root/etc/oops");
    assert_eq!(oops.mode, 0o600);
    assert_eq!(oops.uname, "root");
    assert_eq!(oops.gname, "sys");
    assert_eq!(oops.gid, 3);
    assert!(!oops.packaged);
}

#[test]
fn build_plan_orders_sections() {
    let mut found: PathMap<FoundEntry> = PathMap::new();
    found.insert("etc".to_string(), FoundEntry { etype: EntryType::Dir, fsmode: 0o755 });
    found.insert(
        "etc/vi".to_string(),
        FoundEntry { etype: EntryType::File, fsmode: 0o755 },
    );
    found.insert(
        "etc/ln".to_string(),
        FoundEntry {
            etype: EntryType::Link("vi".to_string()),
            fsmode: 0o777,
        },
    );
    let mut packaged: PathMap<Packaged> = PathMap::new();
    packaged.insert(
        "etc".to_string(),
        Packaged {
            owner: "root".to_string(),
            group: "sys".to_string(),
            mode: 0o755,
            etype: EntryType::Dir,
        },
    );
    packaged.insert(
        "etc/vi".to_string(),
        Packaged {
            owner: "root".to_string(),
            group: "bin".to_string(),
            mode: 0o755,
            etype: EntryType::Hardlink("../has/vim".to_string()),
        },
    );
    packaged.insert(
        "etc/ln".to_string(),
        Packaged {
            owner: "root".to_string(),
            group: "root".to_string(),
            mode: 0,
            etype: EntryType::Link("vi".to_string()),
        },
    );
    let plan = build_plan(&found, &packaged, &passwd_fixture(), &group_fixture()).unwrap();
    assert_eq!(plan.dirs.len(), 1);
    assert_eq!(plan.files.len(), 0);
    assert_eq!(plan.hardlinks.len(), 1);
    assert_eq!(plan.symlinks.len(), 1);
    let hl = &plan.hardlinks[0];
    assert_eq!(hl.kind, PlanKind::Hardlink);
    // the target is re-anchored inside the archive's content tree
    assert_eq!(hl.link.as_deref(), Some("root/has/vim"));
    assert_eq!(hl.uid, 0);
    let sl = &plan.symlinks[0];
    assert_eq!(sl.kind, PlanKind::Symlink);
    assert_eq!(sl.link.as_deref(), Some("vi"));
}

#[test]
fn build_plan_fails_on_conflicts() {
    let mut found: PathMap<FoundEntry> = PathMap::new();
    found.insert(
        "etc/x".to_string(),
        FoundEntry { etype: EntryType::Dir, fsmode: 0o755 },
    );
    let mut packaged: PathMap<Packaged> = PathMap::new();
    packaged.insert(
        "etc/x".to_string(),
        Packaged {
            owner: "root".to_string(),
            group: "sys".to_string(),
            mode: 0o644,
            etype: EntryType::File,
        },
    );
    packaged.insert(
        "etc/gone".to_string(),
        Packaged {
            owner: "root".to_string(),
            group: "sys".to_string(),
            mode: 0o644,
            etype: EntryType::File,
        },
    );
    match build_plan(&found, &packaged, &passwd_fixture(), &group_fixture()) {
        Err(BuildError::Conflicts { mismatched, missing }) => {
            assert_eq!(mismatched, vec!["etc/x".to_string()]);
            assert_eq!(missing, vec!["etc/gone".to_string()]);
        }
        _ => panic!("expected conflicts"),
    }
}

#[test]
fn build_plan_skips_packaging_bookkeeping() {
    let mut found: PathMap<FoundEntry> = PathMap::new();
    found.insert(
        "var/pkg/cache".to_string(),
        FoundEntry { etype: EntryType::File, fsmode: 0o644 },
    );
    let packaged: PathMap<Packaged> = PathMap::new();
    let plan = build_plan(&found, &packaged, &passwd_fixture(), &group_fixture()).unwrap();
    assert_eq!(plan.files.len(), 0);
    assert_eq!(plan.missing_packaging.len(), 0);
}
