use zone_image::ips::{parse_manifest, ActionKind, DependType, ManifestError};

#[test]
fn manifest_dir_line() {
    let acts = parse_manifest("dir group=bin mode=0755 owner=root path=usr/share/man").unwrap();
    assert_eq!(acts.len(), 1);
    match acts[0].kind() {
        ActionKind::Dir(af) => {
            assert_eq!(af.path(), "usr/share/man");
            assert_eq!(af.owner(), "root");
            assert_eq!(af.group(), "bin");
            assert_eq!(af.mode(), 0o755);
            assert_eq!(af.fileid(), None);
        }
        _ => panic!("expected a dir action"),
    }
}

#[test]
fn manifest_file_line_with_fileid() {
    let acts = parse_manifest(
        "file 11dd54e1d0cb085888e13d3a26fa12de4c52bbc6 elfarch=i386 group=sys mode=0644 owner=root path=etc/motd",
    )
    .unwrap();
    match acts[0].kind() {
        ActionKind::File(af) => {
            assert_eq!(af.fileid(), Some("11dd54e1d0cb085888e13d3a26fa12de4c52bbc6"));
            assert_eq!(af.path(), "etc/motd");
            assert_eq!(af.mode(), 0o644);
        }
        _ => panic!("expected a file action"),
    }
}

#[test]
fn manifest_set_line() {
    let acts = parse_manifest("set name=pkg.summary value=core").unwrap();
    match acts[0].kind() {
        ActionKind::SetProp(name, values) => {
            assert_eq!(name, "pkg.summary");
            assert_eq!(values.as_slice(), &["core".to_string()]);
        }
        _ => panic!("expected a set action"),
    }
}

#[test]
fn manifest_set_quoted_value() {
    let acts = parse_manifest("set name=pkg.summary value=\"core operating system\"").unwrap();
    match acts[0].kind() {
        ActionKind::SetProp(_, values) => {
            assert_eq!(values.as_slice(), &["core operating system".to_string()]);
        }
        _ => panic!("expected a set action"),
    }
}

#[test]
fn manifest_set_unconsumed_property_rejected() {
    // a line with an unconsumed, unrecognized property key is rejected
    let r = parse_manifest("set name=pkg.summary value=core stray=1");
    assert_eq!(r.err(), Some(ManifestError::Unconsumed));
}

#[test]
fn manifest_file_tolerates_extra_properties() {
    // file-like actions do not audit their property bag
    let r = parse_manifest("file group=sys mode=0644 owner=root path=a pkg.size=10");
    assert!(r.is_ok());
}

#[test]
fn manifest_facet_keys_dropped() {
    let r = parse_manifest("set name=pkg.summary value=core facet.devel=true");
    assert!(r.is_ok());
}

#[test]
fn manifest_depend_line() {
    let acts = parse_manifest(
        "depend fmri=pkg:/system/library@0.5.11 type=require predicate=pkg:/a predicate=pkg:/b",
    )
    .unwrap();
    match acts[0].kind() {
        ActionKind::Depend(ad) => {
            assert_eq!(ad.type_(), DependType::Require);
            assert_eq!(ad.fmris().len(), 1);
            assert_eq!(ad.fmris()[0].name(), "system/library");
            assert_eq!(
                ad.predicate().as_slice(),
                &["pkg:/a".to_string(), "pkg:/b".to_string()]
            );
        }
        _ => panic!("expected a depend action"),
    }
}

#[test]
fn manifest_depend_bad_type() {
    let r = parse_manifest("depend fmri=pkg:/a type=sideways");
    assert_eq!(r.err(), Some(ManifestError::BadDependType));
}

#[test]
fn manifest_link_and_hardlink() {
    let acts = parse_manifest(
        "link path=usr/lib/libc.so target=libc.so.1\nhardlink path=usr/bin/vi target=../has/vim",
    )
    .unwrap();
    match acts[0].kind() {
        ActionKind::Link(al) => {
            assert_eq!(al.path(), "usr/lib/libc.so");
            assert_eq!(al.target(), "libc.so.1");
        }
        _ => panic!("expected a link action"),
    }
    match acts[1].kind() {
        ActionKind::Hardlink(al) => {
            assert_eq!(al.path(), "usr/bin/vi");
            assert_eq!(al.target(), "../has/vim");
        }
        _ => panic!("expected a hardlink action"),
    }
}

#[test]
fn manifest_unknown_action_kept() {
    let acts = parse_manifest("license cr_sun license=cr_sun anything=1").unwrap();
    match acts[0].kind() {
        ActionKind::Unknown(tag, free) => {
            assert_eq!(tag, "license");
            assert_eq!(free.as_slice(), &["cr_sun".to_string()]);
        }
        _ => panic!("expected an unknown action"),
    }
}

#[test]
fn manifest_gz_only_variant() {
    let acts = parse_manifest(
        "file group=sys mode=0644 owner=root path=kernel/drv/x variant.opensolaris.zone=global",
    )
    .unwrap();
    assert!(acts[0].gz_only());
    let acts = parse_manifest("file group=sys mode=0644 owner=root path=etc/motd").unwrap();
    assert!(!acts[0].gz_only());
}

#[test]
fn manifest_backslash_in_quoted_value() {
    let r = parse_manifest("set name=x value=\"a\\b\"");
    assert_eq!(r.err(), Some(ManifestError::Backslash));
}

#[test]
fn manifest_errant_quote() {
    let r = parse_manifest("set name=x value=ab\"cd");
    assert_eq!(r.err(), Some(ManifestError::ErrantQuote));
}

#[test]
fn manifest_quote_must_be_followed_by_space() {
    let r = parse_manifest("set name=x value=\"ab\"cd");
    assert_eq!(r.err(), Some(ManifestError::AfterQuote));
}

#[test]
fn manifest_line_ends_mid_key() {
    let r = parse_manifest("set name");
    assert_eq!(r.err(), Some(ManifestError::BadEnd));
}

#[test]
fn manifest_bad_mode() {
    let r = parse_manifest("dir group=bin mode=0x55 owner=root path=a");
    assert_eq!(r.err(), Some(ManifestError::BadMode));
}

#[test]
fn manifest_missing_required_property() {
    let r = parse_manifest("dir group=bin mode=0755 owner=root");
    assert_eq!(r.err(), Some(ManifestError::MissingValue));
}

#[test]
fn manifest_field_round_trip() {
    // parse a line, rebuild it from the extracted fields, and parse again:
    // the second parse yields the same fields
    let line = "file abc group=sys mode=0644 owner=root path=etc/motd";
    let acts = parse_manifest(line).unwrap();
    let rebuilt = match acts[0].kind() {
        ActionKind::File(af) => format!(
            "file {} group={} mode=0{:o} owner={} path={}",
            af.fileid().unwrap(),
            af.group(),
            af.mode(),
            af.owner(),
            af.path()
        ),
        _ => panic!("expected a file action"),
    };
    let acts2 = parse_manifest(&rebuilt).unwrap();
    match (acts[0].kind(), acts2[0].kind()) {
        (ActionKind::File(a), ActionKind::File(b)) => {
            assert_eq!(a.path(), b.path());
            assert_eq!(a.owner(), b.owner());
            assert_eq!(a.group(), b.group());
            assert_eq!(a.mode(), b.mode());
            assert_eq!(a.fileid(), b.fileid());
        }
        _ => panic!("expected file actions"),
    }
}

#[test]
fn manifest_link_field_round_trip() {
    // the serialized form of a link's fields parses back to those fields
    let line = "link path=usr/lib/libc.so target=libc.so.1";
    let acts = parse_manifest(line).unwrap();
    let rebuilt = match acts[0].kind() {
        ActionKind::Link(al) => format!("link path={} target={}", al.path(), al.target()),
        _ => panic!("expected a link action"),
    };
    assert_eq!(rebuilt, line);
    let acts2 = parse_manifest(&rebuilt).unwrap();
    match (acts[0].kind(), acts2[0].kind()) {
        (ActionKind::Link(a), ActionKind::Link(b)) => {
            assert_eq!(a.path(), b.path());
            assert_eq!(a.target(), b.target());
        }
        _ => panic!("expected link actions"),
    }
}

#[test]
fn manifest_set_field_round_trip() {
    let line = "set name=pkg.summary value=core";
    let acts = parse_manifest(line).unwrap();
    let rebuilt = match acts[0].kind() {
        ActionKind::SetProp(name, values) => format!("set name={} value={}", name, values[0]),
        _ => panic!("expected a set action"),
    };
    assert_eq!(rebuilt, line);
}

#[test]
fn manifest_multiple_lines() {
    let text = "set name=pkg.fmri value=pkg://helios-dev/driver/x@0.5.11\n\
dir group=sys mode=0755 owner=root path=etc\n\
file group=sys mode=0644 owner=root path=etc/motd\n";
    let acts = parse_manifest(text).unwrap();
    assert_eq!(acts.len(), 3);
}

#[test]
fn manifest_blank_line_rejected() {
    let r = parse_manifest("dir group=b mode=0755 owner=r path=a\n\n");
    assert_eq!(r.err(), Some(ManifestError::BadEnd));
}
