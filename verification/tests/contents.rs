use zone_image::contents::{parse_contents, ContentsError, ImageFileDetails};

#[test]
fn contents_files_and_hardlinks_kept() {
    let text = "file\tetc/motd\troot\tsys\t0644\t\tpkg://helios-dev/system/core-os@0.5.11\n\
dir\tetc\troot\tsys\t0755\t\tpkg://helios-dev/system/core-os@0.5.11\n\
hardlink\tusr/bin/vi\t\t\t\t../has/vim\tpkg://helios-dev/editor/vim@9.0\n\
link\tusr/lib/libc.so\t\t\t\tlibc.so.1\tpkg://helios-dev/system/library@0.5.11\n";
    let fs = parse_contents(text).unwrap();
    assert_eq!(fs.len(), 2);
    assert_eq!(fs[0].name, "etc/motd");
    assert_eq!(fs[0].package.name(), "system/core-os");
    match &fs[0].details {
        ImageFileDetails::File { owner, group, mode } => {
            assert_eq!(owner, "root");
            assert_eq!(group, "sys");
            assert_eq!(*mode, 0o644);
        }
        _ => panic!("expected a file"),
    }
    assert_eq!(fs[1].name, "usr/bin/vi");
    match &fs[1].details {
        ImageFileDetails::Hardlink { target } => assert_eq!(target, "../has/vim"),
        _ => panic!("expected a hardlink"),
    }
}

#[test]
fn contents_bad_row_rejected() {
    assert_eq!(
        parse_contents("file\tonly\tthree\n").err(),
        Some(ContentsError::BadRow)
    );
}

#[test]
fn contents_bad_mode_rejected() {
    let text = "file\ta\tr\ts\t099\t\tpkg:/x\n";
    assert_eq!(parse_contents(text).err(), Some(ContentsError::BadMode));
}

#[test]
fn contents_empty_listing() {
    assert_eq!(parse_contents("").unwrap().len(), 0);
}
