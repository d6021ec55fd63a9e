use zone_image::unix::{Group, Passwd, Shadow, UnixError};

#[test]
fn passwd_lookup() {
    let pw = Passwd::load("root:x:0:0:Super-User:/root:/usr/bin/bash\nbin:x:2:2::/:\n").unwrap();
    assert_eq!(pw.lookup_by_name("root"), Ok(0));
    assert_eq!(pw.lookup_by_name("bin"), Ok(2));
    assert_eq!(pw.lookup_by_name("nobody"), Err(UnixError::UserNotFound));
}

#[test]
fn passwd_duplicate_entries() {
    let pw = Passwd::load("x:a:1:1:::\nx:b:2:2:::\n").unwrap();
    assert_eq!(pw.lookup_by_name("x"), Err(UnixError::MultipleUsers));
}

#[test]
fn passwd_bad_id() {
    let pw = Passwd::load("x:a:nope:1:::\n").unwrap();
    assert_eq!(pw.lookup_by_name("x"), Err(UnixError::BadId));
}

#[test]
fn passwd_field_count() {
    assert_eq!(
        Passwd::load("root:x:0:0\n").err(),
        Some(UnixError::BadFieldCount)
    );
}

#[test]
fn passwd_compat_rejected() {
    assert_eq!(
        Passwd::load("+plus:x:0:0:::\n").err(),
        Some(UnixError::CompatLine)
    );
}

#[test]
fn group_lookup() {
    let gr = Group::load("root::0:\nsys::3:root,bin\n").unwrap();
    assert_eq!(gr.lookup_by_name("sys"), Ok(3));
}

#[test]
fn passwd_store_round_trip() {
    let text = "root:x:0:0:Super-User:/root:/usr/bin/bash\nbin:x:2:2::/:\n";
    let pw = Passwd::load(text).unwrap();
    assert_eq!(pw.store(), text);
}

#[test]
fn shadow_password_set() {
    let sh0 = "root:oldhash:6445::::::\ndaemon:NP:6445::::::\n";
    let mut sh = Shadow::load(sh0).unwrap();
    sh.password_set("root", "NP").unwrap();
    assert_eq!(sh.store(), "root:NP:6445::::::\ndaemon:NP:6445::::::\n");
}

#[test]
fn shadow_password_set_missing_user() {
    let mut sh = Shadow::load("daemon:NP:6445::::::\n").unwrap();
    assert_eq!(
        sh.password_set("root", "NP"),
        Err(UnixError::UserNotFound)
    );
}
