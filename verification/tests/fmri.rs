use zone_image::fmri::{FmriError, Package};

#[test]
fn fmri_full() {
    let p = Package::parse_fmri("pkg:/system/library@0.5.11:20231012T000000Z").unwrap();
    assert_eq!(p.name(), "system/library");
    assert_eq!(p.publisher(), None);
    assert_eq!(p.version(), Some("0.5.11"));
    assert_eq!(p.date(), Some("20231012T000000Z"));
}

#[test]
fn fmri_with_publisher() {
    let p = Package::parse_fmri("pkg://helios-dev/system/library@0.5.11").unwrap();
    assert_eq!(p.publisher(), Some("helios-dev"));
    assert_eq!(p.name(), "system/library");
    assert_eq!(p.version(), Some("0.5.11"));
    assert_eq!(p.date(), None);
}

#[test]
fn fmri_bare_name() {
    let p = Package::parse_fmri("entire").unwrap();
    assert_eq!(p.name(), "entire");
    assert_eq!(p.publisher(), None);
    assert_eq!(p.version(), None);
}

#[test]
fn fmri_leading_slash() {
    let p = Package::parse_fmri("/web/curl").unwrap();
    assert_eq!(p.name(), "web/curl");
}

#[test]
fn fmri_publisher_without_scheme() {
    assert_eq!(
        Package::parse_fmri("//pub/name"),
        Err(FmriError::PublisherWithoutPkg)
    );
}

#[test]
fn fmri_empty_publisher() {
    assert_eq!(Package::parse_fmri("pkg:///name"), Err(FmriError::EmptyPublisher));
}

#[test]
fn fmri_bad_publisher_character() {
    assert_eq!(
        Package::parse_fmri("pkg://we!rd/name"),
        Err(FmriError::BadPublisherChar)
    );
}

#[test]
fn fmri_too_many_at() {
    assert_eq!(Package::parse_fmri("name@1@2"), Err(FmriError::TooManyAt));
}

#[test]
fn fmri_too_many_colons() {
    assert_eq!(Package::parse_fmri("name@1:2:3"), Err(FmriError::TooManyColon));
}

#[test]
fn fmri_round_trip_canonical() {
    // formatting a canonical identifier and parsing it back is the identity
    let cases = [
        "pkg:/system/library@0.5.11:20231012T000000Z",
        "pkg://helios-dev/system/library@0.5.11",
        "pkg:/entire",
        "pkg:/runtime/perl@5.36",
    ];
    for s in cases {
        let p = Package::parse_fmri(s).unwrap();
        assert_eq!(p.to_fmri(), *s);
        let q = Package::parse_fmri(&p.to_fmri()).unwrap();
        assert_eq!(q.to_fmri(), *s);
    }
}

#[test]
fn fmri_new_bare_formats() {
    let p = Package::new_bare("entire");
    assert_eq!(p.to_fmri(), "pkg:/entire");
    let q = Package::new_bare_version("entire", "latest");
    assert_eq!(q.to_fmri(), "pkg:/entire@latest");
}

#[test]
fn fmri_ordering_total() {
    let a = Package::parse_fmri("pkg:/a@1").unwrap();
    let b = Package::parse_fmri("pkg:/b@1").unwrap();
    let mut v = vec![b.clone(), a.clone()];
    v.sort();
    assert_eq!(v[0].name(), "a");
    assert_eq!(v[1].name(), "b");
}
