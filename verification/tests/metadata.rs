use zone_image::metadata::{parse, ArchiveType, Metadata, MetadataError};

#[test]
fn metadata_parse_canonical() {
    let md = parse("{\"v\":\"1\",\"t\":\"baseline\"}").unwrap();
    assert_eq!(md.v, "1");
    assert!(md.is_baseline());
    assert!(!md.is_layer());
}

#[test]
fn metadata_parse_layer() {
    let md = parse("{\"v\":\"1\",\"t\":\"layer\"}").unwrap();
    assert!(md.is_layer());
}

#[test]
fn metadata_parse_reordered_and_spaced() {
    let md = parse(" { \"t\" : \"baseline\" , \"v\" : \"1\" } ").unwrap();
    assert_eq!(md.v, "1");
    assert!(md.is_baseline());
}

#[test]
fn metadata_unknown_fields_ignored() {
    let md = parse("{\"v\":\"1\",\"t\":\"layer\",\"note\":\"x\"}").unwrap();
    assert!(md.is_layer());
}

#[test]
fn metadata_bad_type_rejected() {
    assert_eq!(
        parse("{\"v\":\"1\",\"t\":\"sideways\"}").err(),
        Some(MetadataError::BadType)
    );
}

#[test]
fn metadata_missing_version_rejected() {
    assert_eq!(
        parse("{\"t\":\"baseline\"}").err(),
        Some(MetadataError::BadVersion)
    );
}

#[test]
fn metadata_truncated_rejected() {
    assert_eq!(parse("{\"v\":\"1\"").err(), Some(MetadataError::BadEnd));
}

#[test]
fn metadata_escape_rejected() {
    assert_eq!(
        parse("{\"v\":\"a\\\\b\",\"t\":\"layer\"}").err(),
        Some(MetadataError::Escape)
    );
}

#[test]
fn metadata_json_round_trip() {
    let md = Metadata { v: "1".to_string(), t: ArchiveType::Baseline };
    let text = md.to_json();
    assert_eq!(text, "{\"v\":\"1\",\"t\":\"baseline\"}");
    let back = parse(&text).unwrap();
    assert_eq!(back.v, "1");
    assert!(back.is_baseline());

    let md = Metadata { v: "2".to_string(), t: ArchiveType::Layer };
    let back = parse(&md.to_json()).unwrap();
    assert_eq!(back.v, "2");
    assert!(back.is_layer());
}
