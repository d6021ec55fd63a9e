use zone_image::defaults::{DefaultsError, DefaultsFile};

#[test]
fn parse_brand_file() {
    let input = "#\n\
# Copyright 2024 Oxide Computer Company\n\
#\n\
\n\
#\n\
# How many writer threads should we use when copying\n\
# from the root file system in a new zone root?\n\
#\n\
COPY_THREADS=16\n\
\n\
#\n\
# What batch size should we use for the copy queue?\n\
#\n\
COPY_BATCH=32\n\
\n\
#\n\
# This is not well-formed.\n\
#\n\
COPY_WHO_I_AM=Mr. Stephens?! Head of Catering?!\n\
\n";

    let df = DefaultsFile::parse(&input).expect("parsed output");
    println!("df = {df:#?}");

    assert_eq!(df.get_usize("COPY_THREADS"), Some(16));
    assert_eq!(df.get_usize("COPY_BATCH"), Some(32));
    assert_eq!(df.get_usize("COPY_WHO_I_AM"), None);
}

#[test]
fn defaults_value_trimmed() {
    let df = DefaultsFile::parse("KEY=  77  \n").unwrap();
    assert_eq!(df.get_usize("KEY"), Some(77));
}

#[test]
fn defaults_comment_after_value() {
    let df = DefaultsFile::parse("KEY=12# trailing comment\n").unwrap();
    assert_eq!(df.get_usize("KEY"), Some(12));
}

#[test]
fn defaults_later_assignment_wins() {
    let df = DefaultsFile::parse("KEY=1\nKEY=2\n").unwrap();
    assert_eq!(df.get_usize("KEY"), Some(2));
}

#[test]
fn defaults_bad_start_character() {
    assert_eq!(DefaultsFile::parse("=1\n").err(), Some(DefaultsError::BadChar));
}

#[test]
fn defaults_comment_in_key() {
    assert_eq!(DefaultsFile::parse("KE#Y=1\n").err(), Some(DefaultsError::CommentInKey));
}

#[test]
fn defaults_open_assignment_dropped() {
    // an assignment still open at the end of the text is discarded
    let df = DefaultsFile::parse("KEY=9").unwrap();
    assert_eq!(df.get_usize("KEY"), None);
}

#[test]
fn defaults_missing_key_absent() {
    let df = DefaultsFile::parse("").unwrap();
    assert_eq!(df.get_usize("ANYTHING"), None);
}
