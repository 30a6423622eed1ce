use passify::entry::secret_is_json;
use passify::path::Path;
use passify::source::{Source, SourceError};
use passify::store::StoreError;

#[test]
fn parse_output() {
    assert_eq!(
        passify::source::parse_output("s3://foo/bar", false).unwrap(),
        Source::S3(String::from("foo/bar"))
    );

    assert!(passify::source::parse_output("s3://", false).is_err());

    assert_eq!(
        passify::source::parse_output("./foo/bar", false).unwrap(),
        Source::File(String::from("./foo/bar"))
    );

    assert_eq!(
        passify::source::parse_output("./foo/bar/", false).unwrap(),
        Source::Directory(String::from("./foo/bar/"))
    );

    assert_eq!(
        passify::source::parse_output("c:\\foo\\bar\\", false).unwrap(),
        Source::Directory(String::from("c:\\foo\\bar\\"))
    );
}

#[test]
fn parse_output_existing_directory() {
    assert_eq!(
        passify::source::parse_output("./foo", true).unwrap(),
        Source::Directory(String::from("./foo"))
    );
    assert_eq!(
        passify::source::parse_output("  s3://bucket  ", false).unwrap(),
        Source::S3(String::from("bucket"))
    );
    assert_eq!(passify::source::parse_output(" s3:// ", false), Err(SourceError::InvalidS3));
}

#[test]
fn parse_input() {
    assert_eq!(
        passify::source::parse_input("s3://foo/bar", false, false).unwrap(),
        Source::S3(String::from("foo/bar"))
    );
    assert!(passify::source::parse_input("s3://", false, false).is_err());
    assert_eq!(
        passify::source::parse_input("/tmp/store", true, true).unwrap(),
        Source::Directory(String::from("/tmp/store"))
    );
    assert_eq!(
        passify::source::parse_input("/tmp/store/foo", true, false).unwrap(),
        Source::File(String::from("/tmp/store/foo"))
    );
    assert_eq!(
        passify::source::parse_input(".", true, true).unwrap(),
        Source::Directory(String::from("."))
    );
    assert_eq!(passify::source::parse_input("nope", false, false), Err(SourceError::Missing));
}

#[test]
fn path_from_str() {
    assert_eq!(
        Path::from_str("db.prod.password").unwrap().iter(),
        &["db", "prod", "password"]
    );
    assert_eq!(
        Path::from_str(" a . b .. c. ").unwrap().iter(),
        &["a", "b", "c"]
    );
    assert_eq!(Path::from_str("  key  ").unwrap().iter(), &["key"]);
    assert_eq!(Path::from_str("n\u{e9}.\u{1f511}").unwrap().iter(), &["n\u{e9}", "\u{1f511}"]);
    assert_eq!(Path::from_str(""), Err(StoreError::EmptyPath));
    assert_eq!(Path::from_str(" . .. "), Err(StoreError::EmptyPath));
}

#[test]
fn secret_kind_follows_first_visible_character() {
    assert_eq!(secret_is_json("foobar"), Some(false));
    assert_eq!(secret_is_json("\"foobar\""), Some(true));
    assert_eq!(secret_is_json(" \n\t\r \"foobar\""), Some(true));
    assert_eq!(secret_is_json("[1, 2]"), Some(true));
    assert_eq!(secret_is_json("\n{\n}"), Some(true));
    assert_eq!(secret_is_json("\u{3000}x{"), Some(false));
    assert_eq!(secret_is_json(" \t\n"), None);
    assert_eq!(secret_is_json(""), None);
}

#[test]
fn path_trims_unicode_whitespace() {
    assert_eq!(
        Path::from_str("\u{3000}a\u{a0}.\u{2028}b ").unwrap().iter(),
        &["a", "b"]
    );
    assert_eq!(Path::from_str("\u{2003}.\u{85}"), Err(StoreError::EmptyPath));
}

#[test]
fn trim_strips_unicode_whitespace_at_both_ends() {
    assert_eq!(passify::source::trim("  a b \t"), "a b");
    assert_eq!(passify::source::trim("\u{3000}\u{a0}x\u{2029}"), "x");
    assert_eq!(passify::source::trim(" \n "), "");
    assert_eq!(passify::source::trim(""), "");
    assert_eq!(passify::source::trim("\u{200b}x"), "\u{200b}x");
}
