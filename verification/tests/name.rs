use noteme::yfs::error::Error;
use noteme::yfs::name::validate_name;

#[test]
fn accepts_nested_logical_path() {
    assert!(validate_name("notes/a.md").is_ok());
}

#[test]
fn rejects_dot_segments() {
    assert!(validate_name("notes/../x").is_err());
    assert!(validate_name(".").is_err());
    assert!(validate_name("a//b").is_err());
}

fn invalid_text(name: &str) -> String {
    match validate_name(name) {
        Err(Error::InvalidName(m)) => m,
        other => panic!("expected an invalid name, got {:?}", other.is_ok()),
    }
}

#[test]
fn validate_name_messages() {
    assert_eq!(invalid_text(""), "length must be 1..=255");
    assert_eq!(invalid_text(&"a".repeat(256)), "length must be 1..=255");
    assert_eq!(invalid_text("a\0b"), "contains NUL");
    assert_eq!(invalid_text("a//b"), "empty path segment");
    assert_eq!(invalid_text("/abs"), "empty path segment");
    assert_eq!(invalid_text("dir/"), "empty path segment");
    assert_eq!(invalid_text("notes/../x"), "illegal segment '..'");
    assert_eq!(invalid_text("./x"), "illegal segment '.'");
}

#[test]
fn validate_name_gives_the_bytes() {
    assert_eq!(validate_name("笔记/a.md").unwrap(), "笔记/a.md".as_bytes().to_vec());
    assert_eq!(validate_name(&"a".repeat(255)).unwrap().len(), 255);
    assert_eq!(validate_name(".hidden/..x").unwrap(), b".hidden/..x".to_vec());
}
