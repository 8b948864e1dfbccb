use treenamer::error::{AppError, ErrorType, IoErrorKind};
use treenamer::text::{base_name, chars_of, concat2, concat3, concat4, join_path, parent_path, string_of};

#[test]
fn paths_are_joined_and_split() {
    assert_eq!(join_path("", "a"), "a");
    assert_eq!(join_path("a", "b"), "a/b");
    assert_eq!(join_path("a/b", "c.txt"), "a/b/c.txt");
    assert_eq!(parent_path("/a/b"), Some("/a".to_string()));
    assert_eq!(parent_path("a/b/c"), Some("a/b".to_string()));
    assert_eq!(parent_path("a"), None);
    assert_eq!(parent_path("/a"), Some("/".to_string()));
    assert_eq!(parent_path("/"), None);
    assert_eq!(parent_path(""), None);
    assert_eq!(parent_path("a/"), Some("a".to_string()));
    assert_eq!(base_name("a/b/c.txt"), "c.txt");
    assert_eq!(base_name("c.txt"), "c.txt");
    assert_eq!(base_name("a/"), "");
}

#[test]
fn strings_and_characters() {
    assert_eq!(chars_of("añ│"), vec!['a', 'ñ', '│']);
    assert_eq!(string_of(&vec!['a', 'b', 'c', 'd'], 1, 3), "bc");
    assert_eq!(string_of(&vec!['a'], 1, 1), "");
    assert_eq!(concat2("a", "b"), "ab");
    assert_eq!(concat3("a", "b", "c"), "abc");
    assert_eq!(concat4("a", "b", "c", "d"), "abcd");
}

#[test]
fn system_failures_are_classified() {
    let e = AppError::from_io(IoErrorKind::PermissionDenied, "x");
    assert_eq!(e.error_type, ErrorType::PermissionDenied);
    assert_eq!(e.message, "Permission denied");
    assert_eq!(e.path, None);
    assert!(!e.recoverable);
    let e = AppError::from_io(IoErrorKind::NotFound, "x");
    assert_eq!(e.error_type, ErrorType::FileNotFound);
    assert_eq!(e.message, "File not found");
    assert!(!e.recoverable);
    let e = AppError::from_io(IoErrorKind::AlreadyExists, "x");
    assert_eq!(e.error_type, ErrorType::PathAlreadyExists);
    assert_eq!(e.message, "Path already exists");
    assert!(e.recoverable);
    let e = AppError::from_io(IoErrorKind::Other, "broken pipe");
    assert_eq!(e.error_type, ErrorType::SystemError);
    assert_eq!(e.message, "broken pipe");
    assert!(!e.recoverable);
    let e = AppError::from_io(IoErrorKind::DirectoryNotEmpty, "not empty");
    assert_eq!(e.error_type, ErrorType::SystemError);
    assert_eq!(e.describe(), "SystemError: not empty");
    assert_eq!(AppError::malformed("m").describe(), "MalformedTree: m");
}
