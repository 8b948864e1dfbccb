use treenamer::guard::is_protected_path;

#[test]
fn test_protected_path_detection() {
    assert!(is_protected_path("C:\\Windows"), "Windows system directory should be protected");
    assert!(is_protected_path("C:\\Windows\\System32"), "System32 directory should be protected");
    assert!(is_protected_path("C:\\Program Files"), "Program Files directory should be protected");

    assert!(is_protected_path("/System"), "macOS System directory should be protected");
    assert!(is_protected_path("/Library"), "macOS Library directory should be protected");
    assert!(is_protected_path("/usr"), "usr directory should be protected");

    assert!(is_protected_path("/etc"), "Linux etc directory should be protected");
    assert!(is_protected_path("/usr"), "usr directory should be protected");
    assert!(is_protected_path("/var"), "var directory should be protected");

    assert!(
        !is_protected_path("D:\\Projects\\TreeNamer"),
        "User project directory should not be protected"
    );
    assert!(
        !is_protected_path("C:\\Users\\username\\Documents"),
        "User documents should not be protected"
    );

    assert!(!is_protected_path("/home/user/documents"), "User home directory should not be protected");
    assert!(!is_protected_path("/tmp"), "Temporary directory should not be protected");

    assert!(!is_protected_path(""), "Empty path should not trigger protection");
    assert!(!is_protected_path("relative/path"), "Relative paths should not be protected");
}

#[test]
fn protection_follows_whole_segments() {
    assert!(is_protected_path("/usr/local/bin"));
    assert!(is_protected_path("/usr/"));
    assert!(!is_protected_path("/usrx"));
    assert!(!is_protected_path("/us"));
    assert!(!is_protected_path("usr"));
    assert!(is_protected_path("C:\\Program Files (x86)\\App"));
    assert!(!is_protected_path("C:\\Program Filesystem"));
    assert!(is_protected_path("C:\\Windows/System32"));
    assert!(is_protected_path("//usr"));
    assert!(is_protected_path("/./usr/bin"));
    assert!(is_protected_path("/usr/./local//bin/"));
    assert!(is_protected_path("\\etc\\passwd"));
    assert!(!is_protected_path("/home/usr"));
    assert!(!is_protected_path("/.usr"));
    assert!(!is_protected_path("/"));
    assert!(!is_protected_path("."));
    assert!(!is_protected_path("C:\\"));
}
