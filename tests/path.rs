use uv_core::path::{
    normalize_absolute_path, normalize_path, normalize_path_buf, normalize_url_path, normalized,
    relative_to, ErrorKind, PythonExt, Simplified,
};

#[test]
fn test_normalize_url() {
    assert_eq!(
        normalize_url_path("/C:/Users/ferris/wheel-0.42.0.tar.gz"),
        "/C:/Users/ferris/wheel-0.42.0.tar.gz"
    );
    assert_eq!(
        normalize_url_path("./ferris/wheel-0.42.0.tar.gz"),
        "./ferris/wheel-0.42.0.tar.gz"
    );
    assert_eq!(
        normalize_url_path("./wheel%20cache/wheel-0.42.0.tar.gz"),
        "./wheel cache/wheel-0.42.0.tar.gz"
    );
}

#[test]
fn normalize_url_keeps_invalid_utf8_escapes() {
    assert_eq!(normalize_url_path("a%FFb"), "a%FFb");
    assert_eq!(normalize_url_path("%2"), "%2");
    assert_eq!(normalize_url_path("%41%62"), "Ab");
}

#[test]
fn test_normalize_path() {
    let normalized = normalize_absolute_path("/a/b/../c/./d").unwrap();
    assert_eq!(normalized, "/a/c/d");

    let normalized = normalize_absolute_path("/a/../c/./d").unwrap();
    assert_eq!(normalized, "/c/d");

    // This should be an error.
    let err = normalize_absolute_path("/a/../../c/./d").unwrap_err();
    assert_eq!(err.kind(), ErrorKind::InvalidInput);
}

#[test]
fn normalize_absolute_rejects_escape_of_relative_base() {
    let err = normalize_absolute_path("./a/../../b").unwrap_err();
    assert_eq!(err.kind(), ErrorKind::InvalidInput);
    assert!(err.message().contains("./a/../../b"));
    assert_eq!(normalize_absolute_path("a/./b/..").unwrap(), "a");
    assert_eq!(normalize_absolute_path("").unwrap(), "");
}

#[test]
fn test_relative_to() {
    assert_eq!(
        relative_to(
            "/home/ferris/carcinization/lib/python/site-packages/foo/__init__.py",
            "/home/ferris/carcinization/lib/python/site-packages",
        )
        .unwrap(),
        "foo/__init__.py"
    );
    assert_eq!(
        relative_to(
            "/home/ferris/carcinization/lib/marker.txt",
            "/home/ferris/carcinization/lib/python/site-packages",
        )
        .unwrap(),
        "../../marker.txt"
    );
    assert_eq!(
        relative_to(
            "/home/ferris/carcinization/bin/foo_launcher",
            "/home/ferris/carcinization/lib/python/site-packages",
        )
        .unwrap(),
        "../../../bin/foo_launcher"
    );
}

#[test]
fn relative_to_scenario_paths() {
    assert_eq!(
        relative_to("/home/a/lib/python/site-packages/foo/__init__.py", "/home/a/lib/python/site-packages").unwrap(),
        "foo/__init__.py"
    );
    assert_eq!(
        relative_to("/home/a/bin/x", "/home/a/lib/python/site-packages").unwrap(),
        "../../../bin/x"
    );
}

#[test]
fn relative_to_fails_between_relative_and_absolute() {
    let err = relative_to("a/b", "/c").unwrap_err();
    assert_eq!(err.kind(), ErrorKind::NotRelative);
    assert_eq!(relative_to("/x/y", "/").unwrap(), "x/y");
    assert_eq!(relative_to("/x", "/x").unwrap(), "");
}

#[test]
fn test_normalize_relative() {
    let cases = [
        (
            "../../workspace-git-path-dep-test/packages/c/../../packages/d",
            "../../workspace-git-path-dep-test/packages/d",
        ),
        (
            "workspace-git-path-dep-test/packages/c/../../packages/d",
            "workspace-git-path-dep-test/packages/d",
        ),
        ("./a/../../b", "../b"),
        ("/usr/../../foo", "/../foo"),
    ];
    for (input, expected) in cases {
        assert_eq!(normalize_path(input), expected);
    }
}

#[test]
fn normalize_path_returns_plain_paths_unchanged() {
    assert_eq!(normalize_path("a//b/"), "a//b/");
    assert_eq!(normalize_path_buf("/x/y".to_string()), "/x/y");
    assert_eq!(normalized("a/./b"), "a/b");
    assert_eq!(normalize_path_buf("a/./b/../c".to_string()), "a/c");
}

#[test]
fn escape_path_for_python() {
    assert_eq!(r#"C:\dir "x""#.escape_for_python(), r#"C:\\dir \"x\""#);
    assert_eq!("plain".to_string().escape_for_python(), "plain");
}

#[test]
fn user_display_relativizes() {
    assert_eq!("/home/a/b".user_display_from("/home/a", "/work"), "b");
    assert_eq!("/work/x".user_display_from("/home/a", "/work"), "x");
    assert_eq!("/other/x".user_display_from("/home/a", "/work"), "/other/x");
    assert_eq!("/home/a".user_display_from("/home/a", "/work"), ".");
    assert_eq!("/home/a/b".user_display_from("/home/a", "/"), "/home/a/b");
    assert_eq!("/p".simplified(), "/p");
}

use uv_core::path::{PortablePath, PortablePathBuf};

#[test]
fn portable_paths() {
    assert_eq!(PortablePathBuf::from_portable(".").as_str(), "");
    assert_eq!(PortablePathBuf::from_portable(".").to_portable_string(), ".");
    assert_eq!(PortablePathBuf::from_portable("a/b").to_portable_string(), "a/b");
    assert_eq!(PortablePath::new("").to_portable_string(), ".");
    assert_eq!(PortablePath::new("x").as_str(), "x");
}

#[test]
fn user_and_portable_display() {
    assert_eq!("/work/a/b".user_display("/work"), "a/b");
    assert_eq!("/elsewhere".user_display("/work"), "/elsewhere");
    assert_eq!("".user_display("/work"), ".");
    assert_eq!("/work/a".user_display("/"), "/work/a");
    assert_eq!("/work/a/b".portable_display("/work"), "a/b");
    assert_eq!("/x".portable_display("/work"), "/x");
}

use uv_core::path::normalize_url_path_on;

#[test]
fn normalize_url_on_windows() {
    assert_eq!(
        normalize_url_path_on("/C:/Users/ferris/wheel-0.42.0.tar.gz", true),
        "C:\\Users\\ferris\\wheel-0.42.0.tar.gz"
    );
    assert_eq!(
        normalize_url_path_on("./wheel%20cache/wheel-0.42.0.tar.gz", true),
        ".\\wheel cache\\wheel-0.42.0.tar.gz"
    );
    assert_eq!(normalize_url_path_on("./ferris/x", false), "./ferris/x");
}
