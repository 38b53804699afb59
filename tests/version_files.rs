use uv_core::request::PythonRequest;
use uv_core::version_files::{
    find_in_directory, join, request_lines, search_directories, version_file_to_read,
    DiscoveryOptions, FilePreference, PythonVersionFile,
};

fn parse(line: &str) -> PythonRequest {
    PythonRequest::parse(line, false, false)
}

#[test]
fn request_lines_skip_comments_and_blanks() {
    let lines = request_lines("3.12\n\n# a comment\n  # indented\npypy@3.10\r\n   \nfoo");
    assert_eq!(lines, vec!["3.12".to_string(), "pypy@3.10".to_string(), "foo".to_string()]);
    assert!(request_lines("").is_empty());
}

#[test]
fn executable_names_are_dropped_with_a_warning() {
    let requests = vec![parse("foo"), parse("bar")];
    assert!(requests.iter().all(|r| r.is_executable_name()));
    let (file, ignored) = PythonVersionFile::from_requests(".python-version".to_string(), requests);
    assert!(file.versions().is_empty());
    assert!(file.version().is_none());
    assert_eq!(ignored, vec!["foo".to_string(), "bar".to_string()]);
}

#[test]
fn supported_requests_are_kept_in_order() {
    let requests = vec![parse("3.12"), parse("foo"), parse("pypy@3.10")];
    let (file, ignored) = PythonVersionFile::from_requests("/p/.python-versions".to_string(), requests);
    let versions: Vec<String> = file.versions().iter().map(|r| r.to_canonical_string()).collect();
    assert_eq!(versions, vec!["3.12".to_string(), "pypy@3.10".to_string()]);
    assert_eq!(ignored, vec!["foo".to_string()]);
    assert_eq!(file.to_contents(), "3.12\npypy@3.10\n");
    assert_eq!(file.file_name(), ".python-versions");
    assert_eq!(file.path(), "/p/.python-versions");
    assert_eq!(file.clone().into_version().unwrap().to_canonical_string(), "3.12");
    assert_eq!(file.into_versions().len(), 2);
}

#[test]
fn new_and_with_versions() {
    let file = PythonVersionFile::new("/x/.python-version".to_string());
    assert!(file.version().is_none());
    let file = file.with_versions(vec![parse("3.11")]);
    assert_eq!(file.version().unwrap().to_canonical_string(), "3.11");
    assert_eq!(file.to_contents(), "3.11\n");
}

#[test]
fn parse_requests() {
    assert!(matches!(parse("any"), PythonRequest::Any));
    assert!(matches!(parse("Default"), PythonRequest::Default));
    assert!(matches!(parse("3.12"), PythonRequest::Version(v) if v == "3.12"));
    assert!(matches!(parse(" 3.13t "), PythonRequest::Version(v) if v == "3.13t"));
    assert!(matches!(parse(">=3.11"), PythonRequest::Version(v) if v == ">=3.11"));
    assert!(matches!(parse("python3.12"), PythonRequest::Version(v) if v == "3.12"));
    assert!(matches!(parse("pypy"), PythonRequest::Implementation(n) if n == "pypy"));
    assert!(
        matches!(parse("pypy@3.10"), PythonRequest::ImplementationVersion(n, v) if n == "pypy" && v == "3.10")
    );
    assert!(matches!(parse("./foo/bar"), PythonRequest::File(p) if p == "./foo/bar"));
    assert!(matches!(PythonRequest::parse("venv", true, false), PythonRequest::Directory(_)));
    assert!(matches!(PythonRequest::parse("bin", false, true), PythonRequest::File(_)));
    assert!(matches!(parse("foobar"), PythonRequest::ExecutableName(n) if n == "foobar"));
}

#[test]
fn find_in_directory_follows_preference() {
    let options = DiscoveryOptions::default();
    assert_eq!(find_in_directory("/p", &options, true, true), Some("/p/.python-version".to_string()));
    assert_eq!(find_in_directory("/p", &options, false, true), Some("/p/.python-versions".to_string()));
    assert_eq!(find_in_directory("/p", &options, false, false), None);
    let options = DiscoveryOptions::default().with_preference(FilePreference::Versions);
    assert_eq!(find_in_directory("/p/", &options, true, true), Some("/p/.python-versions".to_string()));
    assert_eq!(find_in_directory("", &options, true, false), Some(".python-version".to_string()));
    assert_eq!(join("a", "b"), "a/b");
}

#[test]
fn search_directories_stop_below_workspace_root() {
    let options = DiscoveryOptions::default();
    assert_eq!(
        search_directories("/a/b/c", &options),
        vec!["/a/b/c".to_string(), "/a/b".to_string(), "/a".to_string(), "/".to_string()]
    );
    let options = DiscoveryOptions::default().with_stop_discovery_at(Some("/a/b".to_string()));
    assert_eq!(search_directories("/a/b/c", &options), vec!["/a/b/c".to_string(), "/a/b".to_string()]);
    assert_eq!(search_directories("x/y", &DiscoveryOptions::default()), vec!["x/y".to_string(), "x".to_string(), "".to_string()]);
}

#[test]
fn discovery_options_builders() {
    let options = DiscoveryOptions::default()
        .with_no_config(true)
        .with_no_local(true)
        .with_preference(FilePreference::Versions)
        .with_stop_discovery_at(Some("/w".to_string()));
    assert!(options.no_config);
    assert!(options.no_local);
    assert_eq!(options.preference, FilePreference::Versions);
    assert_eq!(options.stop_discovery_at, Some("/w".to_string()));
}

#[test]
fn version_file_choice() {
    let local = Some("/p/.python-version".to_string());
    let global = Some("/home/.config/uv/.python-version".to_string());
    let options = DiscoveryOptions::default();
    assert_eq!(version_file_to_read(&options, local.clone(), global.clone()), local);
    assert_eq!(version_file_to_read(&options, None, global.clone()), global);
    let options = DiscoveryOptions::default().with_no_local(true);
    assert_eq!(version_file_to_read(&options, local.clone(), global.clone()), global);
    let options = DiscoveryOptions::default().with_no_config(true);
    assert_eq!(version_file_to_read(&options, local, global), None);
}
