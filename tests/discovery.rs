use uv_core::discovery::{
    find_best, find_python, Candidate, DiscoveryError, Error, Interpreter, InterpreterRequest,
    VersionRequest,
};

fn interpreter(exe: &str, version: &str, gil_disabled: bool) -> Interpreter {
    let parts: Vec<u64> = version.split('.').map(|p| p.parse().unwrap()).collect();
    Interpreter {
        sys_executable: exe.to_string(),
        sys_prefix: "/usr".to_string(),
        base_prefix: "/usr".to_string(),
        major: parts[0],
        minor: parts[1],
        patch: parts[2],
        prerelease: false,
        implementation: "cpython".to_string(),
        gil_disabled,
    }
}

fn found(exe: &str, version: &str) -> Candidate {
    Candidate::Found(interpreter(exe, version, false))
}

fn request(version: VersionRequest) -> InterpreterRequest {
    InterpreterRequest { version, freethreaded: false, implementation: None }
}

fn chosen_executable(candidates: &Vec<Candidate>, index: usize) -> String {
    match &candidates[index] {
        Candidate::Found(i) => i.sys_executable.clone(),
        _ => panic!("chose a candidate that is no interpreter"),
    }
}

#[test]
fn find_python_valid_executable_after_invalid() {
    let candidates = vec![
        Candidate::Unusable,
        Candidate::Unusable,
        Candidate::Unusable,
        found("/good/python", "3.12.1"),
    ];
    let index = find_python(&request(VersionRequest::Any), &candidates).unwrap();
    assert_eq!(chosen_executable(&candidates, index), "/good/python");
}

#[test]
fn find_python_only_python2_executable() {
    let candidates = vec![Candidate::Python2("python2 is not supported".to_string())];
    let result = find_python(&request(VersionRequest::Any), &candidates);
    assert!(matches!(result, Err(DiscoveryError::Query(..))));
}

#[test]
fn find_python_skip_python2_executable() {
    let candidates = vec![
        Candidate::Python2("python2 is not supported".to_string()),
        found("/python3/python", "3.12.1"),
    ];
    let index = find_python(&request(VersionRequest::Any), &candidates).unwrap();
    assert_eq!(chosen_executable(&candidates, index), "/python3/python");
}

#[test]
fn find_python_version_minor() {
    let candidates = vec![
        found("/a/python", "3.10.1"),
        found("/b/python", "3.11.2"),
        found("/c/python", "3.12.3"),
    ];
    let index = find_python(&request(VersionRequest::MajorMinor(3, 11)), &candidates).unwrap();
    assert_eq!(chosen_executable(&candidates, index), "/b/python");
}

#[test]
fn find_python_version_patch() {
    let candidates = vec![
        found("/a/python", "3.10.1"),
        found("/b/python", "3.11.3"),
        found("/c/python", "3.11.2"),
        found("/d/python", "3.12.3"),
    ];
    let index =
        find_python(&request(VersionRequest::MajorMinorPatch(3, 11, 2)), &candidates).unwrap();
    assert_eq!(chosen_executable(&candidates, index), "/c/python");
}

#[test]
fn find_python_version_minor_no_match() {
    let candidates = vec![
        found("/a/python", "3.10.1"),
        found("/b/python", "3.11.2"),
        found("/c/python", "3.12.3"),
    ];
    let result = find_python(&request(VersionRequest::MajorMinor(3, 9)), &candidates);
    assert!(matches!(result, Err(DiscoveryError::NotFound)));
}

#[test]
fn find_python_version_patch_no_match() {
    let candidates = vec![
        found("/a/python", "3.10.1"),
        found("/b/python", "3.11.2"),
        found("/c/python", "3.12.3"),
    ];
    let result = find_python(&request(VersionRequest::MajorMinorPatch(3, 11, 9)), &candidates);
    assert!(matches!(result, Err(DiscoveryError::NotFound)));
}

#[test]
fn find_best_python_version_patch_exact() {
    let candidates = vec![
        found("/a/python", "3.10.1"),
        found("/b/python", "3.11.2"),
        found("/c/python", "3.11.4"),
        found("/d/python", "3.11.3"),
        found("/e/python", "3.12.5"),
    ];
    let index =
        find_best(&request(VersionRequest::MajorMinorPatch(3, 11, 3)), &candidates).unwrap();
    assert_eq!(chosen_executable(&candidates, index), "/d/python");
}

#[test]
fn find_best_python_version_patch_fallback() {
    let candidates = vec![
        found("/a/python", "3.10.1"),
        found("/b/python", "3.11.2"),
        found("/c/python", "3.11.4"),
        found("/d/python", "3.11.3"),
        found("/e/python", "3.12.5"),
    ];
    let index =
        find_best(&request(VersionRequest::MajorMinorPatch(3, 11, 11)), &candidates).unwrap();
    assert_eq!(chosen_executable(&candidates, index), "/b/python");
}

#[test]
fn find_best_drops_implementation_last() {
    let candidates = vec![found("/a/python", "3.10.1")];
    let r = InterpreterRequest {
        version: VersionRequest::MajorMinorPatch(3, 10, 7),
        freethreaded: false,
        implementation: Some("pypy".to_string()),
    };
    assert_eq!(find_best(&r, &candidates).unwrap(), 0);
    assert!(matches!(find_python(&r, &candidates), Err(DiscoveryError::NotFound)));
}

#[test]
fn find_python_version_free_threaded() {
    let candidates = vec![
        Candidate::Found(interpreter("/bin/python", "3.13.1", false)),
        Candidate::Found(interpreter("/bin/python3.13t", "3.13.0", true)),
    ];
    let r = InterpreterRequest {
        version: VersionRequest::MajorMinor(3, 13),
        freethreaded: true,
        implementation: None,
    };
    let index = find_python(&r, &candidates).unwrap();
    assert_eq!(chosen_executable(&candidates, index), "/bin/python3.13t");
}

#[test]
fn find_python_version_prefer_non_free_threaded() {
    let candidates = vec![
        Candidate::Found(interpreter("/bin/python", "3.13.0", false)),
        Candidate::Found(interpreter("/bin/python3.13t", "3.13.0", true)),
    ];
    let index = find_python(&request(VersionRequest::MajorMinor(3, 13)), &candidates).unwrap();
    assert_eq!(chosen_executable(&candidates, index), "/bin/python");
    let reversed = vec![
        Candidate::Found(interpreter("/bin/python3.13t", "3.13.0", true)),
        Candidate::Found(interpreter("/bin/python", "3.13.0", false)),
    ];
    let index = find_python(&request(VersionRequest::MajorMinor(3, 13)), &reversed).unwrap();
    assert_eq!(chosen_executable(&reversed, index), "/bin/python");
}

#[test]
fn virtualenv_when_prefixes_differ() {
    let mut i = interpreter("/venv/bin/python", "3.12.0", false);
    assert!(!i.is_virtualenv());
    i.sys_prefix = "/venv".to_string();
    assert!(i.is_virtualenv());
}

#[test]
fn missing_python_hint() {
    let e = Error::MissingPython("no interpreter".to_string(), None)
        .with_missing_python_hint("install one".to_string());
    assert!(matches!(e, Error::MissingPython(m, Some(h)) if m == "no interpreter" && h == "install one"));
    let e = Error::Other("x".to_string()).with_missing_python_hint("y".to_string());
    assert!(matches!(e, Error::Other(m) if m == "x"));
}
