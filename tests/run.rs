use uv_core::run::{
    can_skip_ephemeral, check_recursion_depth, classify_target, display_executable,
    needs_requirements_env, next_recursion_depth, overlay_includes_system_site_packages,
    overlay_stub, remote_script_stem, rewrite_entrypoint, script_stem_from_path, search_path,
    RecursionError, RunKind, RunTargetError, Satisfaction, TargetFacts,
};

fn facts(exists: Option<bool>, is_file: bool, is_dir: bool) -> TargetFacts {
    TargetFacts { exists, is_file, is_dir, has_main_py: false, is_zipapp: false }
}

#[test]
fn recursion_limit_names_script_flag() {
    let err = check_recursion_depth(Some("101"), 100).unwrap_err();
    match err {
        RecursionError::TooDeep { depth, max, message } => {
            assert_eq!(depth, 101);
            assert_eq!(max, 100);
            assert!(message.contains("--script"));
            assert!(message.contains("recursively invoked 101 times which exceeds the limit of 100"));
        }
        other => panic!("unexpected {other:?}"),
    }
    assert_eq!(check_recursion_depth(Some("100"), 100).unwrap(), 100);
    assert_eq!(check_recursion_depth(None, 0).unwrap(), 0);
    assert!(matches!(check_recursion_depth(Some("x"), 5), Err(RecursionError::InvalidDepth(_))));
    assert_eq!(next_recursion_depth(4), "5");
}

#[test]
fn satisfied_base_skips_overlay() {
    assert!(can_skip_ephemeral(true, Satisfaction::Fresh));
    assert!(!can_skip_ephemeral(false, Satisfaction::Fresh));
    assert!(!needs_requirements_env(true, true, Satisfaction::Fresh));
    assert!(!needs_requirements_env(false, true, Satisfaction::Unsatisfied));
    assert!(needs_requirements_env(true, true, Satisfaction::Unsatisfied));
    assert!(needs_requirements_env(true, true, Satisfaction::Failed));
}

#[test]
fn overlay_stub_orders_site_dirs() {
    assert_eq!(
        overlay_stub("/req/site-packages", "/base/site \"x\""),
        r#"import site; site.addsitedir("/req/site-packages"); site.addsitedir("/base/site \"x\"");"#
    );
    assert!(overlay_includes_system_site_packages(true, Some(true)));
    assert!(!overlay_includes_system_site_packages(false, Some(true)));
    assert!(!overlay_includes_system_site_packages(true, None));
}

#[test]
fn path_puts_overlay_first() {
    let p = search_path(
        Some("/overlay/bin".to_string()),
        Some("/with/bin".to_string()),
        "/with/bin".to_string(),
        vec!["/usr/bin".to_string()],
    );
    assert_eq!(p, vec!["/overlay/bin".to_string(), "/with/bin".to_string(), "/usr/bin".to_string()]);
    let p = search_path(None, None, "/base/bin".to_string(), vec![]);
    assert_eq!(p, vec!["/base/bin".to_string()]);
}

#[test]
fn rewrite_absolute_shebang() {
    let r = rewrite_entrypoint("#!/base/bin/python3\nimport x\n", "/base/bin/python3", "/overlay/bin/python");
    assert_eq!(r, Some("#!/overlay/bin/python\nimport x\n".to_string()));
    let r = rewrite_entrypoint("#!/base/bin/python\nimport x\n", "/base/bin/python3", "/o/python");
    assert_eq!(r, Some("#!/o/python\nimport x\n".to_string()));
    let r = rewrite_entrypoint("#!/bin/bash\necho\n", "/base/bin/python3", "/o/python");
    assert_eq!(r, None);
    let relocatable = "#!/bin/sh\n'''exec' \"$(dirname -- \"$(realpath -- \"$0\")\")\"/'python' \"$0\" \"$@\"\n' '''\nbody\n";
    assert_eq!(rewrite_entrypoint(relocatable, "/x", "/o/python"), Some("#!/o/python\nbody\n".to_string()));
}

#[test]
fn classify_targets() {
    let none = facts(Some(false), false, false);
    assert_eq!(classify_target(None, false, false, false, none), Ok(RunKind::Empty));
    assert_eq!(classify_target(Some("-"), false, false, false, none), Ok(RunKind::PythonStdin));
    assert_eq!(classify_target(Some("-"), false, false, true, none), Ok(RunKind::PythonGuiStdin));
    assert_eq!(classify_target(Some("-"), true, false, false, none), Err(RunTargetError::ModuleFromStdin));
    assert_eq!(classify_target(Some("https://x.org/a.py"), false, false, false, none), Ok(RunKind::PythonRemote));
    assert_eq!(classify_target(Some("https://x.org/a.py"), false, false, false, facts(None, false, false)), Ok(RunKind::External));
    assert_eq!(classify_target(Some("foo"), true, false, false, none), Ok(RunKind::PythonModule));
    assert_eq!(classify_target(Some("foo"), false, true, false, none), Ok(RunKind::PythonScript));
    assert_eq!(classify_target(Some("PYTHON"), false, false, false, none), Ok(RunKind::Python));
    assert_eq!(classify_target(Some("a.PY"), false, false, false, facts(Some(true), true, false)), Ok(RunKind::PythonScript));
    assert_eq!(classify_target(Some("a.pyc"), false, false, false, facts(Some(true), true, false)), Ok(RunKind::PythonScript));
    assert_eq!(classify_target(Some("a.pyw"), false, false, false, facts(Some(true), true, false)), Ok(RunKind::PythonGuiScript));
    assert_eq!(classify_target(Some("a.py"), false, false, false, none), Ok(RunKind::External));
    assert_eq!(classify_target(Some(".py"), false, false, false, facts(Some(true), true, false)), Ok(RunKind::External));
    let pkg = TargetFacts { exists: Some(true), is_file: false, is_dir: true, has_main_py: true, is_zipapp: false };
    assert_eq!(classify_target(Some("pkg"), false, false, false, pkg), Ok(RunKind::PythonPackage));
    let zipapp = TargetFacts { exists: Some(true), is_file: true, is_dir: false, has_main_py: false, is_zipapp: true };
    assert_eq!(classify_target(Some("app.pyz"), false, false, false, zipapp), Ok(RunKind::PythonZipapp));
    assert_eq!(classify_target(Some("ruff"), false, false, false, none), Ok(RunKind::External));
}

#[test]
fn executable_names() {
    assert_eq!(display_executable(RunKind::PythonModule, "x"), "python -m");
    assert_eq!(display_executable(RunKind::External, "ruff"), "ruff");
    assert_eq!(display_executable(RunKind::PythonStdin, "-"), "python -c");
    assert_eq!(display_executable(RunKind::PythonScript, "a.py"), "python");
}

#[test]
fn remote_script_names() {
    assert_eq!(remote_script_stem("https://example.com/scripts/hello.py"), "hello");
    assert_eq!(remote_script_stem("https://example.com/scripts/run"), "script");
    assert_eq!(remote_script_stem("not a url"), "script");
    assert_eq!(script_stem_from_path(Some("/a/b.py")), "b");
    assert_eq!(script_stem_from_path(None), "script");
}

use uv_core::run::command_line;

#[test]
fn command_lines() {
    let args = vec!["-v".to_string(), "x".to_string()];
    assert_eq!(command_line(RunKind::Python, "", &args), "python -v x");
    assert_eq!(command_line(RunKind::PythonScript, "a.py", &args), "python a.py -v x");
    assert_eq!(command_line(RunKind::PythonModule, "http.server", &vec![]), "python -m http.server");
    assert_eq!(command_line(RunKind::PythonGuiScript, "a.pyw", &vec![]), "pythonw a.pyw");
    assert_eq!(command_line(RunKind::External, "ruff", &vec!["check".to_string()]), "ruff check");
    assert_eq!(command_line(RunKind::PythonStdin, "-", &args), "python -c");
    assert_eq!(command_line(RunKind::Empty, "", &vec![]), "python");
}

use uv_core::run::{command_argv, CommandInputs};

fn inputs(entrypoint: Option<&str>, pythonw: Option<&str>) -> CommandInputs {
    CommandInputs {
        python: "/env/bin/python".to_string(),
        pythonw: pythonw.map(|s| s.to_string()),
        entrypoint: entrypoint.map(|s| s.to_string()),
        target: "tgt".to_string(),
        script: "print(1)".to_string(),
        args: vec!["a".to_string()],
    }
}

#[test]
fn argv_per_kind() {
    let i = inputs(None, None);
    assert_eq!(command_argv(RunKind::Python, &i), ("/env/bin/python".to_string(), vec!["a".to_string()]));
    assert_eq!(command_argv(RunKind::PythonModule, &i).1, vec!["-m".to_string(), "tgt".to_string(), "a".to_string()]);
    assert_eq!(command_argv(RunKind::PythonStdin, &i).1, vec!["-c".to_string(), "print(1)".to_string(), "a".to_string()]);
    assert_eq!(command_argv(RunKind::External, &i), ("tgt".to_string(), vec!["a".to_string()]));
    assert_eq!(command_argv(RunKind::Empty, &i), ("/env/bin/python".to_string(), vec![]));
    assert_eq!(command_argv(RunKind::PythonPackage, &i).1, vec!["tgt".to_string(), "a".to_string()]);
    let j = inputs(Some("/env/bin/tgt"), Some("/env/bin/pythonw"));
    assert_eq!(command_argv(RunKind::PythonPackage, &j), ("/env/bin/tgt".to_string(), vec!["a".to_string()]));
    assert_eq!(command_argv(RunKind::PythonGuiScript, &j).0, "/env/bin/pythonw");
}
