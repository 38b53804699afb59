use uv_core::project::cache_name;

#[test]
fn test_cache_name() {
    assert_eq!(cache_name("foo"), Some("foo".into()));
    assert_eq!(cache_name("foo-bar"), Some("foo-bar".into()));
    assert_eq!(cache_name("foo_bar"), Some("foo-bar".into()));
    assert_eq!(cache_name("foo-bar_baz"), Some("foo-bar-baz".into()));
    assert_eq!(cache_name("foo-bar_baz_"), Some("foo-bar-baz".into()));
    assert_eq!(cache_name("foo-_bar_baz"), Some("foo-bar-baz".into()));
    assert_eq!(cache_name("_+-_"), None);
}

#[test]
fn cache_name_hex_and_case() {
    assert_eq!(cache_name(""), None);
    assert_eq!(cache_name("0badf00d"), Some("0badf00d".into()));
    assert_eq!(cache_name("Foo.Bar"), Some("foo-bar".into()));
    assert_eq!(cache_name("-lead"), Some("-lead".into()));
}

use uv_core::project::{
    can_hand_on, creation_outcome, environment_usability, format_optional_requires_python_sources,
    replace_existing, resolve_python_request, validate_requires_python, EnvironmentDir,
    EnvironmentIncompatibility, EnvironmentOutcome, InvalidEnvironmentDir, PythonRequestSource,
    RequiresPythonIncompatibility, RequiresPythonSource,
};
use uv_core::request::PythonRequest;
use uv_core::version_files::PythonVersionFile;

#[test]
fn never_removes_foreign_directories() {
    let foreign = EnvironmentDir { exists: Some(true), has_pyvenv_cfg: Some(false), is_empty: false };
    assert_eq!(replace_existing(foreign), Err(InvalidEnvironmentDir::NotVirtualEnvironment));
    let empty = EnvironmentDir { exists: Some(true), has_pyvenv_cfg: Some(false), is_empty: true };
    assert_eq!(replace_existing(empty), Ok(false));
    let venv = EnvironmentDir { exists: Some(true), has_pyvenv_cfg: Some(true), is_empty: false };
    assert_eq!(replace_existing(venv), Ok(true));
    let missing = EnvironmentDir { exists: Some(false), has_pyvenv_cfg: Some(false), is_empty: false };
    assert_eq!(replace_existing(missing), Ok(false));
    let unknown = EnvironmentDir { exists: None, has_pyvenv_cfg: Some(false), is_empty: false };
    assert_eq!(replace_existing(unknown), Err(InvalidEnvironmentDir::Undetermined));
}

#[test]
fn outcomes() {
    assert_eq!(creation_outcome(true, false), EnvironmentOutcome::Replaced);
    assert_eq!(creation_outcome(false, false), EnvironmentOutcome::Created);
    assert_eq!(creation_outcome(true, true), EnvironmentOutcome::WouldReplace);
    assert_eq!(creation_outcome(false, true), EnvironmentOutcome::WouldCreate);
    assert!(can_hand_on(EnvironmentOutcome::Existing));
    assert!(!can_hand_on(EnvironmentOutcome::WouldCreate));
}

#[test]
fn usability_checks_in_order() {
    assert_eq!(environment_usability(None, "3.12.1", None, None, true), Ok(()));
    assert_eq!(environment_usability(Some("3.12.1"), "3.12.1", None, None, true), Ok(()));
    assert_eq!(
        environment_usability(Some("3.12.0"), "3.12.1", Some(false), None, false),
        Err(EnvironmentIncompatibility::PyvenvVersionConflict)
    );
    assert_eq!(environment_usability(None, "3.12.1", Some(false), Some(false), true), Err(EnvironmentIncompatibility::PythonRequest));
    assert_eq!(environment_usability(None, "3.12.1", Some(true), Some(false), true), Err(EnvironmentIncompatibility::RequiresPython));
    assert_eq!(environment_usability(None, "3.12.1", Some(true), Some(true), false), Err(EnvironmentIncompatibility::PythonPreference));
}

#[test]
fn request_sources() {
    let (source, request) = resolve_python_request(
        Some(PythonRequest::Version("3.12".to_string())),
        None,
        Some(">=3.10".to_string()),
    );
    assert!(matches!(source, PythonRequestSource::UserRequest));
    assert!(matches!(request, Some(PythonRequest::Version(v)) if v == "3.12"));
    let file = PythonVersionFile::new("/p/.python-version".to_string())
        .with_versions(vec![PythonRequest::Version("3.11".to_string())]);
    let (source, request) = resolve_python_request(None, Some(file), Some(">=3.10".to_string()));
    assert_eq!(source.describe(), "version file at `/p/.python-version`");
    assert!(matches!(request, Some(PythonRequest::Version(v)) if v == "3.11"));
    let (source, request) = resolve_python_request(None, None, Some(">=3.10".to_string()));
    assert_eq!(source.describe(), "`requires-python` metadata");
    assert!(matches!(request, Some(PythonRequest::Version(v)) if v == ">=3.10"));
    assert_eq!(PythonRequestSource::UserRequest.describe(), "explicit request");
}

#[test]
fn requires_python_errors_name_their_source() {
    assert!(validate_requires_python(true, &PythonRequestSource::UserRequest).is_ok());
    assert!(matches!(
        validate_requires_python(false, &PythonRequestSource::UserRequest),
        Err(RequiresPythonIncompatibility::RequestedPython)
    ));
    assert!(matches!(
        validate_requires_python(false, &PythonRequestSource::DotPythonVersion("/p/.python-version".to_string())),
        Err(RequiresPythonIncompatibility::DotPythonVersion(p)) if p == "/p/.python-version"
    ));
    assert!(matches!(
        validate_requires_python(false, &PythonRequestSource::RequiresPython),
        Err(RequiresPythonIncompatibility::RequiresPython)
    ));
}

#[test]
fn requires_python_notes() {
    let one = vec![RequiresPythonSource { package: "foo".to_string(), group: None, specifiers: ">=3.12".to_string() }];
    assert_eq!(format_optional_requires_python_sources(&one, false), " (from `project.requires-python`)");
    assert_eq!(
        format_optional_requires_python_sources(&one, true),
        " (from workspace member `foo`'s `project.requires-python`)."
    );
    let grouped = vec![RequiresPythonSource { package: "foo".to_string(), group: Some("dev".to_string()), specifiers: ">=3.12".to_string() }];
    assert_eq!(
        format_optional_requires_python_sources(&grouped, false),
        " (from `tool.uv.dependency-groups.dev.requires-python`)."
    );
    let two = vec![
        RequiresPythonSource { package: "foo".to_string(), group: None, specifiers: ">=3.12".to_string() },
        RequiresPythonSource { package: "bar".to_string(), group: Some("dev".to_string()), specifiers: ">=3.13".to_string() },
    ];
    assert_eq!(
        format_optional_requires_python_sources(&two, true),
        ".\nThe following `requires-python` declarations do not permit this version:\n- foo: >=3.12\n- bar:dev: >=3.13"
    );
    assert_eq!(format_optional_requires_python_sources(&vec![], true), "");
}

use uv_core::project::{detect_conflicts, ConflictItem, ConflictKind};

fn extra(package: &str, name: &str) -> ConflictItem {
    ConflictItem { package: package.to_string(), kind: ConflictKind::Extra(name.to_string()) }
}

fn group(package: &str, name: &str) -> ConflictItem {
    ConflictItem { package: package.to_string(), kind: ConflictKind::Group(name.to_string()) }
}

#[test]
fn conflicting_extra_and_group() {
    let sets = vec![vec![extra("p", "cpu"), extra("p", "gpu")], vec![extra("p", "x"), group("p", "g")]];
    assert!(detect_conflicts(&sets, &vec!["cpu".to_string()], &vec![]).is_ok());
    let err = detect_conflicts(&sets, &vec!["cpu".to_string(), "gpu".to_string()], &vec![]).unwrap_err();
    assert_eq!(err.set, 0);
    assert_eq!(err.conflicts.len(), 2);
    let err = detect_conflicts(&sets, &vec!["x".to_string()], &vec!["g".to_string()]).unwrap_err();
    assert_eq!(err.set, 1);
    assert!(detect_conflicts(&vec![], &vec!["x".to_string()], &vec![]).is_ok());
}

#[test]
fn conflict_needs_every_member_enabled() {
    let sets = vec![vec![extra("p", "a"), extra("p", "b"), extra("p", "c")]];
    let two = vec!["a".to_string(), "b".to_string()];
    assert!(detect_conflicts(&sets, &two, &vec![]).is_ok());
    let three = vec!["a".to_string(), "b".to_string(), "c".to_string()];
    let err = detect_conflicts(&sets, &three, &vec![]).unwrap_err();
    assert_eq!(err.set, 0);
    assert_eq!(err.conflicts.len(), 3);
}

use uv_core::project::{pyvenv_version_conflict, update_step, Modifications, UpdateStep};
use uv_core::run::Satisfaction;

#[test]
fn version_drift_and_update_steps() {
    assert!(pyvenv_version_conflict(Some("3.12.0"), "3.12.1"));
    assert!(!pyvenv_version_conflict(Some("3.12.1"), "3.12.1"));
    assert!(!pyvenv_version_conflict(None, "3.12.1"));
    assert_eq!(update_step(true, true, true, Modifications::Sufficient, Satisfaction::Fresh), UpdateStep::Skip);
    assert_eq!(update_step(true, true, true, Modifications::Sufficient, Satisfaction::Unsatisfied), UpdateStep::Sync);
    assert_eq!(update_step(true, true, true, Modifications::Sufficient, Satisfaction::Failed), UpdateStep::CheckFailed);
    assert_eq!(update_step(true, true, true, Modifications::Exact, Satisfaction::Fresh), UpdateStep::Sync);
    assert_eq!(update_step(false, true, true, Modifications::Sufficient, Satisfaction::Failed), UpdateStep::Sync);
    assert_eq!(update_step(true, true, false, Modifications::Sufficient, Satisfaction::Fresh), UpdateStep::Sync);
}

use uv_core::project::{script_entry, script_root, virtual_env_path};

#[test]
fn script_environment_paths() {
    assert_eq!(script_entry(Some("My_Script"), "abc123"), "my-script-abc123");
    assert_eq!(script_entry(Some("__"), "abc123"), "abc123");
    assert_eq!(script_entry(None, "abc123"), "abc123");
    assert_eq!(virtual_env_path(None, "/w"), None);
    assert_eq!(virtual_env_path(Some(""), "/w"), None);
    assert_eq!(virtual_env_path(Some("/venv"), "/w"), Some("/venv".to_string()));
    assert_eq!(virtual_env_path(Some(".venv"), "/w"), Some("/w/.venv".to_string()));
    let r = script_root(Some(true), Some("/venv".to_string()), false, "/cache/env".to_string());
    assert_eq!(r.path, "/venv");
    let r = script_root(None, Some("/venv".to_string()), false, "/cache/env".to_string());
    assert_eq!(r.path, "/cache/env");
    assert!(r.warn_ignored_active);
    let r = script_root(Some(true), Some("/cache/env".to_string()), true, "/cache/env".to_string());
    assert_eq!(r.path, "/cache/env");
    assert!(!r.warn_ignored_active);
    let r = script_root(Some(true), None, false, "/cache/env".to_string());
    assert_eq!(r.path, "/cache/env");
}

use uv_core::project::{existing_environment_step, EnvironmentProbe, ExistingStep};

#[test]
fn existing_environment_steps() {
    assert_eq!(existing_environment_step(EnvironmentProbe::Found { usable: true }, false), ExistingStep::Use);
    assert_eq!(existing_environment_step(EnvironmentProbe::Found { usable: false }, true), ExistingStep::UseIncompatible);
    assert_eq!(existing_environment_step(EnvironmentProbe::Found { usable: false }, false), ExistingStep::Create);
    assert_eq!(
        existing_environment_step(EnvironmentProbe::MissingExecutable { non_empty: true, has_pyvenv_cfg: false }, false),
        ExistingStep::Refuse
    );
    assert_eq!(
        existing_environment_step(EnvironmentProbe::MissingExecutable { non_empty: true, has_pyvenv_cfg: true }, false),
        ExistingStep::Create
    );
    assert_eq!(existing_environment_step(EnvironmentProbe::Empty, false), ExistingStep::Create);
    assert_eq!(existing_environment_step(EnvironmentProbe::NotDirectory, false), ExistingStep::Create);
    assert_eq!(existing_environment_step(EnvironmentProbe::BrokenSymlink, true), ExistingStep::Create);
}
