//! Decisions of the project commands: cache names, where a Python request
//! comes from, whether an environment can be used, and whether an existing
//! directory may be replaced by a new environment.
use vstd::prelude::*;

use crate::request::PythonRequest;
use crate::text::{chars_of, push_char, push_str, string_of};
use crate::version_files::{join, join_name, PythonVersionFile};

verus! {

// ---------------------------------------------------------------------------
// Cache names.

pub open spec fn is_lower_hex(c: char) -> bool {
    c == '0' || c == '1' || c == '2' || c == '3' || c == '4' || c == '5' || c == '6' || c == '7'
        || c == '8' || c == '9' || c == 'a' || c == 'b' || c == 'c' || c == 'd' || c == 'e' || c
        == 'f'
}

pub open spec fn is_ascii_alnum(c: char) -> bool {
    (0x30 <= (c as int) <= 0x39) || (0x41 <= (c as int) <= 0x5a) || (0x61 <= (c as int) <= 0x7a)
}

pub open spec fn to_lower(c: char) -> char {
    if 0x41 <= (c as int) <= 0x5a {
        ((c as int) + 32) as char
    } else {
        c
    }
}

/// Letters and digits kept in lower case, each run of other characters one
/// dash; the flag says whether the text ends in such a dash.
pub open spec fn dashed(s: Seq<char>) -> (Seq<char>, bool)
    decreases s.len(),
{
    if s.len() == 0 {
        (seq![], false)
    } else {
        let prev = dashed(s.drop_last());
        let c = s.last();
        if is_ascii_alnum(c) {
            (prev.0.push(to_lower(c)), false)
        } else if prev.1 {
            prev
        } else {
            (prev.0.push('-'), true)
        }
    }
}

/// The name of a cache entry for `name`: a name of lower-case hexadecimal
/// digits as it is; any other with its letters in lower case, each run of
/// other characters turned into one dash, and a final dash dropped; nothing
/// where that leaves nothing.
pub open spec fn cache_name_spec(name: Seq<char>) -> Option<Seq<char>> {
    if forall|i: int| 0 <= i < name.len() ==> is_lower_hex(#[trigger] name[i]) {
        if name.len() == 0 {
            None
        } else {
            Some(name)
        }
    } else {
        let d = dashed(name).0;
        let t = if d.len() > 0 && d.last() == '-' {
            d.drop_last()
        } else {
            d
        };
        if t.len() == 0 {
            None
        } else {
            Some(t)
        }
    }
}

fn is_lower_hex_exec(c: char) -> (r: bool)
    ensures
        r == is_lower_hex(c),
{
    match c {
        '0' | '1' | '2' | '3' | '4' | '5' | '6' | '7' | '8' | '9' | 'a' | 'b' | 'c' | 'd' | 'e'
        | 'f' => true,
        _ => false,
    }
}

/// Normalize a name for use in a cache entry.
pub fn cache_name(name: &str) -> (r: Option<String>)
    ensures
        r is Some <==> cache_name_spec(name@) is Some,
        r matches Some(s) ==> s@ == cache_name_spec(name@)->0,
{
    let chars = chars_of(name);
    let mut all_hex = true;
    let mut i: usize = 0;
    while i < chars.len()
        invariant
            chars@ == name@,
            i <= chars@.len(),
            all_hex == forall|j: int| 0 <= j < i ==> is_lower_hex(#[trigger] name@[j]),
        decreases chars@.len() - i,
    {
        if !is_lower_hex_exec(chars[i]) {
            all_hex = false;
        }
        i += 1;
    }
    if all_hex {
        if chars.len() == 0 {
            return None;
        }
        return Some(name.to_owned());
    }
    let mut out: Vec<char> = Vec::new();
    let mut dash = false;
    let mut k: usize = 0;
    while k < chars.len()
        invariant
            chars@ == name@,
            k <= chars@.len(),
            (out@, dash) == dashed(name@.subrange(0, k as int)),
        decreases chars@.len() - k,
    {
        let c = chars[k];
        assert(name@.subrange(0, k + 1).drop_last() =~= name@.subrange(0, k as int));
        let n = c as u32;
        if (48 <= n && n <= 57) || (65 <= n && n <= 90) || (97 <= n && n <= 122) {
            let lower = if 65 <= n && n <= 90 {
                ((n as u8) + 32) as char
            } else {
                c
            };
            out.push(lower);
            dash = false;
        } else if !dash {
            out.push('-');
            dash = true;
        }
        k += 1;
    }
    assert(name@.subrange(0, chars@.len() as int) =~= name@);
    let len = out.len();
    if len > 0 && out[len - 1] == '-' {
        out.pop();
    }
    if out.len() == 0 {
        None
    } else {
        Some(string_of(&out))
    }
}

// ---------------------------------------------------------------------------
// Where the Python request comes from.

/// The source of a Python request.
#[derive(Debug, Clone)]
pub enum PythonRequestSource {
    /// The request was provided by the user.
    UserRequest,
    /// The request was read from the version file at this path.
    DotPythonVersion(String),
    /// The request was inferred from `requires-python` metadata.
    RequiresPython,
}

impl PythonRequestSource {
    /// The source in words.
    pub fn describe(&self) -> (r: String)
        ensures
            r@ == match *self {
                PythonRequestSource::UserRequest => "explicit request"@,
                PythonRequestSource::DotPythonVersion(p) => "version file at `"@ + p@ + "`"@,
                PythonRequestSource::RequiresPython => "`requires-python` metadata"@,
            },
    {
        let mut s = String::new();
        match self {
            PythonRequestSource::UserRequest => push_str(&mut s, "explicit request"),
            PythonRequestSource::DotPythonVersion(p) => {
                push_str(&mut s, "version file at `");
                push_str(&mut s, p.as_str());
                push_str(&mut s, "`");
            },
            PythonRequestSource::RequiresPython => push_str(&mut s, "`requires-python` metadata"),
        }
        s
    }
}

/// The Python request for a project: (1) the user's explicit request, else
/// (2) the first request of the version file found, else (3) the
/// `requires-python` range, as a version request.
pub fn resolve_python_request(
    user: Option<PythonRequest>,
    version_file: Option<PythonVersionFile>,
    requires_python: Option<String>,
) -> (r: (PythonRequestSource, Option<PythonRequest>))
    ensures
        user matches Some(u) ==> r.0 is UserRequest && r.1 == Some(u),
        user is None ==> (version_file matches Some(f) ==> (r.0 is DotPythonVersion
            && r.0->DotPythonVersion_0@ == f.path_view() && (r.1 is None <==> f.versions_view().len()
            == 0) && (r.1 matches Some(q) ==> q@ == f.versions_view()[0]))),
        user is None && version_file is None ==> r.0 is RequiresPython && (r.1 is None
            <==> requires_python is None) && (requires_python matches Some(s) ==> r.1 == Some(
            PythonRequest::Version(s),
        )),
{
    match user {
        Some(u) => (PythonRequestSource::UserRequest, Some(u)),
        None => match version_file {
            Some(f) => {
                let path = f.path().to_owned();
                let first = f.into_version();
                (PythonRequestSource::DotPythonVersion(path), first)
            },
            None => match requires_python {
                Some(s) => (PythonRequestSource::RequiresPython, Some(PythonRequest::Version(s))),
                None => (PythonRequestSource::RequiresPython, None),
            },
        },
    }
}

/// Why an interpreter does not meet `requires-python`, by where the request
/// for it came from.
#[derive(Debug, Clone)]
pub enum RequiresPythonIncompatibility {
    /// The user asked for the interpreter.
    RequestedPython,
    /// The version file at this path asked for it.
    DotPythonVersion(String),
    /// It was chosen from `requires-python` itself.
    RequiresPython,
}

/// An interpreter is accepted where its version meets `requires-python`
/// (`satisfied`); otherwise the error names the source of the request.
pub fn validate_requires_python(satisfied: bool, source: &PythonRequestSource) -> (r: Result<
    (),
    RequiresPythonIncompatibility,
>)
    ensures
        r is Ok <==> satisfied,
        !satisfied && source is UserRequest ==> r matches Err(
            RequiresPythonIncompatibility::RequestedPython,
        ),
        !satisfied && source is RequiresPython ==> r matches Err(
            RequiresPythonIncompatibility::RequiresPython,
        ),
        !satisfied ==> (source matches PythonRequestSource::DotPythonVersion(p) ==> (r matches Err(
            RequiresPythonIncompatibility::DotPythonVersion(q),
        ) && q@ == p@)),
{
    if satisfied {
        return Ok(());
    }
    match source {
        PythonRequestSource::UserRequest => Err(RequiresPythonIncompatibility::RequestedPython),
        PythonRequestSource::DotPythonVersion(p) => Err(
            RequiresPythonIncompatibility::DotPythonVersion(p.clone()),
        ),
        PythonRequestSource::RequiresPython => Err(RequiresPythonIncompatibility::RequiresPython),
    }
}

// ---------------------------------------------------------------------------
// Whether an environment can be used.

/// Why an existing environment cannot be used.
#[derive(Debug, Clone, Copy, PartialEq, Eq, Structural)]
pub enum EnvironmentIncompatibility {
    /// The version in `pyvenv.cfg` differs from the interpreter's.
    PyvenvVersionConflict,
    /// The interpreter does not satisfy the Python request.
    PythonRequest,
    /// The interpreter does not meet `requires-python`.
    RequiresPython,
    /// The interpreter does not meet the Python preference.
    PythonPreference,
}

/// `pyvenv.cfg` disagrees with the interpreter: it records a version that is
/// not the interpreter's full version.
pub open spec fn version_drift(pyvenv_version: Option<Seq<char>>, interpreter_version: Seq<char>) -> bool {
    pyvenv_version matches Some(v) && v != interpreter_version
}

/// Whether the version that `pyvenv.cfg` records, where it records one,
/// differs from the interpreter's full version.
pub fn pyvenv_version_conflict(pyvenv_version: Option<&str>, interpreter_version: &str) -> (r: bool)
    ensures
        r == version_drift(
            match pyvenv_version {
                Some(v) => Some(v@),
                None => None,
            },
            interpreter_version@,
        ),
{
    match pyvenv_version {
        Some(v) => {
            let a = v.to_owned();
            let b = interpreter_version.to_owned();
            !a.eq(&b)
        },
        None => false,
    }
}

/// The checks on an existing environment, in order: the version that
/// `pyvenv.cfg` records, where it records one, is the interpreter's full
/// version; the request, where there is one, is satisfied;
/// `requires-python`, where there is one, is met; the preference is met.
/// `None` stands for a check with nothing to check.
pub fn environment_usability(
    pyvenv_version: Option<&str>,
    interpreter_version: &str,
    request_satisfied: Option<bool>,
    requires_python_met: Option<bool>,
    preference_met: bool,
) -> (r: Result<(), EnvironmentIncompatibility>)
    ensures
        ({
            let drift = version_drift(
                match pyvenv_version {
                    Some(v) => Some(v@),
                    None => None,
                },
                interpreter_version@,
            );
            &&& r is Ok <==> !drift && request_satisfied != Some(false) && requires_python_met
                != Some(false) && preference_met
            &&& drift ==> r == Err::<(), _>(EnvironmentIncompatibility::PyvenvVersionConflict)
            &&& !drift && request_satisfied == Some(false) ==> r == Err::<(), _>(
                EnvironmentIncompatibility::PythonRequest,
            )
            &&& !drift && request_satisfied != Some(false) && requires_python_met == Some(false)
                ==> r == Err::<(), _>(EnvironmentIncompatibility::RequiresPython)
            &&& !drift && request_satisfied != Some(false) && requires_python_met != Some(false)
                && !preference_met ==> r == Err::<(), _>(
                EnvironmentIncompatibility::PythonPreference,
            )
        }),
{
    if pyvenv_version_conflict(pyvenv_version, interpreter_version) {
        return Err(EnvironmentIncompatibility::PyvenvVersionConflict);
    }
    if let Some(false) = request_satisfied {
        return Err(EnvironmentIncompatibility::PythonRequest);
    }
    if let Some(false) = requires_python_met {
        return Err(EnvironmentIncompatibility::RequiresPython);
    }
    if !preference_met {
        return Err(EnvironmentIncompatibility::PythonPreference);
    }
    Ok(())
}

/// How the environment is to be changed.
#[derive(Debug, Clone, Copy, PartialEq, Eq, Structural)]
pub enum Modifications {
    /// Packages may be added; extraneous ones stay.
    Sufficient,
    /// The environment must hold exactly the requirements.
    Exact,
}

/// What an environment update does.
#[derive(Debug, Clone, Copy, PartialEq, Eq, Structural)]
pub enum UpdateStep {
    /// Nothing: the environment already satisfies the requirements.
    Skip,
    /// Resolve and install.
    Sync,
    /// Checking the environment against the requirements failed.
    CheckFailed,
}

/// An environment update is skipped where nothing is to be reinstalled or
/// upgraded, there are no source trees, installing may leave extra packages,
/// and the environment satisfies the requirements already; the requirements
/// are checked against it only where the other conditions hold.
pub fn update_step(
    reinstall_none: bool,
    upgrade_none: bool,
    no_source_trees: bool,
    modifications: Modifications,
    satisfaction: crate::run::Satisfaction,
) -> (r: UpdateStep)
    ensures
        !(reinstall_none && upgrade_none && no_source_trees && modifications
            == Modifications::Sufficient) ==> r == UpdateStep::Sync,
        (reinstall_none && upgrade_none && no_source_trees && modifications
            == Modifications::Sufficient) ==> r == match satisfaction {
            crate::run::Satisfaction::Fresh => UpdateStep::Skip,
            crate::run::Satisfaction::Unsatisfied => UpdateStep::Sync,
            crate::run::Satisfaction::Failed => UpdateStep::CheckFailed,
        },
{
    let sufficient = match modifications {
        Modifications::Sufficient => true,
        Modifications::Exact => false,
    };
    if !(reinstall_none && upgrade_none && no_source_trees && sufficient) {
        return UpdateStep::Sync;
    }
    match satisfaction {
        crate::run::Satisfaction::Fresh => UpdateStep::Skip,
        crate::run::Satisfaction::Unsatisfied => UpdateStep::Sync,
        crate::run::Satisfaction::Failed => UpdateStep::CheckFailed,
    }
}

// ---------------------------------------------------------------------------
// Replacing an environment.

/// What stands at the place of a project environment that must be created.
/// `None` stands for a check that failed to say.
#[derive(Debug, Clone, Copy, PartialEq, Eq, Structural)]
pub struct EnvironmentDir {
    /// Whether the directory exists.
    pub exists: Option<bool>,
    /// Whether it holds a `pyvenv.cfg`.
    pub has_pyvenv_cfg: Option<bool>,
    /// Whether it is an empty directory.
    pub is_empty: bool,
}

/// Why a project environment cannot be (re)created at its place.
#[derive(Debug, Clone, Copy, PartialEq, Eq, Structural)]
pub enum InvalidEnvironmentDir {
    /// A directory stands there that is neither a virtual environment nor
    /// empty.
    NotVirtualEnvironment,
    /// Whether it is a virtual environment could not be determined.
    Undetermined,
}

/// Whether to remove what stands at the place of a new environment: a
/// virtual environment is removed; a missing or empty directory is used as
/// it is; anything else, or a place that could not be inspected, is an
/// error.
pub fn replace_existing(dir: EnvironmentDir) -> (r: Result<bool, InvalidEnvironmentDir>)
    ensures
        r == Ok::<bool, InvalidEnvironmentDir>(true) <==> dir.has_pyvenv_cfg == Some(true),
        r == Ok::<bool, InvalidEnvironmentDir>(false) <==> dir.has_pyvenv_cfg == Some(false) && (
        dir.exists == Some(false) || (dir.exists == Some(true) && dir.is_empty)),
        r == Err::<bool, InvalidEnvironmentDir>(InvalidEnvironmentDir::NotVirtualEnvironment)
            <==> dir.has_pyvenv_cfg == Some(false) && dir.exists == Some(true) && !dir.is_empty,
{
    match (dir.exists, dir.has_pyvenv_cfg) {
        (_, Some(true)) => Ok(true),
        (Some(false), Some(false)) => Ok(false),
        (Some(true), Some(false)) => {
            if dir.is_empty {
                Ok(false)
            } else {
                Err(InvalidEnvironmentDir::NotVirtualEnvironment)
            }
        },
        _ => Err(InvalidEnvironmentDir::Undetermined),
    }
}

/// How a project environment was obtained.
#[derive(Debug, Clone, Copy, PartialEq, Eq, Structural)]
pub enum EnvironmentOutcome {
    /// A compatible environment was found.
    Existing,
    /// An incompatible environment was replaced.
    Replaced,
    /// A new environment was created.
    Created,
    /// Under dry run, an incompatible environment would have been replaced.
    WouldReplace,
    /// Under dry run, a new environment would have been created.
    WouldCreate,
}

/// The outcome of creating an environment, after `replace_existing`.
pub fn creation_outcome(replace: bool, dry_run: bool) -> (r: EnvironmentOutcome)
    ensures
        r == if dry_run {
            if replace {
                EnvironmentOutcome::WouldReplace
            } else {
                EnvironmentOutcome::WouldCreate
            }
        } else if replace {
            EnvironmentOutcome::Replaced
        } else {
            EnvironmentOutcome::Created
        },
{
    if dry_run {
        if replace {
            EnvironmentOutcome::WouldReplace
        } else {
            EnvironmentOutcome::WouldCreate
        }
    } else if replace {
        EnvironmentOutcome::Replaced
    } else {
        EnvironmentOutcome::Created
    }
}

/// An environment of a dry run lives in a temporary directory and cannot be
/// handed on.
pub fn can_hand_on(outcome: EnvironmentOutcome) -> (r: bool)
    ensures
        r <==> !(outcome == EnvironmentOutcome::WouldReplace || outcome
            == EnvironmentOutcome::WouldCreate),
{
    match outcome {
        EnvironmentOutcome::WouldReplace => false,
        EnvironmentOutcome::WouldCreate => false,
        _ => true,
    }
}

// ---------------------------------------------------------------------------
// Messages on `requires-python`.

/// A `requires-python` declaration that rejects an interpreter.
#[derive(Debug, Clone)]
pub struct RequiresPythonSource {
    pub package: String,
    pub group: Option<String>,
    pub specifiers: String,
}

pub open spec fn source_line(s: RequiresPythonSource) -> Seq<char> {
    match s.group {
        Some(g) => "- "@ + s.package@ + ":"@ + g@ + ": "@ + s.specifiers@,
        None => "- "@ + s.package@ + ": "@ + s.specifiers@,
    }
}

pub open spec fn source_lines(v: Seq<RequiresPythonSource>) -> Seq<char>
    decreases v.len(),
{
    if v.len() == 0 {
        seq![]
    } else if v.len() == 1 {
        source_line(v[0])
    } else {
        source_lines(v.drop_last()) + "\n"@ + source_line(v.last())
    }
}

/// The tail of a message on an interpreter that `requires-python` rejects:
/// a list of the declarations where several reject it, the one that does
/// where there is one, and nothing otherwise.
pub open spec fn requires_python_sources_note(
    v: Seq<RequiresPythonSource>,
    workspace_non_trivial: bool,
) -> Seq<char> {
    if v.len() > 1 {
        ".\nThe following `requires-python` declarations do not permit this version:\n"@
            + source_lines(v)
    } else if v.len() == 1 {
        match v[0].group {
            Some(g) => if workspace_non_trivial {
                " (from workspace member `"@ + v[0].package@
                    + "`'s `tool.uv.dependency-groups."@ + g@ + ".requires-python`)."@
            } else {
                " (from `tool.uv.dependency-groups."@ + g@ + ".requires-python`)."@
            },
            None => if workspace_non_trivial {
                " (from workspace member `"@ + v[0].package@ + "`'s `project.requires-python`)."@
            } else {
                " (from `project.requires-python`)"@
            },
        }
    } else {
        seq![]
    }
}

fn push_source_line(out: &mut String, s: &RequiresPythonSource)
    ensures
        final(out)@ == old(out)@ + source_line(*s),
{
    let ghost start = out@;
    push_str(out, "- ");
    push_str(out, s.package.as_str());
    match &s.group {
        Some(g) => {
            push_str(out, ":");
            push_str(out, g.as_str());
            push_str(out, ": ");
            push_str(out, s.specifiers.as_str());
            assert(out@ =~= start + source_line(*s));
        },
        None => {
            push_str(out, ": ");
            push_str(out, s.specifiers.as_str());
            assert(out@ =~= start + source_line(*s));
        },
    }
}

pub fn format_optional_requires_python_sources(
    conflicts: &Vec<RequiresPythonSource>,
    workspace_non_trivial: bool,
) -> (r: String)
    ensures
        r@ == requires_python_sources_note(conflicts@, workspace_non_trivial),
{
    let mut out = String::new();
    if conflicts.len() > 1 {
        push_str(
            &mut out,
            ".\nThe following `requires-python` declarations do not permit this version:\n",
        );
        let ghost head = out@;
        let mut i: usize = 0;
        while i < conflicts.len()
            invariant
                i <= conflicts@.len(),
                out@ == head + source_lines(conflicts@.subrange(0, i as int)),
            decreases conflicts@.len() - i,
        {
            let ghost sub = conflicts@.subrange(0, i + 1);
            assert(sub.drop_last() =~= conflicts@.subrange(0, i as int));
            assert(sub.last() == conflicts@[i as int]);
            if i > 0 {
                push_str(&mut out, "\n");
            } else {
                assert(conflicts@.subrange(0, 0) =~= Seq::<RequiresPythonSource>::empty());
                assert(sub =~= seq![conflicts@[0]]);
            }
            push_source_line(&mut out, &conflicts[i]);
            i += 1;
            assert(out@ =~= head + source_lines(conflicts@.subrange(0, i as int)));
        }
        assert(conflicts@.subrange(0, conflicts@.len() as int) =~= conflicts@);
        return out;
    }
    if conflicts.len() == 1 {
        let c = &conflicts[0];
        match &c.group {
            Some(g) => {
                if workspace_non_trivial {
                    push_str(&mut out, " (from workspace member `");
                    push_str(&mut out, c.package.as_str());
                    push_str(&mut out, "`'s `tool.uv.dependency-groups.");
                    push_str(&mut out, g.as_str());
                    push_str(&mut out, ".requires-python`).");
                } else {
                    push_str(&mut out, " (from `tool.uv.dependency-groups.");
                    push_str(&mut out, g.as_str());
                    push_str(&mut out, ".requires-python`).");
                }
            },
            None => {
                if workspace_non_trivial {
                    push_str(&mut out, " (from workspace member `");
                    push_str(&mut out, c.package.as_str());
                    push_str(&mut out, "`'s `project.requires-python`).");
                } else {
                    push_str(&mut out, " (from `project.requires-python`)");
                }
            },
        }
        assert(out@ =~= requires_python_sources_note(conflicts@, workspace_non_trivial));
    }
    out
}


// ---------------------------------------------------------------------------
// Conflicting extras and groups.

/// What a member of a conflict set names.
#[derive(Debug, Clone)]
pub enum ConflictKind {
    Extra(String),
    Group(String),
}

/// A member of a set of extras and groups declared as conflicting.
#[derive(Debug, Clone)]
pub struct ConflictItem {
    pub package: String,
    pub kind: ConflictKind,
}

pub open spec fn contains_name(names: Seq<String>, n: Seq<char>) -> bool {
    exists|i: int| 0 <= i < names.len() && #[trigger] names[i]@ == n
}

/// Whether the selection enables the member.
pub open spec fn enabled(item: ConflictItem, extras: Seq<String>, groups: Seq<String>) -> bool {
    match item.kind {
        ConflictKind::Extra(e) => contains_name(extras, e@),
        ConflictKind::Group(g) => contains_name(groups, g@),
    }
}

/// The members of a set that the selection enables, in order.
pub open spec fn enabled_members(set: Seq<ConflictItem>, extras: Seq<String>, groups: Seq<String>) -> Seq<
    ConflictItem,
> {
    set.filter(|item: ConflictItem| enabled(item, extras, groups))
}

fn contains_string(names: &Vec<String>, n: &String) -> (r: bool)
    ensures
        r == contains_name(names@, n@),
{
    let mut i: usize = 0;
    while i < names.len()
        invariant
            i <= names@.len(),
            forall|j: int| 0 <= j < i ==> #[trigger] names@[j]@ != n@,
        decreases names@.len() - i,
    {
        if names[i].eq(n) {
            return true;
        }
        i += 1;
    }
    false
}

fn copy_item(item: &ConflictItem) -> (r: ConflictItem)
    ensures
        r == *item,
{
    ConflictItem {
        package: item.package.clone(),
        kind: match &item.kind {
            ConflictKind::Extra(e) => ConflictKind::Extra(e.clone()),
            ConflictKind::Group(g) => ConflictKind::Group(g.clone()),
        },
    }
}

/// Every member of one conflict set is enabled.
#[derive(Debug, Clone)]
pub struct ConflictError {
    /// The index of the set.
    pub set: usize,
    /// Its members, all of them enabled.
    pub conflicts: Vec<ConflictItem>,
}

/// Refuses a selection of extras and groups that enables every member of a
/// declared conflict set; the error names the first such set.
pub fn detect_conflicts(
    sets: &Vec<Vec<ConflictItem>>,
    extras: &Vec<String>,
    groups: &Vec<String>,
) -> (r: Result<(), ConflictError>)
    ensures
        r is Ok <==> forall|i: int|
            0 <= i < sets@.len() ==> enabled_members(#[trigger] sets@[i]@, extras@, groups@).len()
                < sets@[i]@.len(),
        r matches Err(e) ==> e.set < sets@.len() && e.conflicts@ == enabled_members(
            sets@[e.set as int]@,
            extras@,
            groups@,
        ) && e.conflicts@ == sets@[e.set as int]@ && forall|i: int|
            0 <= i < e.set ==> enabled_members(#[trigger] sets@[i]@, extras@, groups@).len()
                < sets@[i]@.len(),
{
    let mut i: usize = 0;
    while i < sets.len()
        invariant
            i <= sets@.len(),
            forall|j: int|
                0 <= j < i ==> enabled_members(#[trigger] sets@[j]@, extras@, groups@).len()
                    < sets@[j]@.len(),
        decreases sets@.len() - i,
    {
        let set = &sets[i];
        let mut found: Vec<ConflictItem> = Vec::new();
        let mut k: usize = 0;
        while k < set.len()
            invariant
                k <= set@.len(),
                found@ == set@.subrange(0, k as int).filter(
                    |item: ConflictItem| enabled(item, extras@, groups@),
                ),
            decreases set@.len() - k,
        {
            let item = &set[k];
            let on = match &item.kind {
                ConflictKind::Extra(e) => contains_string(extras, e),
                ConflictKind::Group(g) => contains_string(groups, g),
            };
            let ghost sub = set@.subrange(0, k + 1);
            assert(sub.drop_last() =~= set@.subrange(0, k as int));
            assert(sub.last() == set@[k as int]);
            if on {
                found.push(copy_item(item));
            }
            k += 1;
            proof {
                reveal_with_fuel(Seq::filter, 1);
            }
        }
        assert(set@.subrange(0, set@.len() as int) =~= set@);
        proof {
            lemma_filter_all(set@, extras@, groups@);
        }
        if found.len() >= set.len() {
            return Err(ConflictError { set: i, conflicts: found });
        }
        i += 1;
    }
    Ok(())
}

/// The enabled members of a set are at most all of it, and are all of it
/// exactly when every member is enabled.
proof fn lemma_filter_all(set: Seq<ConflictItem>, extras: Seq<String>, groups: Seq<String>)
    ensures
        enabled_members(set, extras, groups).len() <= set.len(),
        enabled_members(set, extras, groups).len() == set.len() ==> enabled_members(
            set,
            extras,
            groups,
        ) == set,
    decreases set.len(),
{
    reveal_with_fuel(Seq::filter, 1);
    if set.len() > 0 {
        lemma_filter_all(set.drop_last(), extras, groups);
        let f = enabled_members(set, extras, groups);
        let g = enabled_members(set.drop_last(), extras, groups);
        if f.len() == set.len() {
            assert(enabled(set.last(), extras, groups));
            assert(g.len() == set.drop_last().len());
            assert(set.drop_last().push(set.last()) =~= set);
        }
    }
}

// ---------------------------------------------------------------------------
// Script environments.

/// The cache entry of a script's environment: the cache name of the
/// script's file stem, where it has one, then a dash and the digest of its
/// path; the digest alone otherwise.
pub open spec fn script_entry_spec(file_stem: Option<Seq<char>>, digest: Seq<char>) -> Seq<char> {
    match file_stem {
        Some(stem) => match cache_name_spec(stem) {
            Some(n) => n + seq!['-'] + digest,
            None => digest,
        },
        None => digest,
    }
}

pub fn script_entry(file_stem: Option<&str>, digest: &str) -> (r: String)
    ensures
        r@ == script_entry_spec(
            match file_stem {
                Some(s) => Some(s@),
                None => None,
            },
            digest@,
        ),
{
    if let Some(stem) = file_stem {
        if let Some(name) = cache_name(stem) {
            let mut s = name;
            push_char(&mut s, '-');
            push_str(&mut s, digest);
            return s;
        }
    }
    digest.to_owned()
}

/// The active environment that `VIRTUAL_ENV` names: none where it is unset
/// or empty, the path itself where it is absolute, else the path under the
/// working directory.
pub fn virtual_env_path(value: Option<&str>, cwd: &str) -> (r: Option<String>)
    ensures
        r is None <==> (value is None || value->0@.len() == 0),
        r matches Some(p) ==> p@ == if value->0@[0] == '/' {
            value->0@
        } else {
            join_name(cwd@, value->0@)
        },
{
    match value {
        None => None,
        Some(v) => {
            if v.unicode_len() == 0 {
                return None;
            }
            if v.get_char(0) == '/' {
                Some(v.to_owned())
            } else {
                Some(join(cwd, v))
            }
        },
    }
}

/// Where a script's environment is, and whether to warn that an active
/// environment is ignored.
#[derive(Debug, Clone)]
pub struct ScriptRoot {
    pub path: String,
    pub warn_ignored_active: bool,
}

/// The environment of a script: the active environment where `--active` asks
/// for it and it is not the script's own cached environment (`same_file`);
/// the cached environment otherwise, with a warning where an active one was
/// set and `--active` was not given either way.
pub fn script_root(
    active: Option<bool>,
    virtual_env: Option<String>,
    same_file: bool,
    cache_env: String,
) -> (r: ScriptRoot)
    ensures
        (virtual_env matches Some(v) && !same_file && active == Some(true)) ==> r.path@
            == virtual_env->0@ && !r.warn_ignored_active,
        !(virtual_env is Some && !same_file && active == Some(true)) ==> r.path@ == cache_env@,
        r.warn_ignored_active <==> (virtual_env is Some && !same_file && active is None),
{
    match virtual_env {
        Some(v) => {
            if !same_file {
                match active {
                    Some(true) => return ScriptRoot { path: v, warn_ignored_active: false },
                    Some(false) => {},
                    None => return ScriptRoot { path: cache_env, warn_ignored_active: true },
                }
            }
        },
        None => {},
    }
    ScriptRoot { path: cache_env, warn_ignored_active: false }
}


// ---------------------------------------------------------------------------
// An existing project environment.

/// What probing the project environment's directory found.
#[derive(Debug, Clone, Copy, PartialEq, Eq, Structural)]
pub enum EnvironmentProbe {
    /// An environment whose interpreter answered; `usable` is what
    /// [`environment_usability`] found of it.
    Found { usable: bool },
    /// Nothing is there.
    Missing,
    /// A file stands there, not a directory.
    NotDirectory,
    /// A directory without an interpreter.
    MissingExecutable { non_empty: bool, has_pyvenv_cfg: bool },
    /// An empty directory.
    Empty,
    /// The interpreter could not be found.
    InterpreterNotFound,
    /// The interpreter is a link to nothing.
    BrokenSymlink,
}

/// What to do with the project environment's directory.
#[derive(Debug, Clone, Copy, PartialEq, Eq, Structural)]
pub enum ExistingStep {
    /// Use the environment found there.
    Use,
    /// Use it although it is incompatible, with a warning, as `--no-sync`
    /// asks.
    UseIncompatible,
    /// Find an interpreter and create an environment.
    Create,
    /// Refuse: a directory that is no Python environment is in the way.
    Refuse,
}

/// A compatible environment is used, and an incompatible one too under
/// `--no-sync`; a non-empty directory with neither an interpreter nor a
/// `pyvenv.cfg` is refused; in every other case an environment is created.
pub fn existing_environment_step(probe: EnvironmentProbe, keep_incompatible: bool) -> (r:
    ExistingStep)
    ensures
        r == ExistingStep::Use <==> probe == (EnvironmentProbe::Found { usable: true }),
        r == ExistingStep::UseIncompatible <==> probe == (EnvironmentProbe::Found {
            usable: false,
        }) && keep_incompatible,
        r == ExistingStep::Refuse <==> probe == (EnvironmentProbe::MissingExecutable {
            non_empty: true,
            has_pyvenv_cfg: false,
        }),
{
    match probe {
        EnvironmentProbe::Found { usable } => {
            if usable {
                ExistingStep::Use
            } else if keep_incompatible {
                ExistingStep::UseIncompatible
            } else {
                ExistingStep::Create
            }
        },
        EnvironmentProbe::MissingExecutable { non_empty, has_pyvenv_cfg } => {
            if non_empty && !has_pyvenv_cfg {
                ExistingStep::Refuse
            } else {
                ExistingStep::Create
            }
        },
        _ => ExistingStep::Create,
    }
}

} // verus!
