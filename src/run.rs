//! Decisions of `run`: what kind of command a target names, the recursion
//! guard, whether an overlay environment is needed, what the overlay holds,
//! and how entrypoints are rewritten for it.
use vstd::prelude::*;

use crate::database::{all_digits, digits_value, parse_unsigned, push_decimal, decimal_digits, unsigned_digits};
use crate::path::{parts_of, python_escaped, Part, PythonExt};
use crate::request::lowered;
use crate::text::{chars_of, push_char, push_str, string_of};

verus! {

// ---------------------------------------------------------------------------
// Recursion guard.

/// Why `run` refuses to start.
#[derive(Debug, Clone)]
pub enum RecursionError {
    /// The recursion counter does not read as a number.
    InvalidDepth(String),
    /// `run` has invoked itself more often than the limit allows.
    TooDeep { depth: u32, max: u32, message: String },
}

/// The guidance given when `run` recursed too deeply.
pub open spec fn too_deep_message(depth: nat, max: nat) -> Seq<char> {
    "`uv run` was recursively invoked "@ + decimal_digits(depth) + " times which exceeds the limit of "@
        + decimal_digits(max)
        + ".\n\nhint: If you are running a script with `uv run` in the shebang, you may need to include the `--script` flag."@
}

/// Reads the recursion counter that the environment variable holds (`None`
/// where it is unset, which counts as zero) and checks it against the limit.
pub fn check_recursion_depth(value: Option<&str>, max: u32) -> (r: Result<u32, RecursionError>)
    ensures
        value is None ==> r == Ok::<u32, RecursionError>(0),
        value matches Some(v) ==> (r is Err && r->Err_0 is InvalidDepth <==> !(all_digits(
            unsigned_digits(v@),
        ) && digits_value(unsigned_digits(v@)) <= u32::MAX)),
        value matches Some(v) ==> (r is Ok <==> all_digits(unsigned_digits(v@)) && digits_value(
            unsigned_digits(v@),
        ) <= max),
        r matches Ok(d) ==> d <= max && (value matches Some(v) ==> d as nat == digits_value(
            unsigned_digits(v@),
        )),
        r matches Err(RecursionError::TooDeep { depth, max: m, message }) ==> (m == max && depth
            > max && message@ == too_deep_message(depth as nat, max as nat) && (value matches Some(v)
            ==> depth as nat == digits_value(unsigned_digits(v@)))),
{
    let depth: u32 = match value {
        None => 0,
        Some(v) => match parse_unsigned(v, 4294967295) {
            Some(n) => n as u32,
            None => {
                let mut message = String::new();
                push_str(&mut message, "invalid value for UV_RUN_RECURSION_DEPTH: ");
                push_str(&mut message, v);
                return Err(RecursionError::InvalidDepth(message));
            },
        },
    };
    if depth > max {
        let mut message = String::new();
        push_str(&mut message, "`uv run` was recursively invoked ");
        push_decimal(&mut message, depth as u64);
        push_str(&mut message, " times which exceeds the limit of ");
        push_decimal(&mut message, max as u64);
        push_str(
            &mut message,
            ".\n\nhint: If you are running a script with `uv run` in the shebang, you may need to include the `--script` flag.",
        );
        return Err(RecursionError::TooDeep { depth, max, message });
    }
    Ok(depth)
}

/// The recursion counter handed to the child process.
pub fn next_recursion_depth(depth: u32) -> (r: String)
    ensures
        r@ == decimal_digits(depth as nat + 1),
{
    let mut s = String::new();
    push_decimal(&mut s, depth as u64 + 1);
    s
}

// ---------------------------------------------------------------------------
// The overlay environment.

/// What checking the requirements against the base environment found.
#[derive(Debug, Clone, Copy, PartialEq, Eq, Structural)]
pub enum Satisfaction {
    /// Every requirement is installed there already.
    Fresh,
    /// Some requirement is not.
    Unsatisfied,
    /// The check failed.
    Failed,
}

/// The base environment serves as it is, with no overlay, where nothing is to
/// be reinstalled and it satisfies the requirements already.
pub fn can_skip_ephemeral(reinstall_none: bool, satisfaction: Satisfaction) -> (r: bool)
    ensures
        r <==> reinstall_none && satisfaction == Satisfaction::Fresh,
{
    if !reinstall_none {
        return false;
    }
    match satisfaction {
        Satisfaction::Fresh => true,
        _ => false,
    }
}

/// Whether an environment for the `--with` requirements is built: only where
/// there are requirements and the base environment does not already serve.
pub fn needs_requirements_env(has_requirements: bool, reinstall_none: bool, satisfaction: Satisfaction) -> (r:
    bool)
    ensures
        r <==> has_requirements && !(reinstall_none && satisfaction == Satisfaction::Fresh),
{
    has_requirements && !can_skip_ephemeral(reinstall_none, satisfaction)
}

/// The line of the overlay's `.pth` file: the site directories of the
/// requirements environment, then of the base environment.
pub open spec fn overlay_stub_spec(requirements_site: Seq<char>, base_site: Seq<char>) -> Seq<
    char,
> {
    "import site; site.addsitedir(\""@ + python_escaped(requirements_site)
        + "\"); site.addsitedir(\""@ + python_escaped(base_site) + "\");"@
}

pub fn overlay_stub(requirements_site: &str, base_site: &str) -> (r: String)
    ensures
        r@ == overlay_stub_spec(requirements_site@, base_site@),
{
    let mut s = String::new();
    push_str(&mut s, "import site; site.addsitedir(\"");
    let a = requirements_site.escape_for_python();
    push_str(&mut s, a.as_str());
    push_str(&mut s, "\"); site.addsitedir(\"");
    let b = base_site.escape_for_python();
    push_str(&mut s, b.as_str());
    push_str(&mut s, "\");");
    s
}

/// Whether the overlay includes the system site packages: where the base is
/// a virtual environment whose `pyvenv.cfg` reads and enables them.
pub fn overlay_includes_system_site_packages(base_is_virtualenv: bool, base_cfg_flag: Option<bool>) -> (r:
    bool)
    ensures
        r <==> base_is_virtualenv && base_cfg_flag == Some(true),
{
    base_is_virtualenv && match base_cfg_flag {
        Some(true) => true,
        _ => false,
    }
}

/// Drops each entry equal to the one before it.
pub open spec fn dedup_adjacent(v: Seq<Seq<char>>) -> Seq<Seq<char>>
    decreases v.len(),
{
    if v.len() == 0 {
        seq![]
    } else if v.len() > 1 && v.last() == v[v.len() - 2] {
        dedup_adjacent(v.drop_last())
    } else {
        dedup_adjacent(v.drop_last()).push(v.last())
    }
}

pub open spec fn option_seq(o: Option<Seq<char>>) -> Seq<Seq<char>> {
    match o {
        Some(x) => seq![x],
        None => seq![],
    }
}

/// The `PATH` of the command: the scripts directories of the overlay, of the
/// requirements environment and of the base, with repeats next to each other
/// dropped, then the entries of the existing `PATH`.
pub fn search_path(
    overlay_scripts: Option<String>,
    requirements_scripts: Option<String>,
    base_scripts: String,
    existing: Vec<String>,
) -> (r: Vec<String>)
    ensures
        r@.map_values(|s: String| s@) == dedup_adjacent(
            option_seq(
                match overlay_scripts {
                    Some(s) => Some(s@),
                    None => None,
                },
            ) + option_seq(
                match requirements_scripts {
                    Some(s) => Some(s@),
                    None => None,
                },
            ) + seq![base_scripts@],
        ) + existing@.map_values(|s: String| s@),
{
    let mut dirs: Vec<String> = Vec::new();
    match overlay_scripts {
        Some(s) => dirs.push(s),
        None => {},
    }
    match requirements_scripts {
        Some(s) => dirs.push(s),
        None => {},
    }
    dirs.push(base_scripts);
    let ghost dv = dirs@.map_values(|s: String| s@);
    assert(dv =~= option_seq(
        match overlay_scripts {
            Some(s) => Some(s@),
            None => None,
        },
    ) + option_seq(
        match requirements_scripts {
            Some(s) => Some(s@),
            None => None,
        },
    ) + seq![base_scripts@]);
    let mut out: Vec<String> = Vec::new();
    let mut i: usize = 0;
    while i < dirs.len()
        invariant
            i <= dirs@.len(),
            dv == dirs@.map_values(|s: String| s@),
            out@.map_values(|s: String| s@) == dedup_adjacent(dv.subrange(0, i as int)),
            i > 0 ==> out@.len() > 0 && out@.last()@ == dv[i - 1],
        decreases dirs@.len() - i,
    {
        let ghost sub = dv.subrange(0, i + 1);
        assert(sub.drop_last() =~= dv.subrange(0, i as int));
        assert(sub.last() == dirs@[i as int]@);
        let ghost before = out@.map_values(|s: String| s@);
        if i > 0 && dirs[i].eq(&dirs[i - 1]) {
            assert(sub[sub.len() - 2] == dv[i - 1]);
        } else {
            let d = dirs[i].clone();
            out.push(d);
            assert(out@.map_values(|s: String| s@) =~= before.push(dv[i as int]));
            if i > 0 {
                assert(sub[sub.len() - 2] == dv[i - 1]);
            }
        }
        i += 1;
    }
    assert(dv.subrange(0, dirs@.len() as int) =~= dv);
    let ghost head = out@.map_values(|s: String| s@);
    let mut j: usize = 0;
    while j < existing.len()
        invariant
            j <= existing@.len(),
            out@.map_values(|s: String| s@) == head + existing@.map_values(|s: String| s@).subrange(
                0,
                j as int,
            ),
        decreases existing@.len() - j,
    {
        let ghost before = out@.map_values(|s: String| s@);
        let e = existing[j].clone();
        out.push(e);
        j += 1;
        assert(out@.map_values(|s: String| s@) =~= before.push(existing@[j - 1]@));
        assert(before.push(existing@[j - 1]@) =~= head + existing@.map_values(|s: String| s@).subrange(
            0,
            j as int,
        ));
    }
    assert(existing@.map_values(|s: String| s@).subrange(0, existing@.len() as int)
        =~= existing@.map_values(|s: String| s@));
    out
}

// ---------------------------------------------------------------------------
// Entrypoints.

/// The shebang of an entrypoint that finds its interpreter next to itself.
pub const RELOCATABLE_SHEBANG: &'static str = "#!/bin/sh\n'''exec' \"$(dirname -- \"$(realpath -- \"$0\")\")\"/'python' \"$0\" \"$@\"\n' '''\n";

pub open spec fn strip_prefix_seq(s: Seq<char>, p: Seq<char>) -> Option<Seq<char>> {
    if p.len() <= s.len() && s.subrange(0, p.len() as int) == p {
        Some(s.subrange(p.len() as int, s.len() as int))
    } else {
        None
    }
}

pub open spec fn shebang_of(exe: Seq<char>) -> Seq<char> {
    "#!"@ + exe + "\n"@
}

/// The body of an entrypoint after its Python shebang: the relocatable one,
/// one naming the previous interpreter, or, where that interpreter ends in
/// `3`, one naming it without the `3`.
pub open spec fn entrypoint_body(contents: Seq<char>, previous: Seq<char>) -> Option<Seq<char>> {
    if strip_prefix_seq(contents, RELOCATABLE_SHEBANG@) is Some {
        strip_prefix_seq(contents, RELOCATABLE_SHEBANG@)
    } else if strip_prefix_seq(contents, shebang_of(previous)) is Some {
        strip_prefix_seq(contents, shebang_of(previous))
    } else if previous.len() > 0 && previous.last() == '3' {
        strip_prefix_seq(contents, shebang_of(previous.drop_last()))
    } else {
        None
    }
}

fn strip_prefix_exec(s: &Vec<char>, p: &Vec<char>) -> (r: Option<Vec<char>>)
    ensures
        r is Some <==> strip_prefix_seq(s@, p@) is Some,
        r matches Some(t) ==> t@ == strip_prefix_seq(s@, p@)->0,
{
    if p.len() > s.len() {
        return None;
    }
    let mut i: usize = 0;
    while i < p.len()
        invariant
            p@.len() <= s@.len(),
            i <= p@.len(),
            forall|j: int| 0 <= j < i ==> s@[j] == p@[j],
        decreases p@.len() - i,
    {
        if s[i] != p[i] {
            assert(s@.subrange(0, p@.len() as int)[i as int] != p@[i as int]);
            return None;
        }
        i += 1;
    }
    assert(s@.subrange(0, p@.len() as int) =~= p@);
    let mut out: Vec<char> = Vec::new();
    let mut k: usize = p.len();
    while k < s.len()
        invariant
            p@.len() <= k <= s@.len(),
            out@ == s@.subrange(p@.len() as int, k as int),
        decreases s@.len() - k,
    {
        out.push(s[k]);
        k += 1;
        assert(out@ =~= s@.subrange(p@.len() as int, k as int));
    }
    Some(out)
}

fn shebang_chars(exe: &Vec<char>) -> (r: Vec<char>)
    ensures
        r@ == shebang_of(exe@),
{
    let mut v: Vec<char> = Vec::new();
    v.push('#');
    v.push('!');
    let mut i: usize = 0;
    while i < exe.len()
        invariant
            i <= exe@.len(),
            v@ == seq!['#', '!'] + exe@.subrange(0, i as int),
        decreases exe@.len() - i,
    {
        v.push(exe[i]);
        i += 1;
        assert(v@ =~= seq!['#', '!'] + exe@.subrange(0, i as int));
    }
    v.push('\n');
    proof {
        reveal_strlit("#!");
        reveal_strlit("\n");
    }
    assert(v@ =~= shebang_of(exe@));
    v
}

/// The entrypoint rewritten to run under `python_executable`, where it starts
/// with a Python shebang for `previous_executable`; nothing where it does not.
pub fn rewrite_entrypoint(contents: &str, previous_executable: &str, python_executable: &str) -> (r:
    Option<String>)
    ensures
        r is Some <==> entrypoint_body(contents@, previous_executable@) is Some,
        r matches Some(t) ==> t@ == shebang_of(python_executable@) + entrypoint_body(
            contents@,
            previous_executable@,
        )->0,
{
    let c = chars_of(contents);
    let prev = chars_of(previous_executable);
    let relocatable = chars_of(RELOCATABLE_SHEBANG);
    let body = match strip_prefix_exec(&c, &relocatable) {
        Some(b) => b,
        None => match strip_prefix_exec(&c, &shebang_chars(&prev)) {
            Some(b) => b,
            None => {
                let n = prev.len();
                if n > 0 && prev[n - 1] == '3' {
                    let mut short = prev.clone();
                    short.pop();
                    assert(short@ =~= prev@.drop_last());
                    match strip_prefix_exec(&c, &shebang_chars(&short)) {
                        Some(b) => b,
                        None => return None,
                    }
                } else {
                    return None;
                }
            },
        },
    };
    let mut out = String::new();
    push_str(&mut out, "#!");
    push_str(&mut out, python_executable);
    push_char(&mut out, '\n');
    proof {
        reveal_strlit("#!");
        reveal_strlit("\n");
    }
    assert(out@ =~= shebang_of(python_executable@));
    let tail = string_of(&body);
    push_str(&mut out, tail.as_str());
    Some(out)
}

// ---------------------------------------------------------------------------
// What a target names.

/// The kind of command that `run` executes.
#[derive(Debug, Clone, Copy, PartialEq, Eq, Structural)]
pub enum RunKind {
    /// `python` with no arguments.
    Empty,
    /// `python` with the arguments.
    Python,
    /// A Python script.
    PythonScript,
    /// A module, as `python -m`.
    PythonModule,
    /// A GUI script, under `pythonw` where there is one.
    PythonGuiScript,
    /// A directory with a `__main__.py`.
    PythonPackage,
    /// A zip archive with a `__main__.py`.
    PythonZipapp,
    /// A script read from standard input.
    PythonStdin,
    /// A GUI script read from standard input.
    PythonGuiStdin,
    /// A script at a remote URL.
    PythonRemote,
    /// Any other command.
    External,
}

/// What the file system says of a target.
#[derive(Debug, Clone, Copy, PartialEq, Eq, Structural)]
pub struct TargetFacts {
    /// Whether something exists at the target path; `None` where that could
    /// not be determined.
    pub exists: Option<bool>,
    pub is_file: bool,
    pub is_dir: bool,
    /// Whether the target is a directory holding a `__main__.py` file.
    pub has_main_py: bool,
    /// Whether the target is a zip archive holding a `__main__.py` file.
    pub is_zipapp: bool,
}

/// Why a target cannot be run.
#[derive(Debug, Clone, Copy, PartialEq, Eq, Structural)]
pub enum RunTargetError {
    /// A module cannot be read from standard input.
    ModuleFromStdin,
}

/// The extension of the last component of a path: what follows its last
/// `.`, where that `.` does not start it.
pub open spec fn extension_of(path: Seq<char>) -> Option<Seq<char>> {
    let parts = parts_of(path);
    if parts.len() > 0 && parts.last() is Name {
        let name = parts.last()->Name_0;
        match last_dot(name) {
            Some(i) => if i == 0 {
                None
            } else {
                Some(name.subrange(i + 1, name.len() as int))
            },
            None => None,
        }
    } else {
        None
    }
}

pub open spec fn last_dot(s: Seq<char>) -> Option<int>
    decreases s.len(),
{
    if s.len() == 0 {
        None
    } else if s.last() == '.' {
        Some(s.len() - 1)
    } else {
        last_dot(s.drop_last())
    }
}

pub open spec fn is_remote(target: Seq<char>) -> bool {
    let parts = parts_of(target);
    parts.len() > 0 && (parts[0] == Part::Name("http:"@) || parts[0] == Part::Name("https:"@))
}

/// The kind of command a target names: the first rule that applies wins.
pub open spec fn run_kind(
    target: Option<Seq<char>>,
    module: bool,
    script: bool,
    gui_script: bool,
    facts: TargetFacts,
) -> Result<RunKind, RunTargetError> {
    match target {
        None => Ok(RunKind::Empty),
        Some(t) => {
            let ext = match extension_of(t) {
                Some(e) => Some(lowered(e)),
                None => None,
            };
            if t == "-"@ {
                if module {
                    Err(RunTargetError::ModuleFromStdin)
                } else if gui_script {
                    Ok(RunKind::PythonGuiStdin)
                } else {
                    Ok(RunKind::PythonStdin)
                }
            } else if is_remote(t) && facts.exists == Some(false) {
                Ok(RunKind::PythonRemote)
            } else if module {
                Ok(RunKind::PythonModule)
            } else if gui_script {
                Ok(RunKind::PythonGuiScript)
            } else if script {
                Ok(RunKind::PythonScript)
            } else if lowered(t) == "python"@ {
                Ok(RunKind::Python)
            } else if (ext == Some("py"@) || ext == Some("pyc"@)) && facts.is_file {
                Ok(RunKind::PythonScript)
            } else if ext == Some("pyw"@) && facts.is_file {
                Ok(RunKind::PythonGuiScript)
            } else if facts.is_dir && facts.has_main_py {
                Ok(RunKind::PythonPackage)
            } else if facts.is_file && facts.is_zipapp {
                Ok(RunKind::PythonZipapp)
            } else {
                Ok(RunKind::External)
            }
        },
    }
}

fn lower_ascii(s: &Vec<char>) -> (r: Vec<char>)
    ensures
        r@ == lowered(s@),
{
    let mut out: Vec<char> = Vec::new();
    let mut i: usize = 0;
    while i < s.len()
        invariant
            i <= s@.len(),
            out@ == lowered(s@).subrange(0, i as int),
        decreases s@.len() - i,
    {
        let c = s[i];
        let n = c as u32;
        let d = if 65 <= n && n <= 90 {
            ((n as u8) + 32) as char
        } else {
            c
        };
        out.push(d);
        i += 1;
        assert(out@ =~= lowered(s@).subrange(0, i as int));
    }
    assert(lowered(s@).subrange(0, s@.len() as int) =~= lowered(s@));
    out
}

fn same_chars(a: &Vec<char>, b: &Vec<char>) -> (r: bool)
    ensures
        r == (a@ == b@),
{
    if a.len() != b.len() {
        return false;
    }
    let mut i: usize = 0;
    while i < a.len()
        invariant
            a@.len() == b@.len(),
            i <= a@.len(),
            forall|j: int| 0 <= j < i ==> a@[j] == b@[j],
        decreases a@.len() - i,
    {
        if a[i] != b[i] {
            return false;
        }
        i += 1;
    }
    assert(a@ =~= b@);
    true
}

fn last_dot_exec(s: &Vec<char>) -> (r: Option<usize>)
    ensures
        r is Some <==> last_dot(s@) is Some,
        r matches Some(i) ==> (i as int == last_dot(s@)->0 && i < s@.len()),
{
    let mut k: usize = s.len();
    assert(s@.subrange(0, s@.len() as int) =~= s@);
    while k > 0
        invariant
            k <= s@.len(),
            last_dot(s@) == last_dot(s@.subrange(0, k as int)),
        decreases k,
    {
        let ghost sub = s@.subrange(0, k as int);
        assert(sub.drop_last() =~= s@.subrange(0, k - 1));
        if s[k - 1] == '.' {
            return Some(k - 1);
        }
        k -= 1;
    }
    None
}

fn extension(target: &str) -> (r: Option<Vec<char>>)
    ensures
        r is Some <==> extension_of(target@) is Some,
        r matches Some(e) ==> e@ == extension_of(target@)->0,
{
    let parts = crate::path::components(target);
    let n = parts.len();
    if n == 0 {
        return None;
    }
    assert(crate::path::parts_view(parts@).last() == parts@[n - 1]@);
    match &parts[n - 1] {
        crate::path::Component::Normal(name) => {
            let chars = chars_of(name.as_str());
            match last_dot_exec(&chars) {
                Some(i) => {
                    if i == 0 {
                        None
                    } else {
                        let mut e: Vec<char> = Vec::new();
                        let len = chars.len();
                        assert(i < len);
                        let mut k: usize = i + 1;
                        while k < chars.len()
                            invariant
                                i + 1 <= k <= chars@.len(),
                                e@ == chars@.subrange(i + 1, k as int),
                            decreases chars@.len() - k,
                        {
                            e.push(chars[k]);
                            k += 1;
                            assert(e@ =~= chars@.subrange(i + 1, k as int));
                        }
                        Some(e)
                    }
                },
                None => None,
            }
        },
        _ => None,
    }
}

fn remote_target(target: &str) -> (r: bool)
    ensures
        r == is_remote(target@),
{
    let parts = crate::path::components(target);
    if parts.len() == 0 {
        return false;
    }
    assert(crate::path::parts_view(parts@)[0] == parts@[0]@);
    match &parts[0] {
        crate::path::Component::Normal(name) => {
            let c = chars_of(name.as_str());
            let http = chars_of("http:");
            let https = chars_of("https:");
            let r = same_chars(&c, &http) || same_chars(&c, &https);
            assert(r == (Part::Name(name@) == Part::Name("http:"@) || Part::Name(name@)
                == Part::Name("https:"@)));
            r
        },
        _ => false,
    }
}

/// Classifies the target of `run`. `facts` says what the file system holds
/// at the target path.
pub fn classify_target(
    target: Option<&str>,
    module: bool,
    script: bool,
    gui_script: bool,
    facts: TargetFacts,
) -> (r: Result<RunKind, RunTargetError>)
    ensures
        r == run_kind(
            match target {
                Some(t) => Some(t@),
                None => None,
            },
            module,
            script,
            gui_script,
            facts,
        ),
{
    let t = match target {
        None => return Ok(RunKind::Empty),
        Some(t) => t,
    };
    let tc = chars_of(t);
    let dash = chars_of("-");
    if same_chars(&tc, &dash) {
        if module {
            return Err(RunTargetError::ModuleFromStdin);
        } else if gui_script {
            return Ok(RunKind::PythonGuiStdin);
        } else {
            return Ok(RunKind::PythonStdin);
        }
    }
    if remote_target(t) {
        if let Some(false) = facts.exists {
            return Ok(RunKind::PythonRemote);
        }
    }
    if module {
        return Ok(RunKind::PythonModule);
    } else if gui_script {
        return Ok(RunKind::PythonGuiScript);
    } else if script {
        return Ok(RunKind::PythonScript);
    }
    let lower = lower_ascii(&tc);
    let python = chars_of("python");
    if same_chars(&lower, &python) {
        return Ok(RunKind::Python);
    }
    let ext = match extension(t) {
        Some(e) => Some(lower_ascii(&e)),
        None => None,
    };
    let py = chars_of("py");
    let pyc = chars_of("pyc");
    let pyw = chars_of("pyw");
    let (is_py, is_pyw) = match &ext {
        Some(e) => (same_chars(e, &py) || same_chars(e, &pyc), same_chars(e, &pyw)),
        None => (false, false),
    };
    if is_py && facts.is_file {
        Ok(RunKind::PythonScript)
    } else if is_pyw && facts.is_file {
        Ok(RunKind::PythonGuiScript)
    } else if facts.is_dir && facts.has_main_py {
        Ok(RunKind::PythonPackage)
    } else if facts.is_file && facts.is_zipapp {
        Ok(RunKind::PythonZipapp)
    } else {
        Ok(RunKind::External)
    }
}

/// The name of the executable of a command, for messages; `target` is the
/// target of a package or an external command.
pub fn display_executable(kind: RunKind, target: &str) -> (r: String)
    ensures
        r@ == match kind {
            RunKind::PythonPackage | RunKind::External => target@,
            RunKind::PythonModule => "python -m"@,
            RunKind::PythonStdin | RunKind::PythonGuiStdin => "python -c"@,
            _ => "python"@,
        },
{
    match kind {
        RunKind::PythonPackage | RunKind::External => t_owned(target),
        RunKind::PythonModule => t_owned("python -m"),
        RunKind::PythonStdin | RunKind::PythonGuiStdin => t_owned("python -c"),
        _ => t_owned("python"),
    }
}

fn t_owned(s: &str) -> (r: String)
    ensures
        r@ == s@,
{
    s.to_owned()
}


// ---------------------------------------------------------------------------
// Remote scripts.

/// The path of a URL, as `url::Url::parse` and `Url::path` give it; `None`
/// where the text does not parse as a URL.
pub uninterp spec fn parsed_url_path(s: Seq<char>) -> Option<Seq<char>>;

/// Relies on `url::Url::parse` and `Url::path`: the path of the URL, where it
/// parses.
#[verifier::external_body]
fn url_path(s: &str) -> (r: Option<String>)
    ensures
        r is Some <==> parsed_url_path(s@) is Some,
        r matches Some(p) ==> p@ == parsed_url_path(s@)->0,
{
    url::Url::parse(s).ok().map(|u| u.path().to_owned())
}

/// The last segment of a URL path that starts with `/`.
pub open spec fn last_segment(path: Seq<char>) -> Option<Seq<char>> {
    if path.len() > 0 && path[0] == '/' {
        match last_slash(path) {
            Some(i) => Some(path.subrange(i + 1, path.len() as int)),
            None => None,
        }
    } else {
        None
    }
}

pub open spec fn last_slash(s: Seq<char>) -> Option<int>
    decreases s.len(),
{
    if s.len() == 0 {
        None
    } else if s.last() == '/' {
        Some(s.len() - 1)
    } else {
        last_slash(s.drop_last())
    }
}

/// The stem of the temporary file a remote script is saved in: the last
/// segment of the URL path without its `.py`, else `script`.
pub open spec fn script_stem_spec(path: Option<Seq<char>>) -> Seq<char> {
    match path {
        Some(p) => match last_segment(p) {
            Some(seg) => match strip_suffix_seq(seg, ".py"@) {
                Some(stem) => stem,
                None => "script"@,
            },
            None => "script"@,
        },
        None => "script"@,
    }
}

pub open spec fn strip_suffix_seq(s: Seq<char>, p: Seq<char>) -> Option<Seq<char>> {
    if p.len() <= s.len() && s.subrange(s.len() - p.len(), s.len() as int) == p {
        Some(s.subrange(0, s.len() - p.len()))
    } else {
        None
    }
}

fn last_slash_exec(s: &Vec<char>) -> (r: Option<usize>)
    ensures
        r is Some <==> last_slash(s@) is Some,
        r matches Some(i) ==> (i as int == last_slash(s@)->0 && i < s@.len()),
{
    let mut k: usize = s.len();
    assert(s@.subrange(0, s@.len() as int) =~= s@);
    while k > 0
        invariant
            k <= s@.len(),
            last_slash(s@) == last_slash(s@.subrange(0, k as int)),
        decreases k,
    {
        let ghost sub = s@.subrange(0, k as int);
        assert(sub.drop_last() =~= s@.subrange(0, k - 1));
        if s[k - 1] == '/' {
            return Some(k - 1);
        }
        k -= 1;
    }
    None
}

/// The stem of the temporary file for a remote script whose URL has the
/// given path (`None` where the URL did not parse).
pub fn script_stem_from_path(path: Option<&str>) -> (r: String)
    ensures
        r@ == script_stem_spec(
            match path {
                Some(p) => Some(p@),
                None => None,
            },
        ),
{
    proof {
        reveal_strlit("script");
        reveal_strlit(".py");
    }
    let p = match path {
        Some(p) => p,
        None => return t_owned("script"),
    };
    let c = chars_of(p);
    if c.len() == 0 || c[0] != '/' {
        return t_owned("script");
    }
    let i = match last_slash_exec(&c) {
        Some(i) => i,
        None => return t_owned("script"),
    };
    let len = c.len();
    let mut seg: Vec<char> = Vec::new();
    let mut k: usize = i + 1;
    while k < len
        invariant
            len == c@.len(),
            i + 1 <= k <= len,
            seg@ == c@.subrange(i + 1, k as int),
        decreases len - k,
    {
        seg.push(c[k]);
        k += 1;
        assert(seg@ =~= c@.subrange(i + 1, k as int));
    }
    let n = seg.len();
    if n >= 3 && seg[n - 3] == '.' && seg[n - 2] == 'p' && seg[n - 1] == 'y' {
        let mut stem: Vec<char> = Vec::new();
        let mut j: usize = 0;
        while j < n - 3
            invariant
                n == seg@.len(),
                n >= 3,
                j <= n - 3,
                stem@ == seg@.subrange(0, j as int),
            decreases n - 3 - j,
        {
            stem.push(seg[j]);
            j += 1;
            assert(stem@ =~= seg@.subrange(0, j as int));
        }
        assert(seg@.subrange(n - 3, n as int) =~= ".py"@);
        string_of(&stem)
    } else {
        assert(strip_suffix_seq(seg@, ".py"@) is None) by {
            if n >= 3 {
                if seg@.subrange(n - 3, n as int) == ".py"@ {
                    assert(seg@.subrange(n - 3, n as int)[0] == seg@[n - 3]);
                    assert(seg@.subrange(n - 3, n as int)[1] == seg@[n - 2]);
                    assert(seg@.subrange(n - 3, n as int)[2] == seg@[n - 1]);
                }
            }
        }
        t_owned("script")
    }
}

/// The stem of the temporary file for a remote script at `url`.
pub fn remote_script_stem(url: &str) -> (r: String)
    ensures
        r@ == script_stem_spec(parsed_url_path(url@)),
{
    let path = url_path(url);
    match path {
        Some(p) => script_stem_from_path(Some(p.as_str())),
        None => script_stem_from_path(None),
    }
}


/// The arguments, each after a space.
pub open spec fn spaced_args(args: Seq<Seq<char>>) -> Seq<char>
    decreases args.len(),
{
    if args.len() == 0 {
        seq![]
    } else {
        spaced_args(args.drop_last()) + seq![' '] + args.last()
    }
}

/// The command line of a command, for messages: the executable as the
/// command runs it, the target, then the arguments; a script read from
/// standard input or a URL shows as `python -c`.
pub open spec fn command_line_spec(kind: RunKind, target: Seq<char>, args: Seq<Seq<char>>) -> Seq<
    char,
> {
    match kind {
        RunKind::Empty => "python"@,
        RunKind::Python => "python"@ + spaced_args(args),
        RunKind::PythonPackage | RunKind::External => target + spaced_args(args),
        RunKind::PythonScript | RunKind::PythonZipapp => "python "@ + target + spaced_args(args),
        RunKind::PythonModule => "python -m "@ + target + spaced_args(args),
        RunKind::PythonGuiScript => "pythonw "@ + target + spaced_args(args),
        RunKind::PythonStdin | RunKind::PythonRemote => "python -c"@,
        RunKind::PythonGuiStdin => "pythonw -c"@,
    }
}

fn push_args(out: &mut String, args: &Vec<String>)
    ensures
        final(out)@ == old(out)@ + spaced_args(args@.map_values(|a: String| a@)),
{
    let ghost start = out@;
    let ghost av = args@.map_values(|a: String| a@);
    let mut i: usize = 0;
    while i < args.len()
        invariant
            i <= args@.len(),
            av == args@.map_values(|a: String| a@),
            out@ == start + spaced_args(av.subrange(0, i as int)),
        decreases args@.len() - i,
    {
        let ghost sub = av.subrange(0, i + 1);
        assert(sub.drop_last() =~= av.subrange(0, i as int));
        assert(sub.last() == args@[i as int]@);
        push_char(out, ' ');
        push_str(out, args[i].as_str());
        i += 1;
        assert(out@ =~= start + spaced_args(av.subrange(0, i as int)));
    }
    assert(av.subrange(0, args@.len() as int) =~= av);
}

/// The command line of a command, for messages.
pub fn command_line(kind: RunKind, target: &str, args: &Vec<String>) -> (r: String)
    ensures
        r@ == command_line_spec(kind, target@, args@.map_values(|a: String| a@)),
{
    let mut s = String::new();
    match kind {
        RunKind::Empty => push_str(&mut s, "python"),
        RunKind::Python => {
            push_str(&mut s, "python");
            push_args(&mut s, args);
        },
        RunKind::PythonPackage | RunKind::External => {
            push_str(&mut s, target);
            push_args(&mut s, args);
        },
        RunKind::PythonScript | RunKind::PythonZipapp => {
            push_str(&mut s, "python ");
            push_str(&mut s, target);
            push_args(&mut s, args);
        },
        RunKind::PythonModule => {
            push_str(&mut s, "python -m ");
            push_str(&mut s, target);
            push_args(&mut s, args);
        },
        RunKind::PythonGuiScript => {
            push_str(&mut s, "pythonw ");
            push_str(&mut s, target);
            push_args(&mut s, args);
        },
        RunKind::PythonStdin | RunKind::PythonRemote => push_str(&mut s, "python -c"),
        RunKind::PythonGuiStdin => push_str(&mut s, "pythonw -c"),
    }
    proof {
        let av = args@.map_values(|a: String| a@);
        assert(s@ =~= command_line_spec(kind, target@, av));
    }
    s
}


/// What a command is run with.
#[derive(Debug, Clone)]
pub struct CommandInputs {
    /// The interpreter.
    pub python: String,
    /// The `pythonw` next to the interpreter, where that is a file.
    pub pythonw: Option<String>,
    /// The installed entrypoint named after a package target, where that is
    /// an executable.
    pub entrypoint: Option<String>,
    /// The target as given.
    pub target: String,
    /// The script read from standard input.
    pub script: String,
    /// The arguments after the target.
    pub args: Vec<String>,
}

pub open spec fn strings(v: Seq<String>) -> Seq<Seq<char>> {
    v.map_values(|s: String| s@)
}

/// The program a command runs.
pub open spec fn program_spec(kind: RunKind, i: CommandInputs) -> Seq<char> {
    match kind {
        RunKind::PythonPackage => match i.entrypoint {
            Some(e) => e@,
            None => i.python@,
        },
        RunKind::PythonGuiScript | RunKind::PythonGuiStdin => match i.pythonw {
            Some(w) => w@,
            None => i.python@,
        },
        RunKind::External => i.target@,
        _ => i.python@,
    }
}

/// The arguments the program of a command gets.
pub open spec fn argv_spec(kind: RunKind, i: CommandInputs) -> Seq<Seq<char>> {
    let args = strings(i.args@);
    match kind {
        RunKind::Empty => seq![],
        RunKind::Python | RunKind::External => args,
        RunKind::PythonPackage => if i.entrypoint is Some {
            args
        } else {
            seq![i.target@] + args
        },
        RunKind::PythonScript | RunKind::PythonZipapp | RunKind::PythonRemote
        | RunKind::PythonGuiScript => seq![i.target@] + args,
        RunKind::PythonModule => seq!["-m"@, i.target@] + args,
        RunKind::PythonStdin | RunKind::PythonGuiStdin => seq!["-c"@, i.script@] + args,
    }
}

fn append_strings(out: &mut Vec<String>, more: &Vec<String>)
    ensures
        strings(final(out)@) == strings(old(out)@) + strings(more@),
{
    let ghost start = strings(out@);
    let mut i: usize = 0;
    while i < more.len()
        invariant
            i <= more@.len(),
            strings(out@) == start + strings(more@).subrange(0, i as int),
        decreases more@.len() - i,
    {
        let ghost before = strings(out@);
        let x = more[i].clone();
        out.push(x);
        i += 1;
        assert(strings(out@) =~= before.push(more@[i - 1]@));
        assert(before.push(more@[i - 1]@) =~= start + strings(more@).subrange(0, i as int));
    }
    assert(strings(more@).subrange(0, more@.len() as int) =~= strings(more@));
}

/// The program and arguments of a command.
pub fn command_argv(kind: RunKind, inputs: &CommandInputs) -> (r: (String, Vec<String>))
    ensures
        r.0@ == program_spec(kind, *inputs),
        strings(r.1@) == argv_spec(kind, *inputs),
{
    let program = match kind {
        RunKind::PythonPackage => match &inputs.entrypoint {
            Some(e) => e.clone(),
            None => inputs.python.clone(),
        },
        RunKind::PythonGuiScript | RunKind::PythonGuiStdin => match &inputs.pythonw {
            Some(w) => w.clone(),
            None => inputs.python.clone(),
        },
        RunKind::External => inputs.target.clone(),
        _ => inputs.python.clone(),
    };
    let mut argv: Vec<String> = Vec::new();
    match kind {
        RunKind::Empty => {},
        RunKind::Python | RunKind::External => {},
        RunKind::PythonPackage => {
            if inputs.entrypoint.is_none() {
                argv.push(inputs.target.clone());
            }
        },
        RunKind::PythonScript | RunKind::PythonZipapp | RunKind::PythonRemote
        | RunKind::PythonGuiScript => {
            argv.push(inputs.target.clone());
        },
        RunKind::PythonModule => {
            argv.push(t_owned("-m"));
            argv.push(inputs.target.clone());
        },
        RunKind::PythonStdin | RunKind::PythonGuiStdin => {
            argv.push(t_owned("-c"));
            argv.push(inputs.script.clone());
        },
    }
    let ghost head = strings(argv@);
    if !(kind == RunKind::Empty) {
        append_strings(&mut argv, &inputs.args);
    }
    proof {
        let args = strings(inputs.args@);
        if kind == RunKind::Empty {
            assert(strings(argv@) =~= Seq::<Seq<char>>::empty());
        } else if kind == RunKind::Python || kind == RunKind::External || (kind
            == RunKind::PythonPackage && inputs.entrypoint is Some) {
            assert(head =~= Seq::<Seq<char>>::empty());
            assert(strings(argv@) =~= args);
        } else if kind == RunKind::PythonModule {
            assert(head =~= seq!["-m"@, inputs.target@]);
        } else if kind == RunKind::PythonStdin || kind == RunKind::PythonGuiStdin {
            assert(head =~= seq!["-c"@, inputs.script@]);
        } else {
            assert(head =~= seq![inputs.target@]);
        }
    }
    (program, argv)
}

} // verus!
