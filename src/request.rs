//! Requests for a Python interpreter, as a user or a version file writes them.
use vstd::prelude::*;

use crate::text::{chars_of, push_char, push_str, string_of, trim, trimmed};

verus! {

/// A request for a Python interpreter.
#[derive(Debug, Clone)]
pub enum PythonRequest {
    /// The default interpreter.
    Default,
    /// Any interpreter.
    Any,
    /// A version or a range of versions, e.g. `3.12`, `>=3.11` or `3.13t`.
    Version(String),
    /// A directory holding an environment or an installation.
    Directory(String),
    /// A path to an interpreter.
    File(String),
    /// The name of an executable to look up on the search path.
    ExecutableName(String),
    /// An implementation, e.g. `pypy`.
    Implementation(String),
    /// An implementation at a version, e.g. `pypy@3.10`.
    ImplementationVersion(String, String),
}

pub enum RequestView {
    Default,
    Any,
    Version(Seq<char>),
    Directory(Seq<char>),
    File(Seq<char>),
    ExecutableName(Seq<char>),
    Implementation(Seq<char>),
    ImplementationVersion(Seq<char>, Seq<char>),
}

impl View for PythonRequest {
    type V = RequestView;

    open spec fn view(&self) -> RequestView {
        match self {
            PythonRequest::Default => RequestView::Default,
            PythonRequest::Any => RequestView::Any,
            PythonRequest::Version(v) => RequestView::Version(v@),
            PythonRequest::Directory(p) => RequestView::Directory(p@),
            PythonRequest::File(p) => RequestView::File(p@),
            PythonRequest::ExecutableName(n) => RequestView::ExecutableName(n@),
            PythonRequest::Implementation(n) => RequestView::Implementation(n@),
            PythonRequest::ImplementationVersion(n, v) => RequestView::ImplementationVersion(
                n@,
                v@,
            ),
        }
    }
}

pub open spec fn is_digit(c: char) -> bool {
    0x30 <= (c as int) <= 0x39
}

pub open spec fn ascii_lower(c: char) -> char {
    if 0x41 <= (c as int) <= 0x5a {
        ((c as int) + 32) as char
    } else {
        c
    }
}

pub open spec fn lowered(s: Seq<char>) -> Seq<char> {
    s.map_values(|c: char| ascii_lower(c))
}

/// A version or a version range: starts with a comparison operator, or is
/// digits and dots starting with a digit, with an optional final `t` for a
/// free-threaded build.
pub open spec fn is_version_text(s: Seq<char>) -> bool {
    s.len() > 0 && ((s[0] == '<' || s[0] == '>' || s[0] == '=' || s[0] == '~' || s[0] == '!')
        || (is_digit(s[0]) && forall|i: int|
        0 <= i < s.len() ==> is_digit(#[trigger] s[i]) || s[i] == '.' || (s[i] == 't' && i == s.len()
            - 1)))
}

/// A version after a name, directly or after an `@`.
pub open spec fn version_suffix(rest: Seq<char>) -> Option<Seq<char>> {
    if is_version_text(rest) {
        Some(rest)
    } else if rest.len() > 1 && rest[0] == '@' && is_version_text(rest.drop_first()) {
        Some(rest.drop_first())
    } else {
        None
    }
}

pub open spec fn implementation_names() -> Seq<Seq<char>> {
    seq!["cpython"@, "pypy"@, "graalpy"@, "cp"@, "pp"@, "gp"@]
}

pub open spec fn starts_with(s: Seq<char>, p: Seq<char>) -> bool {
    p.len() <= s.len() && s.subrange(0, p.len() as int) == p
}

/// The first implementation name that the request starts with and that a
/// version follows or nothing does.
pub open spec fn implementation_match(l: Seq<char>) -> Option<(Seq<char>, Seq<char>)> {
    implementation_match_from(l, 0)
}

pub open spec fn implementation_match_from(l: Seq<char>, i: nat) -> Option<(Seq<char>, Seq<char>)>
    decreases 6 - i,
{
    if i >= 6 {
        None
    } else {
        let n = implementation_names()[i as int];
        if starts_with(l, n) && (l.len() == n.len() || version_suffix(
            l.subrange(n.len() as int, l.len() as int),
        ) is Some) {
            Some((n, l.subrange(n.len() as int, l.len() as int)))
        } else {
            implementation_match_from(l, i + 1)
        }
    }
}

/// How a request is read. `is_dir` and `is_file` say what the text names on
/// disk.
pub open spec fn request_of(value: Seq<char>, is_dir: bool, is_file: bool) -> RequestView {
    let v = trimmed(value);
    let l = lowered(v);
    if l == "any"@ {
        RequestView::Any
    } else if l == "default"@ {
        RequestView::Default
    } else if is_version_text(l) {
        RequestView::Version(l)
    } else if starts_with(l, "python"@) && version_suffix(l.subrange(6, l.len() as int)) is Some {
        RequestView::Version(version_suffix(l.subrange(6, l.len() as int))->0)
    } else if implementation_match(l) is Some {
        let (n, rest) = implementation_match(l)->0;
        if rest.len() == 0 {
            RequestView::Implementation(n)
        } else {
            RequestView::ImplementationVersion(n, version_suffix(rest)->0)
        }
    } else if is_dir {
        RequestView::Directory(v)
    } else if is_file || v.contains('/') {
        RequestView::File(v)
    } else {
        RequestView::ExecutableName(v)
    }
}

fn is_digit_exec(c: char) -> (r: bool)
    ensures
        r == is_digit(c),
{
    let n = c as u32;
    48 <= n && n <= 57
}

fn lower_chars(s: &Vec<char>) -> (r: Vec<char>)
    ensures
        r@ == lowered(s@),
{
    let mut out: Vec<char> = Vec::new();
    let mut i: usize = 0;
    while i < s.len()
        invariant
            i <= s@.len(),
            out@ == lowered(s@).subrange(0, i as int),
        decreases s@.len() - i,
    {
        let c = s[i];
        let n = c as u32;
        let d = if 65 <= n && n <= 90 {
            ((n as u8) + 32) as char
        } else {
            c
        };
        out.push(d);
        i += 1;
        assert(out@ =~= lowered(s@).subrange(0, i as int));
    }
    assert(lowered(s@).subrange(0, s@.len() as int) =~= lowered(s@));
    out
}

fn version_text(s: &Vec<char>, from: usize) -> (r: bool)
    requires
        from <= s@.len(),
    ensures
        r == is_version_text(s@.subrange(from as int, s@.len() as int)),
{
    let ghost t = s@.subrange(from as int, s@.len() as int);
    if from == s.len() {
        return false;
    }
    let c = s[from];
    assert(t[0] == c);
    if c == '<' || c == '>' || c == '=' || c == '~' || c == '!' {
        return true;
    }
    if !is_digit_exec(c) {
        return false;
    }
    let mut i: usize = from;
    while i < s.len()
        invariant
            from <= i <= s@.len(),
            t == s@.subrange(from as int, s@.len() as int),
            t.len() > 0,
            !(t[0] == '<' || t[0] == '>' || t[0] == '=' || t[0] == '~' || t[0] == '!'),
            is_digit(t[0]),
            forall|j: int|
                0 <= j < i - from ==> is_digit(#[trigger] t[j]) || t[j] == '.' || (t[j] == 't' && j
                    == t.len() - 1),
        decreases s@.len() - i,
    {
        let d = s[i];
        assert(t[i - from] == d);
        if !(is_digit_exec(d) || d == '.' || (d == 't' && i + 1 == s.len())) {
            let ghost j = (i - from) as int;
            assert(!(is_digit(t[j]) || t[j] == '.' || (t[j] == 't' && j == t.len() - 1)));
            return false;
        }
        i += 1;
    }
    true
}

fn starts_with_exec(s: &Vec<char>, p: &Vec<char>) -> (r: bool)
    ensures
        r == starts_with(s@, p@),
{
    if p.len() > s.len() {
        return false;
    }
    let mut i: usize = 0;
    while i < p.len()
        invariant
            p@.len() <= s@.len(),
            i <= p@.len(),
            forall|j: int| 0 <= j < i ==> s@[j] == p@[j],
        decreases p@.len() - i,
    {
        if s[i] != p[i] {
            assert(s@.subrange(0, p@.len() as int)[i as int] != p@[i as int]);
            return false;
        }
        i += 1;
    }
    assert(s@.subrange(0, p@.len() as int) =~= p@);
    true
}

fn tail_of(s: &Vec<char>, from: usize) -> (r: Vec<char>)
    requires
        from <= s@.len(),
    ensures
        r@ == s@.subrange(from as int, s@.len() as int),
{
    let mut out: Vec<char> = Vec::new();
    let mut i: usize = from;
    while i < s.len()
        invariant
            from <= i <= s@.len(),
            out@ == s@.subrange(from as int, i as int),
        decreases s@.len() - i,
    {
        out.push(s[i]);
        i += 1;
        assert(out@ =~= s@.subrange(from as int, i as int));
    }
    out
}

fn chars_eq(a: &Vec<char>, b: &Vec<char>) -> (r: bool)
    ensures
        r == (a@ == b@),
{
    if a.len() != b.len() {
        return false;
    }
    let r = starts_with_exec(a, b);
    assert(a@.subrange(0, b@.len() as int) =~= a@);
    r
}

/// The version that follows a name at `from`, if one does.
fn version_after(s: &Vec<char>, from: usize) -> (r: Option<Vec<char>>)
    requires
        from <= s@.len(),
    ensures
        r is Some <==> version_suffix(s@.subrange(from as int, s@.len() as int)) is Some,
        r matches Some(v) ==> v@ == version_suffix(s@.subrange(from as int, s@.len() as int))->0,
{
    let ghost rest = s@.subrange(from as int, s@.len() as int);
    if version_text(s, from) {
        return Some(tail_of(s, from));
    }
    if s.len() - from > 1 && s[from] == '@' {
        assert(rest[0] == '@');
        assert(s@.subrange(from + 1, s@.len() as int) =~= rest.drop_first());
        if version_text(s, from + 1) {
            return Some(tail_of(s, from + 1));
        }
    }
    None
}

impl PythonRequest {
    /// Reads a request. `is_dir` and `is_file` say whether the text names a
    /// directory or a file on disk.
    pub fn parse(value: &str, is_dir: bool, is_file: bool) -> (r: PythonRequest)
        ensures
            r@ == request_of(value@, is_dir, is_file),
    {
        let v = trim(value);
        let vc = chars_of(v);
        let l = lower_chars(&vc);
        let any = chars_of("any");
        let default = chars_of("default");
        if chars_eq(&l, &any) {
            return PythonRequest::Any;
        }
        if chars_eq(&l, &default) {
            return PythonRequest::Default;
        }
        let ghost lv = l@;
        assert(lv.subrange(0, lv.len() as int) =~= lv);
        if version_text(&l, 0) {
            return PythonRequest::Version(string_of(&l));
        }
        let python = chars_of("python");
        proof {
            reveal_strlit("python");
        }
        if starts_with_exec(&l, &python) {
            if let Some(ver) = version_after(&l, 6) {
                return PythonRequest::Version(string_of(&ver));
            }
        }
        let names = [
            chars_of("cpython"),
            chars_of("pypy"),
            chars_of("graalpy"),
            chars_of("cp"),
            chars_of("pp"),
            chars_of("gp"),
        ];
        let mut i: usize = 0;
        while i < 6
            invariant
                i <= 6,
                names@.len() == 6,
                forall|j: int| 0 <= j < 6 ==> #[trigger] names@[j]@ == implementation_names()[j],
                implementation_match(lv) == implementation_match_from(lv, i as nat),
                lv == l@,
                v@ == trimmed(value@),
                lv == lowered(v@),
                lv != "any"@,
                lv != "default"@,
                !is_version_text(lv),
                !(starts_with(lv, "python"@) && version_suffix(lv.subrange(6, lv.len() as int)) is Some),
            decreases 6 - i,
        {
            let n = &names[i];
            if starts_with_exec(&l, n) {
                if l.len() == n.len() {
                    return PythonRequest::Implementation(string_of(n));
                }
                if let Some(ver) = version_after(&l, n.len()) {
                    return PythonRequest::ImplementationVersion(string_of(n), string_of(&ver));
                }
            }
            i += 1;
        }
        if is_dir {
            return PythonRequest::Directory(v.to_owned());
        }
        let mut has_sep = false;
        let mut j: usize = 0;
        while j < vc.len()
            invariant
                j <= vc@.len(),
                has_sep == exists|k: int| 0 <= k < j && vc@[k] == '/',
            decreases vc@.len() - j,
        {
            if vc[j] == '/' {
                has_sep = true;
            }
            j += 1;
        }
        if is_file || has_sep {
            PythonRequest::File(v.to_owned())
        } else {
            PythonRequest::ExecutableName(v.to_owned())
        }
    }

    /// The request as a version file writes it.
    pub fn to_canonical_string(&self) -> (r: String)
        ensures
            r@ == canonical(self@),
    {
        match self {
            PythonRequest::Default => "default".to_owned(),
            PythonRequest::Any => "any".to_owned(),
            PythonRequest::Version(v) => v.clone(),
            PythonRequest::Directory(p) => p.clone(),
            PythonRequest::File(p) => p.clone(),
            PythonRequest::ExecutableName(n) => n.clone(),
            PythonRequest::Implementation(n) => n.clone(),
            PythonRequest::ImplementationVersion(n, v) => {
                let mut s = n.clone();
                push_char(&mut s, '@');
                push_str(&mut s, v.as_str());
                s
            },
        }
    }

    pub fn is_executable_name(&self) -> (r: bool)
        ensures
            r == (self@ is ExecutableName),
    {
        match self {
            PythonRequest::ExecutableName(_) => true,
            _ => false,
        }
    }
}

pub open spec fn canonical(r: RequestView) -> Seq<char> {
    match r {
        RequestView::Default => "default"@,
        RequestView::Any => "any"@,
        RequestView::Version(v) => v,
        RequestView::Directory(p) => p,
        RequestView::File(p) => p,
        RequestView::ExecutableName(n) => n,
        RequestView::Implementation(n) => n,
        RequestView::ImplementationVersion(n, v) => n + seq!['@'] + v,
    }
}

} // verus!
