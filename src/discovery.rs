//! Choosing an interpreter among the candidates that discovery turned up, in
//! the order of their sources, for a version request.
use vstd::prelude::*;

verus! {

/// A queried interpreter.
#[derive(Debug, Clone)]
pub struct Interpreter {
    pub sys_executable: String,
    pub sys_prefix: String,
    pub base_prefix: String,
    pub major: u64,
    pub minor: u64,
    pub patch: u64,
    /// Whether the version is a pre-release.
    pub prerelease: bool,
    /// The implementation name, e.g. `cpython`.
    pub implementation: String,
    /// Whether the interpreter is a free-threaded build.
    pub gil_disabled: bool,
}

impl Interpreter {
    /// An interpreter runs in a virtual environment when its prefix differs
    /// from its base prefix.
    pub fn is_virtualenv(&self) -> (r: bool)
        ensures
            r == (self.sys_prefix@ != self.base_prefix@),
    {
        !self.sys_prefix.eq(&self.base_prefix)
    }
}

/// What probing one executable on the search path found.
#[derive(Debug, Clone)]
pub enum Candidate {
    /// A working interpreter.
    Found(Interpreter),
    /// Not an interpreter: not executable, a broken script, a directory.
    Unusable,
    /// A Python 2 interpreter, which the query script fails on.
    Python2(String),
}

/// The versions a request accepts.
#[derive(Debug, Clone, Copy, PartialEq, Eq, Structural)]
pub enum VersionRequest {
    Any,
    Major(u64),
    MajorMinor(u64, u64),
    MajorMinorPatch(u64, u64, u64),
}

/// A request for an interpreter.
#[derive(Debug, Clone)]
pub struct InterpreterRequest {
    pub version: VersionRequest,
    /// Whether a free-threaded build is asked for, as `3.13t` does.
    pub freethreaded: bool,
    /// An implementation name the interpreter must have.
    pub implementation: Option<String>,
}

pub open spec fn version_matches(v: VersionRequest, i: Interpreter) -> bool {
    match v {
        VersionRequest::Any => true,
        VersionRequest::Major(a) => i.major == a,
        VersionRequest::MajorMinor(a, b) => i.major == a && i.minor == b,
        VersionRequest::MajorMinorPatch(a, b, c) => i.major == a && i.minor == b && i.patch == c,
    }
}

/// The interpreter satisfies the request: version, implementation, and a
/// free-threaded build where one is asked for.
pub open spec fn satisfies(r: InterpreterRequest, i: Interpreter) -> bool {
    &&& version_matches(r.version, i)
    &&& (r.freethreaded ==> i.gil_disabled)
    &&& (r.implementation matches Some(n) ==> i.implementation@ == n@)
}

pub open spec fn candidate_satisfies(r: InterpreterRequest, c: Candidate) -> bool {
    c matches Candidate::Found(i) && satisfies(r, i)
}

/// The candidate is preferred for the request: a request that does not ask
/// for a free-threaded build prefers a build with the GIL.
pub open spec fn preferred(r: InterpreterRequest, c: Candidate) -> bool {
    candidate_satisfies(r, c) && (r.freethreaded || !c->Found_0.gil_disabled)
}

/// Why no interpreter was chosen.
#[derive(Debug, Clone)]
pub enum DiscoveryError {
    /// No candidate satisfies the request.
    NotFound,
    /// No candidate satisfies the request and querying one failed as on
    /// Python 2; the message is the first such failure.
    Query(String),
}

pub open spec fn first_index_where(cs: Seq<Candidate>, r: InterpreterRequest, pref: bool) -> Option<
    int,
> {
    if exists|i: int|
        0 <= i < cs.len() && (if pref {
            preferred(r, #[trigger] cs[i])
        } else {
            candidate_satisfies(r, cs[i])
        }) {
        Some(
            choose|i: int|
                0 <= i < cs.len() && (if pref {
                    preferred(r, #[trigger] cs[i])
                } else {
                    candidate_satisfies(r, cs[i])
                }) && forall|j: int|
                    0 <= j < i ==> !(if pref {
                        preferred(r, #[trigger] cs[j])
                    } else {
                        candidate_satisfies(r, cs[j])
                    }),
        )
    } else {
        None
    }
}

/// The index of the candidate chosen: the first preferred one, else the
/// first that satisfies the request.
pub open spec fn chosen(cs: Seq<Candidate>, r: InterpreterRequest) -> Option<int> {
    match first_index_where(cs, r, true) {
        Some(i) => Some(i),
        None => first_index_where(cs, r, false),
    }
}

pub open spec fn has_python2(cs: Seq<Candidate>) -> bool {
    exists|i: int| 0 <= i < cs.len() && #[trigger] cs[i] is Python2
}

fn satisfies_exec(r: &InterpreterRequest, c: &Candidate) -> (b: bool)
    ensures
        b == candidate_satisfies(*r, *c),
{
    match c {
        Candidate::Found(i) => {
            let v = match r.version {
                VersionRequest::Any => true,
                VersionRequest::Major(a) => i.major == a,
                VersionRequest::MajorMinor(a, b) => i.major == a && i.minor == b,
                VersionRequest::MajorMinorPatch(a, b, p) => i.major == a && i.minor == b && i.patch
                    == p,
            };
            let t = !r.freethreaded || i.gil_disabled;
            let n = match &r.implementation {
                Some(name) => i.implementation.eq(name),
                None => true,
            };
            v && t && n
        },
        _ => false,
    }
}

fn preferred_exec(r: &InterpreterRequest, c: &Candidate) -> (b: bool)
    ensures
        b == preferred(*r, *c),
{
    if !satisfies_exec(r, c) {
        return false;
    }
    match c {
        Candidate::Found(i) => r.freethreaded || !i.gil_disabled,
        _ => false,
    }
}

fn first_where(cs: &Vec<Candidate>, r: &InterpreterRequest, pref: bool) -> (res: Option<usize>)
    ensures
        res is Some <==> first_index_where(cs@, *r, pref) is Some,
        res matches Some(i) ==> i as int == first_index_where(cs@, *r, pref)->0,
{
    let mut i: usize = 0;
    while i < cs.len()
        invariant
            i <= cs@.len(),
            forall|j: int|
                0 <= j < i ==> !(if pref {
                    preferred(*r, #[trigger] cs@[j])
                } else {
                    candidate_satisfies(*r, cs@[j])
                }),
        decreases cs@.len() - i,
    {
        let hit = if pref {
            preferred_exec(r, &cs[i])
        } else {
            satisfies_exec(r, &cs[i])
        };
        if hit {
            proof {
                let p = |k: int|
                    0 <= k < cs@.len() && (if pref {
                        preferred(*r, cs@[k])
                    } else {
                        candidate_satisfies(*r, cs@[k])
                    }) && forall|j: int|
                        0 <= j < k ==> !(if pref {
                            preferred(*r, #[trigger] cs@[j])
                        } else {
                            candidate_satisfies(*r, cs@[j])
                        });
                assert(p(i as int));
                let c = first_index_where(cs@, *r, pref)->0;
                assert(p(c));
                if c < i {
                } else if c > i {
                }
            }
            return Some(i);
        }
        i += 1;
    }
    None
}

/// Chooses an interpreter for the request among the candidates, in order:
/// the first preferred one, else the first that satisfies the request. Where
/// none does, a Python 2 query failure is reported rather than "not found".
pub fn find_python(r: &InterpreterRequest, candidates: &Vec<Candidate>) -> (res: Result<
    usize,
    DiscoveryError,
>)
    ensures
        res is Ok <==> chosen(candidates@, *r) is Some,
        res matches Ok(i) ==> i as int == chosen(candidates@, *r)->0,
        res matches Err(e) ==> (e is Query <==> has_python2(candidates@)),
{
    if let Some(i) = first_where(candidates, r, true) {
        return Ok(i);
    }
    if let Some(i) = first_where(candidates, r, false) {
        return Ok(i);
    }
    let mut k: usize = 0;
    while k < candidates.len()
        invariant
            k <= candidates@.len(),
            first_index_where(candidates@, *r, true) is None,
            first_index_where(candidates@, *r, false) is None,
            forall|j: int| 0 <= j < k ==> !(#[trigger] candidates@[j] is Python2),
        decreases candidates@.len() - k,
    {
        match &candidates[k] {
            Candidate::Python2(message) => return Err(DiscoveryError::Query(message.clone())),
            _ => {},
        }
        k += 1;
    }
    Err(DiscoveryError::NotFound)
}

/// The request with its patch version dropped.
pub open spec fn without_patch(r: InterpreterRequest) -> InterpreterRequest {
    InterpreterRequest {
        version: match r.version {
            VersionRequest::MajorMinorPatch(a, b, _) => VersionRequest::MajorMinor(a, b),
            v => v,
        },
        ..r
    }
}

/// The request with its implementation dropped as well.
pub open spec fn without_implementation(r: InterpreterRequest) -> InterpreterRequest {
    InterpreterRequest { implementation: None, ..without_patch(r) }
}

/// The interpreter that the best-match search chooses: for the request as
/// given, else with the patch version dropped, else with the implementation
/// dropped as well.
pub open spec fn best_choice(cs: Seq<Candidate>, r: InterpreterRequest) -> Option<int> {
    match chosen(cs, r) {
        Some(i) => Some(i),
        None => match chosen(cs, without_patch(r)) {
            Some(i) => Some(i),
            None => chosen(cs, without_implementation(r)),
        },
    }
}

fn copy_request(r: &InterpreterRequest) -> (c: InterpreterRequest)
    ensures
        c == *r,
{
    InterpreterRequest {
        version: r.version,
        freethreaded: r.freethreaded,
        implementation: match &r.implementation {
            Some(n) => Some(n.clone()),
            None => None,
        },
    }
}

/// Chooses an interpreter for the request, relaxing it where nothing matches:
/// first the patch version is dropped, then the implementation.
pub fn find_best(r: &InterpreterRequest, candidates: &Vec<Candidate>) -> (res: Result<
    usize,
    DiscoveryError,
>)
    ensures
        res is Ok <==> best_choice(candidates@, *r) is Some,
        res matches Ok(i) ==> i as int == best_choice(candidates@, *r)->0,
        res matches Err(e) ==> (e is Query <==> has_python2(candidates@)),
{
    match find_python(r, candidates) {
        Ok(i) => return Ok(i),
        Err(_) => {},
    }
    let mut relaxed = copy_request(r);
    relaxed.version = match r.version {
        VersionRequest::MajorMinorPatch(a, b, _) => VersionRequest::MajorMinor(a, b),
        v => v,
    };
    assert(relaxed == without_patch(*r));
    match find_python(&relaxed, candidates) {
        Ok(i) => return Ok(i),
        Err(_) => {},
    }
    relaxed.implementation = None;
    assert(relaxed == without_implementation(*r));
    find_python(&relaxed, candidates)
}

/// Where no interpreter has the requested patch version, the best-match
/// search chooses the first that the request without its patch version
/// chooses.
pub proof fn lemma_patch_fallback(cs: Seq<Candidate>, r: InterpreterRequest)
    requires
        chosen(cs, r) is None,
        chosen(cs, without_patch(r)) is Some,
    ensures
        best_choice(cs, r) == chosen(cs, without_patch(r)),
{
}

/// An error of interpreter discovery, with a hint where no interpreter was
/// found.
#[derive(Debug, Clone)]
pub enum Error {
    /// No interpreter was found; the second field is a hint for the user.
    MissingPython(String, Option<String>),
    /// Any other failure.
    Other(String),
}

impl Error {
    /// Attaches a hint to a "not found" error; other errors are unchanged.
    pub fn with_missing_python_hint(self, hint: String) -> (r: Error)
        ensures
            self matches Error::MissingPython(m, _) ==> r matches Error::MissingPython(m2, Some(h))
                && m2 == m && h == hint,
            self is Other ==> r == self,
    {
        match self {
            Error::MissingPython(err, _) => Error::MissingPython(err, Some(hint)),
            _ => self,
        }
    }
}

} // verus!
