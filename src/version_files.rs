//! `.python-version` and `.python-versions` files: where they are looked for,
//! how their text is read, and how they are written back.
use vstd::prelude::*;

use crate::path::{components, parts_view, render, render_components, parts_of, Component, Part};
use crate::request::{canonical, PythonRequest, RequestView};
use crate::text::{lines, lines_of, push_char, push_str, trim, trimmed};

verus! {

/// The file name for Python version pins.
pub const PYTHON_VERSION_FILENAME: &'static str = ".python-version";

/// The file name for multiple Python version declarations.
pub const PYTHON_VERSIONS_FILENAME: &'static str = ".python-versions";

/// Whether to prefer the `.python-version` or `.python-versions` file.
#[derive(Debug, Clone, Copy, PartialEq, Eq)]
pub enum FilePreference {
    Version,
    Versions,
}

impl Default for FilePreference {
    fn default() -> (r: FilePreference)
        ensures
            r == FilePreference::Version,
    {
        FilePreference::Version
    }
}

/// Where and how to look for a version file.
#[derive(Debug, Clone)]
pub struct DiscoveryOptions {
    /// The path to stop discovery at.
    pub stop_discovery_at: Option<String>,
    /// Ignore Python version files.
    ///
    /// Discovery will still run in order to display a log about the ignored file.
    pub no_config: bool,
    /// Whether `.python-version` or `.python-versions` should be preferred.
    pub preference: FilePreference,
    /// Whether to ignore local version files, and only search for a global one.
    pub no_local: bool,
}

impl Default for DiscoveryOptions {
    fn default() -> (r: DiscoveryOptions)
        ensures
            r.stop_discovery_at is None,
            !r.no_config,
            r.preference == FilePreference::Version,
            !r.no_local,
    {
        DiscoveryOptions {
            stop_discovery_at: None,
            no_config: false,
            preference: FilePreference::Version,
            no_local: false,
        }
    }
}

impl DiscoveryOptions {
    pub fn with_no_config(self, no_config: bool) -> (r: DiscoveryOptions)
        ensures
            r.no_config == no_config,
            r.stop_discovery_at == self.stop_discovery_at,
            r.preference == self.preference,
            r.no_local == self.no_local,
    {
        DiscoveryOptions { no_config, ..self }
    }

    pub fn with_preference(self, preference: FilePreference) -> (r: DiscoveryOptions)
        ensures
            r.preference == preference,
            r.stop_discovery_at == self.stop_discovery_at,
            r.no_config == self.no_config,
            r.no_local == self.no_local,
    {
        DiscoveryOptions { preference, ..self }
    }

    pub fn with_stop_discovery_at(self, stop_discovery_at: Option<String>) -> (r: DiscoveryOptions)
        ensures
            r.stop_discovery_at == stop_discovery_at,
            r.no_config == self.no_config,
            r.preference == self.preference,
            r.no_local == self.no_local,
    {
        DiscoveryOptions { stop_discovery_at, ..self }
    }

    pub fn with_no_local(self, no_local: bool) -> (r: DiscoveryOptions)
        ensures
            r.no_local == no_local,
            r.stop_discovery_at == self.stop_discovery_at,
            r.no_config == self.no_config,
            r.preference == self.preference,
    {
        DiscoveryOptions { no_local, ..self }
    }
}

/// A `.python-version` or `.python-versions` file.
#[derive(Debug, Clone)]
pub struct PythonVersionFile {
    /// The path to the version file.
    path: String,
    /// The Python version requests declared in the file.
    versions: Vec<PythonRequest>,
}

pub open spec fn requests_view(v: Seq<PythonRequest>) -> Seq<RequestView> {
    v.map_values(|r: PythonRequest| r@)
}

/// The requests a version file keeps: every one but bare executable names.
pub open spec fn supported(v: Seq<RequestView>) -> Seq<RequestView> {
    v.filter(|r: RequestView| !(r is ExecutableName))
}

/// The lines of a version file that hold a request: not blank, no comment.
pub open spec fn request_lines_of(content: Seq<char>) -> Seq<Seq<char>> {
    lines_of(content).filter(
        |l: Seq<char>| !(trimmed(l).len() == 0 || trimmed(l)[0] == '#'),
    )
}

/// A path with a name pushed onto it.
pub open spec fn join_name(dir: Seq<char>, name: Seq<char>) -> Seq<char> {
    if dir.len() == 0 {
        name
    } else if dir.last() == '/' {
        dir + name
    } else {
        dir + seq!['/'] + name
    }
}

/// The shortest ancestor of a path: the root of an absolute path, else empty.
pub open spec fn shortest_ancestor(parts: Seq<Part>) -> nat {
    if parts.len() > 0 && parts[0] is Root {
        1
    } else {
        0
    }
}

/// The parent of a path, where it has one.
pub open spec fn parent_parts(parts: Seq<Part>) -> Option<Seq<Part>> {
    if parts.len() == 0 || parts == seq![Part::Root] {
        None
    } else {
        Some(parts.drop_last())
    }
}

/// How many ancestors of `parts`, from itself upward, come before the
/// `stop` directory's parent; `k` is the length of the next one.
pub open spec fn ancestors_before(parts: Seq<Part>, stop: Option<Seq<Part>>, k: nat) -> nat
    decreases k,
{
    if k < shortest_ancestor(parts) || k > parts.len() {
        0
    } else if stop matches Some(s) && parts.subrange(0, k as int) == s {
        0
    } else if k == 0 {
        1
    } else {
        1 + ancestors_before(parts, stop, (k - 1) as nat)
    }
}

impl PythonVersionFile {
    pub closed spec fn path_view(&self) -> Seq<char> {
        self.path@
    }

    pub closed spec fn versions_view(&self) -> Seq<RequestView> {
        requests_view(self.versions@)
    }

    /// Create a new representation of a version file at the given path, with
    /// no versions.
    pub fn new(path: String) -> (r: PythonVersionFile)
        ensures
            r.path_view() == path@,
            r.versions_view().len() == 0,
    {
        let r = PythonVersionFile { path, versions: Vec::new() };
        assert(r.versions_view() =~= Seq::<RequestView>::empty());
        r
    }

    /// Return the first request declared in the file, if any.
    pub fn version(&self) -> (r: Option<&PythonRequest>)
        ensures
            r is None <==> self.versions_view().len() == 0,
            r matches Some(v) ==> v@ == self.versions_view()[0],
    {
        if self.versions.len() > 0 {
            Some(&self.versions[0])
        } else {
            None
        }
    }

    /// All requests declared in the file, in order.
    pub fn versions(&self) -> (r: &Vec<PythonRequest>)
        ensures
            requests_view(r@) == self.versions_view(),
    {
        &self.versions
    }

    /// Cast to a list of all versions declared in the file.
    pub fn into_versions(self) -> (r: Vec<PythonRequest>)
        ensures
            requests_view(r@) == self.versions_view(),
    {
        self.versions
    }

    /// Cast to the first version declared in the file, if any.
    pub fn into_version(self) -> (r: Option<PythonRequest>)
        ensures
            r is None <==> self.versions_view().len() == 0,
            r matches Some(v) ==> v@ == self.versions_view()[0],
    {
        let mut versions = self.versions;
        if versions.len() > 0 {
            Some(versions.remove(0))
        } else {
            None
        }
    }

    /// Return the path to the version file.
    pub fn path(&self) -> (r: &str)
        ensures
            r@ == self.path_view(),
    {
        self.path.as_str()
    }

    /// Return the file name of the version file: the last component of its
    /// path. A version file found by discovery always ends in
    /// `.python-version` or `.python-versions`; for a path built by hand that
    /// ends in no name (`/`, `..`) this returns the empty string rather than
    /// failing.
    pub fn file_name(&self) -> (r: String)
        ensures
            parts_of(self.path_view()).len() > 0 && parts_of(self.path_view()).last() is Name
                ==> r@ == parts_of(self.path_view()).last()->Name_0,
            !(parts_of(self.path_view()).len() > 0 && parts_of(self.path_view()).last() is Name)
                ==> r@.len() == 0,
    {
        let parts = components(self.path.as_str());
        let n = parts.len();
        if n > 0 {
            assert(parts_view(parts@).last() == parts@[n - 1]@);
            match &parts[n - 1] {
                Component::Normal(name) => return name.clone(),
                _ => {},
            }
        }
        String::new()
    }

    /// Set the versions for the file.
    pub fn with_versions(self, versions: Vec<PythonRequest>) -> (r: PythonVersionFile)
        ensures
            r.path_view() == self.path_view(),
            r.versions_view() == requests_view(versions@),
    {
        PythonVersionFile { path: self.path, versions }
    }

    /// A version file read from `path`, holding the requests read from its
    /// lines in order, but for bare executable names, which a version file
    /// does not support; those names come back second, for a warning.
    pub fn from_requests(path: String, requests: Vec<PythonRequest>) -> (r: (
        PythonVersionFile,
        Vec<String>,
    ))
        ensures
            r.0.path_view() == path@,
            r.0.versions_view() == supported(requests_view(requests@)),
            r.1@.len() == requests@.len() - supported(requests_view(requests@)).len(),
            r.1@.map_values(|s: String| RequestView::ExecutableName(s@)) == requests_view(
                requests@,
            ).filter(|q: RequestView| q is ExecutableName),
    {
        let ghost all = requests_view(requests@);
        let mut kept: Vec<PythonRequest> = Vec::new();
        let mut ignored: Vec<String> = Vec::new();
        let mut i: usize = 0;
        while i < requests.len()
            invariant
                i <= requests@.len(),
                all == requests_view(requests@),
                requests_view(kept@) == supported(all.subrange(0, i as int)),
                ignored@.map_values(|s: String| RequestView::ExecutableName(s@)) == all.subrange(
                    0,
                    i as int,
                ).filter(|q: RequestView| q is ExecutableName),
                kept@.len() + ignored@.len() == i,
            decreases requests@.len() - i,
        {
            let ghost sub = all.subrange(0, i + 1);
            assert(sub.drop_last() =~= all.subrange(0, i as int));
            assert(sub.last() == requests@[i as int]@);
            let ghost k0 = requests_view(kept@);
            let ghost g0 = ignored@.map_values(|s: String| RequestView::ExecutableName(s@));
            proof {
                reveal_with_fuel(Seq::filter, 1);
            }
            match &requests[i] {
                PythonRequest::ExecutableName(name) => {
                    ignored.push(name.clone());
                    assert(ignored@.map_values(|s: String| RequestView::ExecutableName(s@))
                        =~= g0.push(RequestView::ExecutableName(name@)));
                    assert(requests_view(kept@) =~= supported(sub));
                },
                other => {
                    kept.push(other.clone_request());
                    assert(requests_view(kept@) =~= k0.push(other@));
                },
            }
            i += 1;
        }
        assert(all.subrange(0, requests@.len() as int) =~= all);
        proof {
            all.lemma_filter_len(|r: RequestView| !(r is ExecutableName));
            lemma_filter_split(all);
        }
        (PythonVersionFile { path, versions: kept }, ignored)
    }

    /// The text written to the file: each request in its canonical form on a
    /// line of its own.
    pub fn to_contents(&self) -> (r: String)
        ensures
            r@ == contents_of(self.versions_view()),
    {
        let mut out = String::new();
        let mut i: usize = 0;
        while i < self.versions.len()
            invariant
                i <= self.versions@.len(),
                out@ == contents_of(self.versions_view().subrange(0, i as int)),
            decreases self.versions@.len() - i,
        {
            let ghost sub = self.versions_view().subrange(0, i + 1);
            assert(sub.drop_last() =~= self.versions_view().subrange(0, i as int));
            assert(sub.last() == self.versions@[i as int]@);
            let s = self.versions[i].to_canonical_string();
            push_str(&mut out, s.as_str());
            push_char(&mut out, '\n');
            i += 1;
        }
        assert(self.versions_view().subrange(0, self.versions@.len() as int)
            =~= self.versions_view());
        out
    }
}

/// The text of a version file holding the requests.
pub open spec fn contents_of(v: Seq<RequestView>) -> Seq<char>
    decreases v.len(),
{
    if v.len() == 0 {
        seq![]
    } else {
        contents_of(v.drop_last()) + canonical(v.last()) + seq!['\n']
    }
}

/// A version file that lists only bare executable names keeps no request,
/// and every one of them is reported.
pub proof fn lemma_only_executable_names(requests: Seq<RequestView>)
    requires
        forall|i: int| 0 <= i < requests.len() ==> #[trigger] requests[i] is ExecutableName,
    ensures
        supported(requests).len() == 0,
        requests.filter(|q: RequestView| q is ExecutableName) == requests,
    decreases requests.len(),
{
    reveal_with_fuel(Seq::filter, 1);
    if requests.len() > 0 {
        let init = requests.drop_last();
        assert forall|i: int| 0 <= i < init.len() implies #[trigger] init[i] is ExecutableName by {
            assert(init[i] == requests[i]);
        }
        lemma_only_executable_names(init);
        assert(requests.last() == requests[requests.len() - 1]);
        assert(init.push(requests.last()) =~= requests);
    } else {
        assert(requests.filter(|q: RequestView| q is ExecutableName) =~= requests);
    }
}

proof fn lemma_filter_split(all: Seq<RequestView>)
    ensures
        all.filter(|q: RequestView| q is ExecutableName).len() + supported(all).len() == all.len(),
    decreases all.len(),
{
    reveal_with_fuel(Seq::filter, 1);
    if all.len() > 0 {
        lemma_filter_split(all.drop_last());
    }
}

impl PythonRequest {
    pub fn clone_request(&self) -> (r: PythonRequest)
        ensures
            r@ == self@,
    {
        match self {
            PythonRequest::Default => PythonRequest::Default,
            PythonRequest::Any => PythonRequest::Any,
            PythonRequest::Version(v) => PythonRequest::Version(v.clone()),
            PythonRequest::Directory(p) => PythonRequest::Directory(p.clone()),
            PythonRequest::File(p) => PythonRequest::File(p.clone()),
            PythonRequest::ExecutableName(n) => PythonRequest::ExecutableName(n.clone()),
            PythonRequest::Implementation(n) => PythonRequest::Implementation(n.clone()),
            PythonRequest::ImplementationVersion(n, v) => PythonRequest::ImplementationVersion(
                n.clone(),
                v.clone(),
            ),
        }
    }
}

/// The lines of a version file that hold a request, in order: blank lines and
/// lines that start with `#` once trimmed are skipped.
pub fn request_lines(content: &str) -> (r: Vec<String>)
    ensures
        r@.map_values(|s: String| s@) == request_lines_of(content@),
{
    let all = lines(content);
    let ghost lv = all@.map_values(|s: String| s@);
    let mut out: Vec<String> = Vec::new();
    let mut i: usize = 0;
    while i < all.len()
        invariant
            i <= all@.len(),
            lv == all@.map_values(|s: String| s@),
            lv == lines_of(content@),
            out@.map_values(|s: String| s@) == lv.subrange(0, i as int).filter(
                |l: Seq<char>| !(trimmed(l).len() == 0 || trimmed(l)[0] == '#'),
            ),
        decreases all@.len() - i,
    {
        let ghost sub = lv.subrange(0, i + 1);
        assert(sub.drop_last() =~= lv.subrange(0, i as int));
        assert(sub.last() == all@[i as int]@);
        let ghost before = out@.map_values(|s: String| s@);
        let t = trim(all[i].as_str());
        let keep = !(t.unicode_len() == 0 || t.get_char(0) == '#');
        if keep {
            out.push(all[i].clone());
            assert(out@.map_values(|s: String| s@) =~= before.push(all@[i as int]@));
        }
        i += 1;
        proof {
            reveal_with_fuel(Seq::filter, 1);
        }
    }
    assert(lv.subrange(0, all@.len() as int) =~= lv);
    out
}

/// Where the version files of a directory are, the preferred one first.
pub fn candidate_paths(dir: &str, preference: FilePreference) -> (r: (String, String))
    ensures
        preference == FilePreference::Version ==> r.0@ == join_name(
            dir@,
            PYTHON_VERSION_FILENAME@,
        ) && r.1@ == join_name(dir@, PYTHON_VERSIONS_FILENAME@),
        preference == FilePreference::Versions ==> r.0@ == join_name(
            dir@,
            PYTHON_VERSIONS_FILENAME@,
        ) && r.1@ == join_name(dir@, PYTHON_VERSION_FILENAME@),
{
    let version_path = join(dir, PYTHON_VERSION_FILENAME);
    let versions_path = join(dir, PYTHON_VERSIONS_FILENAME);
    match preference {
        FilePreference::Versions => (versions_path, version_path),
        FilePreference::Version => (version_path, versions_path),
    }
}

/// Pushes a name onto a path.
pub fn join(dir: &str, name: &str) -> (r: String)
    ensures
        r@ == join_name(dir@, name@),
{
    let mut out = String::new();
    push_str(&mut out, dir);
    let n = dir.unicode_len();
    if n > 0 && dir.get_char(n - 1) != '/' {
        push_char(&mut out, '/');
    }
    push_str(&mut out, name);
    out
}

/// The version file of a directory: the preferred one of the two where it
/// is a file, else the other where that is. `version_is_file` and
/// `versions_is_file` say which of `.python-version` and `.python-versions`
/// are files there.
pub fn find_in_directory(
    dir: &str,
    options: &DiscoveryOptions,
    version_is_file: bool,
    versions_is_file: bool,
) -> (r: Option<String>)
    ensures
        ({
            let version = join_name(dir@, PYTHON_VERSION_FILENAME@);
            let versions = join_name(dir@, PYTHON_VERSIONS_FILENAME@);
            let (first, first_is_file, second, second_is_file) = if options.preference
                == FilePreference::Version {
                (version, version_is_file, versions, versions_is_file)
            } else {
                (versions, versions_is_file, version, version_is_file)
            };
            &&& r is None <==> !first_is_file && !second_is_file
            &&& first_is_file ==> (r matches Some(p) && p@ == first)
            &&& !first_is_file && second_is_file ==> (r matches Some(p) && p@ == second)
        }),
{
    let (first, second) = candidate_paths(dir, options.preference);
    let (first_exists, second_exists) = match options.preference {
        FilePreference::Version => (version_is_file, versions_is_file),
        FilePreference::Versions => (versions_is_file, version_is_file),
    };
    if first_exists {
        Some(first)
    } else if second_exists {
        Some(second)
    } else {
        None
    }
}

/// The directories searched for a version file, from `working_directory`
/// upward: each ancestor in turn, stopping before the parent of
/// `options.stop_discovery_at` where that is given.
#[verifier::rlimit(40)]
#[verifier::spinoff_prover]
pub fn search_directories(working_directory: &str, options: &DiscoveryOptions) -> (r: Vec<String>)
    ensures
        ({
            let wd = parts_of(working_directory@);
            let stop = match options.stop_discovery_at {
                Some(s) => parent_parts(parts_of(s@)),
                None => None,
            };
            &&& r@.len() == ancestors_before(wd, stop, wd.len())
            &&& forall|i: int|
                0 <= i < r@.len() ==> #[trigger] r@[i]@ == render(
                    wd.subrange(0, wd.len() - i),
                )
        }),
{
    let wd = components(working_directory);
    let ghost wdv = parts_view(wd@);
    let stop: Option<Vec<Component>> = match &options.stop_discovery_at {
        Some(s) => {
            let sp = components(s.as_str());
            let n = sp.len();
            if n == 0 || (n == 1 && is_root(&sp[0])) {
                assert(n == 1 ==> parts_view(sp@) =~= seq![Part::Root]);
                None
            } else {
                let mut p = sp;
                p.pop();
                assert(parts_view(p@) =~= parts_view(sp@).drop_last());
                assert(n == 1 ==> parts_view(sp@) != seq![Part::Root]) by {
                    if n == 1 && parts_view(sp@) == seq![Part::Root] {
                        assert(parts_view(sp@)[0] == sp@[0]@);
                    }
                }
                Some(p)
            }
        },
        None => None,
    };
    let ghost stopv = match &stop {
        Some(p) => Some(parts_view(p@)),
        None => None,
    };
    let min: usize = if wd.len() > 0 && is_root(&wd[0]) {
        1
    } else {
        0
    };
    let ghost n = wdv.len();
    let ghost total = ancestors_before(wdv, stopv, n);
    let mut out: Vec<String> = Vec::new();
    let mut k: usize = wd.len();
    let mut done = false;
    while !done
        invariant
            wdv == parts_view(wd@),
            wdv == parts_of(working_directory@),
            stopv == match options.stop_discovery_at {
                Some(s) => parent_parts(parts_of(s@)),
                None => None,
            },
            match stop {
                Some(p) => stopv == Some(parts_view(p@)),
                None => stopv is None,
            },
            n == wdv.len(),
            total == ancestors_before(wdv, stopv, n),
            k <= n,
            min as nat == shortest_ancestor(wdv),
            !done ==> out@.len() == n - k,
            !done ==> out@.len() + ancestors_before(wdv, stopv, k as nat) == total,
            done ==> out@.len() == total,
            forall|i: int|
                0 <= i < out@.len() ==> #[trigger] out@[i]@ == render(wdv.subrange(0, n - i)),
        decreases k + (if done {
            0int
        } else {
            1int
        }),
    {
        if k < min {
            done = true;
        } else {
            let prefix = prefix_of(&wd, k);
            let at_stop = match &stop {
                Some(s) => same_parts(&prefix, s),
                None => false,
            };
            if at_stop {
                done = true;
            } else {
                let shown = render_components(&prefix);
                out.push(shown);
                if k == 0 {
                    done = true;
                } else {
                    k -= 1;
                }
            }
        }
    }
    out
}

fn is_root(c: &Component) -> (r: bool)
    ensures
        r == (c@ is Root),
{
    match c {
        Component::RootDir => true,
        _ => false,
    }
}

fn copy_component(c: &Component) -> (r: Component)
    ensures
        r@ == c@,
{
    match c {
        Component::RootDir => Component::RootDir,
        Component::CurDir => Component::CurDir,
        Component::ParentDir => Component::ParentDir,
        Component::Normal(s) => Component::Normal(s.clone()),
    }
}

fn prefix_of(v: &Vec<Component>, k: usize) -> (r: Vec<Component>)
    requires
        k <= v@.len(),
    ensures
        parts_view(r@) == parts_view(v@).subrange(0, k as int),
{
    let mut out: Vec<Component> = Vec::new();
    let mut i: usize = 0;
    while i < k
        invariant
            k <= v@.len(),
            i <= k,
            parts_view(out@) == parts_view(v@).subrange(0, i as int),
        decreases k - i,
    {
        let ghost before = parts_view(out@);
        let c = copy_component(&v[i]);
        out.push(c);
        i += 1;
        assert(parts_view(out@) =~= before.push(c@));
        assert(before.push(c@) =~= parts_view(v@).subrange(0, i as int));
    }
    out
}

fn same_parts(a: &Vec<Component>, b: &Vec<Component>) -> (r: bool)
    ensures
        r == (parts_view(a@) == parts_view(b@)),
{
    if a.len() != b.len() {
        assert(parts_view(a@).len() != parts_view(b@).len());
        return false;
    }
    let mut i: usize = 0;
    while i < a.len()
        invariant
            a@.len() == b@.len(),
            i <= a@.len(),
            forall|j: int| 0 <= j < i ==> a@[j]@ == b@[j]@,
        decreases a@.len() - i,
    {
        let same = match (&a[i], &b[i]) {
            (Component::RootDir, Component::RootDir) => true,
            (Component::CurDir, Component::CurDir) => true,
            (Component::ParentDir, Component::ParentDir) => true,
            (Component::Normal(x), Component::Normal(y)) => x.eq(y),
            _ => false,
        };
        if !same {
            assert(parts_view(a@)[i as int] != parts_view(b@)[i as int]);
            return false;
        }
        i += 1;
    }
    assert(parts_view(a@) =~= parts_view(b@));
    true
}

/// The version file that discovery reads: the one found in the working
/// directory's ancestors unless local files are ignored, else the global
/// one; none at all under `no_config`.
pub fn version_file_to_read(
    options: &DiscoveryOptions,
    local: Option<String>,
    global: Option<String>,
) -> (r: Option<String>)
    ensures
        options.no_config ==> r is None,
        !options.no_config && !options.no_local && local is Some ==> r == local,
        !options.no_config && (options.no_local || local is None) ==> r == global,
{
    let found = if !options.no_local && local.is_some() {
        local
    } else {
        global
    };
    if options.no_config {
        None
    } else {
        found
    }
}

} // verus!
