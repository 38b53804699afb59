//! The decisions of the distribution database: when a cached unzipped wheel
//! may be used, when it must be fetched or unzipped again, how a failed
//! stream falls back to a download, and how downloads share their permits.
use vstd::prelude::*;

use crate::text::{chars_of, push_char, push_str};

verus! {

/// A hash algorithm that wheels are checked with.
#[derive(Debug, Clone, Copy, PartialEq, Eq, Structural)]
pub enum HashAlgorithm {
    Md5,
    Sha256,
    Sha384,
    Sha512,
    Blake2b,
}

/// A digest of a wheel under one algorithm.
#[derive(Debug, Clone)]
pub struct HashDigest {
    pub algorithm: HashAlgorithm,
    pub digest: String,
}

/// What a caller asks of the hashes of a wheel.
#[derive(Debug, Clone)]
pub enum HashPolicy {
    /// No hashes are needed.
    Skip,
    /// Hashes are computed and returned, but not checked.
    Generate,
    /// Hashes are computed and checked against these digests.
    Validate(Vec<HashDigest>),
}

/// An unzipped wheel in the archive bucket of the cache.
#[derive(Debug, Clone)]
pub struct Archive {
    /// The name of its directory in the archive bucket.
    pub id: String,
    /// The digests computed when it was unzipped.
    pub hashes: Vec<HashDigest>,
    /// The file name of the wheel.
    pub filename: String,
}

impl Archive {
    pub fn new(id: String, hashes: Vec<HashDigest>, filename: String) -> (r: Archive)
        ensures
            r.id == id,
            r.hashes == hashes,
            r.filename == filename,
    {
        Archive { id, hashes, filename }
    }
}

pub open spec fn algorithms_of(digests: Seq<HashDigest>) -> Seq<HashAlgorithm> {
    digests.map_values(|d: HashDigest| d.algorithm)
}

/// The algorithms a policy needs: none, SHA-256 to generate, or those of the
/// digests to validate against.
pub open spec fn policy_algorithms(p: HashPolicy) -> Seq<HashAlgorithm> {
    match p {
        HashPolicy::Skip => seq![],
        HashPolicy::Generate => seq![HashAlgorithm::Sha256],
        HashPolicy::Validate(d) => algorithms_of(d@),
    }
}

/// The archive has a digest under every algorithm the policy needs.
pub open spec fn has_digests_spec(archive: Archive, policy: HashPolicy) -> bool {
    forall|i: int|
        0 <= i < policy_algorithms(policy).len() ==> algorithms_of(archive.hashes@).contains(
            #[trigger] policy_algorithms(policy)[i],
        )
}

fn has_algorithm(digests: &Vec<HashDigest>, algorithm: HashAlgorithm) -> (r: bool)
    ensures
        r == algorithms_of(digests@).contains(algorithm),
{
    let mut i: usize = 0;
    while i < digests.len()
        invariant
            i <= digests@.len(),
            forall|j: int| 0 <= j < i ==> digests@[j].algorithm != algorithm,
        decreases digests@.len() - i,
    {
        if digests[i].algorithm == algorithm {
            assert(algorithms_of(digests@)[i as int] == algorithm);
            return true;
        }
        i += 1;
    }
    assert(!algorithms_of(digests@).contains(algorithm)) by {
        if algorithms_of(digests@).contains(algorithm) {
            let j = choose|j: int|
                0 <= j < algorithms_of(digests@).len() && algorithms_of(digests@)[j] == algorithm;
            assert(digests@[j].algorithm == algorithm);
        }
    }
    false
}

impl HashPolicy {
    pub fn is_skip(&self) -> (r: bool)
        ensures
            r == (*self is Skip),
    {
        match self {
            HashPolicy::Skip => true,
            _ => false,
        }
    }
}

impl HashPolicy {
    /// The algorithms the policy needs.
    pub fn algorithms(&self) -> (r: Vec<HashAlgorithm>)
        ensures
            r@ == policy_algorithms(*self),
    {
        match self {
            HashPolicy::Skip => {
                let v: Vec<HashAlgorithm> = Vec::new();
                assert(v@ =~= policy_algorithms(*self));
                v
            },
            HashPolicy::Generate => {
                let v = vec![HashAlgorithm::Sha256];
                assert(v@ =~= policy_algorithms(*self));
                v
            },
            HashPolicy::Validate(digests) => {
                let mut v: Vec<HashAlgorithm> = Vec::new();
                let mut i: usize = 0;
                while i < digests.len()
                    invariant
                        i <= digests@.len(),
                        v@ == algorithms_of(digests@).subrange(0, i as int),
                    decreases digests@.len() - i,
                {
                    v.push(digests[i].algorithm);
                    i += 1;
                    assert(v@ =~= algorithms_of(digests@).subrange(0, i as int));
                }
                assert(algorithms_of(digests@).subrange(0, digests@.len() as int) =~= algorithms_of(
                    digests@,
                ));
                v
            },
        }
    }
}

impl Archive {
    /// Returns `true` if the archive has all the digests the policy needs.
    pub fn has_digests(&self, policy: &HashPolicy) -> (r: bool)
        ensures
            r == has_digests_spec(*self, *policy),
    {
        let algorithms = policy.algorithms();
        let mut i: usize = 0;
        while i < algorithms.len()
            invariant
                i <= algorithms@.len(),
                algorithms@ == policy_algorithms(*policy),
                forall|j: int|
                    0 <= j < i ==> algorithms_of(self.hashes@).contains(#[trigger] algorithms@[j]),
            decreases algorithms@.len() - i,
        {
            if !has_algorithm(&self.hashes, algorithms[i]) {
                return false;
            }
            i += 1;
        }
        true
    }
}

/// A pointer to an archive in the cache, fetched from an HTTP archive;
/// represented on disk by a `.http` file.
#[derive(Debug, Clone)]
pub struct HttpArchivePointer {
    archive: Archive,
}

impl HttpArchivePointer {
    pub fn new(archive: Archive) -> (r: HttpArchivePointer)
        ensures
            r.archive() == archive,
    {
        HttpArchivePointer { archive }
    }

    pub closed spec fn archive(&self) -> Archive {
        self.archive
    }

    /// Return the [`Archive`] from the pointer.
    pub fn into_archive(self) -> (r: Archive)
        ensures
            r == self.archive(),
    {
        self.archive
    }
}

/// A modification time, as seconds and nanoseconds.
#[derive(Debug, Clone, Copy, PartialEq, Eq, Structural)]
pub struct Timestamp {
    pub seconds: i64,
    pub nanos: u32,
}

/// A pointer to an archive in the cache, fetched from a local path;
/// represented on disk by a `.rev` file.
#[derive(Debug, Clone)]
pub struct LocalArchivePointer {
    pub timestamp: Timestamp,
    pub archive: Archive,
}

impl LocalArchivePointer {
    /// Returns `true` if the archive is up-to-date with the given modified timestamp.
    pub fn is_up_to_date(&self, modified: Timestamp) -> (r: bool)
        ensures
            r == (self.timestamp == modified),
    {
        self.timestamp == modified
    }

    /// Return the [`Archive`] from the pointer.
    pub fn into_archive(self) -> (r: Archive)
        ensures
            r == self.archive,
    {
        self.archive
    }
}

/// What to do with an archive that the HTTP cache handed back.
#[derive(Debug, Clone)]
pub enum CachedArchiveStep {
    /// Use the archive.
    Use(Archive),
    /// Fetch again, bypassing the cache, and rewrite the pointer.
    Refresh,
}

/// An archive that the HTTP cache handed back is used only where its
/// directory still exists (`exists`) and it has the digests the policy
/// needs; otherwise the wheel is fetched again and the pointer rewritten.
pub fn cached_archive_step(archive: Archive, policy: &HashPolicy, exists: bool) -> (r:
    CachedArchiveStep)
    ensures
        !exists ==> r is Refresh,
        r is Use <==> exists && has_digests_spec(archive, *policy),
        r matches CachedArchiveStep::Use(a) ==> a == archive,
{
    if archive.has_digests(policy) && exists {
        CachedArchiveStep::Use(archive)
    } else {
        CachedArchiveStep::Refresh
    }
}

/// What to do for a wheel on the local file system.
#[derive(Debug, Clone)]
pub enum LocalWheelStep {
    /// The unzipped archive the pointer names is current: use it.
    Reuse(Archive),
    /// Unzip the wheel without hashing it, then write the pointer.
    Unzip,
    /// Unzip the wheel while hashing it, then write the pointer.
    HashAndUnzip,
}

/// The decision for a local wheel modified at `modified`: its `.rev` pointer,
/// where there is one, is used when it was written for that modification time
/// and its archive has the digests the policy needs; otherwise the wheel is
/// unzipped again, and hashed on the way where the policy needs hashes.
pub fn local_wheel_step(
    pointer: Option<LocalArchivePointer>,
    modified: Timestamp,
    policy: &HashPolicy,
) -> (r: LocalWheelStep)
    ensures
        r is Reuse <==> (pointer matches Some(p) && p.timestamp == modified && has_digests_spec(
            p.archive,
            *policy,
        )),
        r matches LocalWheelStep::Reuse(a) ==> pointer matches Some(p) && a == p.archive,
        r is Unzip <==> !(r is Reuse) && *policy is Skip,
        r is HashAndUnzip <==> !(r is Reuse) && !(*policy is Skip),
{
    if let Some(p) = pointer {
        if p.is_up_to_date(modified) {
            let archive = p.into_archive();
            if archive.has_digests(policy) {
                return LocalWheelStep::Reuse(archive);
            }
        }
    }
    if policy.is_skip() {
        LocalWheelStep::Unzip
    } else {
        LocalWheelStep::HashAndUnzip
    }
}

/// Where a built distribution comes from.
#[derive(Debug, Clone, Copy, PartialEq, Eq, Structural)]
pub enum WheelSource {
    /// A wheel from a registry.
    Registry,
    /// A wheel at a direct URL.
    DirectUrl,
    /// A wheel on the local file system.
    Path,
}

/// How a wheel is first fetched.
#[derive(Debug, Clone, Copy, PartialEq, Eq, Structural)]
pub enum FetchStep {
    /// Stream the download straight into the unzipper.
    Stream,
    /// Read the wheel from disk.
    Load,
}

/// Registry wheels behind a `file://` URL and local wheels are read from
/// disk; the rest are streamed.
pub fn first_fetch_step(source: WheelSource, url_is_file: bool) -> (r: FetchStep)
    ensures
        r == FetchStep::Load <==> (source == WheelSource::Path || (source
            == WheelSource::Registry && url_is_file)),
{
    match source {
        WheelSource::Registry => if url_is_file {
            FetchStep::Load
        } else {
            FetchStep::Stream
        },
        WheelSource::DirectUrl => FetchStep::Stream,
        WheelSource::Path => FetchStep::Load,
    }
}

/// How streaming a wheel failed.
#[derive(Debug, Clone, Copy, PartialEq, Eq, Structural)]
pub enum StreamFailure {
    /// Unzipping the stream failed because the server does not support it.
    ExtractStreamingUnsupported,
    /// Unzipping the stream failed part-way through the download.
    ExtractStreamingFailed,
    /// Unzipping failed for another reason.
    ExtractOther,
    /// The client reported that the server does not support streaming.
    ClientStreamingUnsupported,
    /// Any other failure.
    Other,
}

/// Whether a failed stream falls back to downloading the wheel to disk:
/// for a registry wheel, on an unzip error that streaming caused; for a wheel
/// at a direct URL, when the client reports streaming unsupported.
pub fn falls_back_to_download(source: WheelSource, failure: StreamFailure) -> (r: bool)
    ensures
        r == ((source == WheelSource::Registry && (failure
            == StreamFailure::ExtractStreamingUnsupported || failure
            == StreamFailure::ExtractStreamingFailed)) || (source == WheelSource::DirectUrl
            && failure == StreamFailure::ClientStreamingUnsupported)),
{
    match source {
        WheelSource::Registry => match failure {
            StreamFailure::ExtractStreamingUnsupported => true,
            StreamFailure::ExtractStreamingFailed => true,
            _ => false,
        },
        WheelSource::DirectUrl => match failure {
            StreamFailure::ClientStreamingUnsupported => true,
            _ => false,
        },
        WheelSource::Path => false,
    }
}

/// How fresh a cached HTTP entry is.
#[derive(Debug, Clone, Copy, PartialEq, Eq, Structural)]
pub enum Freshness {
    Fresh,
    Stale,
    Missing,
}

/// How the HTTP cache is consulted.
#[derive(Debug, Clone, Copy, PartialEq, Eq, Structural)]
pub enum CacheControl {
    /// Follow the cached policy.
    Default,
    /// Revalidate the cached entry with the server.
    MustRevalidate,
    /// Use whatever is cached, however old.
    AllowStale,
}

/// Offline, anything cached is used; online, a stale entry is revalidated.
pub fn cache_control(online: bool, freshness: Freshness) -> (r: CacheControl)
    ensures
        !online ==> r == CacheControl::AllowStale,
        online ==> (r == CacheControl::MustRevalidate <==> freshness == Freshness::Stale),
        online ==> (r == CacheControl::Default <==> freshness != Freshness::Stale),
{
    if !online {
        CacheControl::AllowStale
    } else {
        match freshness {
            Freshness::Stale => CacheControl::MustRevalidate,
            _ => CacheControl::Default,
        }
    }
}

fn with_suffix(stem: &str, suffix: &str) -> (r: String)
    ensures
        r@ == stem@ + suffix@,
{
    let mut s = String::new();
    push_str(&mut s, stem);
    push_str(&mut s, suffix);
    s
}

/// The file of the HTTP cache entry of a wheel.
pub fn http_pointer_file(cache_key: &str) -> (r: String)
    ensures
        r@ == cache_key@ + ".http"@,
{
    with_suffix(cache_key, ".http")
}

/// The file of the pointer of a local wheel.
pub fn local_pointer_file(cache_key: &str) -> (r: String)
    ensures
        r@ == cache_key@ + ".rev"@,
{
    with_suffix(cache_key, ".rev")
}

/// The file of the advisory lock of a wheel.
pub fn lock_file(stem: &str) -> (r: String)
    ensures
        r@ == stem@ + ".lock"@,
{
    with_suffix(stem, ".lock")
}

/// The decimal digits of a number.
pub open spec fn decimal_digits(n: nat) -> Seq<char>
    decreases n,
{
    if n < 10 {
        seq![digit_char(n)]
    } else {
        decimal_digits(n / 10) + seq![digit_char(n % 10)]
    }
}

pub open spec fn digit_char(d: nat) -> char {
    seq!['0', '1', '2', '3', '4', '5', '6', '7', '8', '9'][d as int]
}

fn digit_to_char(d: u64) -> (r: char)
    requires
        d < 10,
    ensures
        r == digit_char(d as nat),
{
    let digits = ['0', '1', '2', '3', '4', '5', '6', '7', '8', '9'];
    assert(digits@ =~= seq!['0', '1', '2', '3', '4', '5', '6', '7', '8', '9']);
    digits[d as usize]
}

/// Appends the decimal digits of `n`.
pub fn push_decimal(out: &mut String, n: u64)
    ensures
        final(out)@ == old(out)@ + decimal_digits(n as nat),
    decreases n,
{
    if n >= 10 {
        push_decimal(out, n / 10);
    }
    push_char(out, digit_to_char(n % 10));
}

/// The message of a download that timed out, with the timeout in force.
pub fn timeout_message(timeout_secs: u64) -> (r: String)
    ensures
        r@ == "Failed to download distribution due to network timeout. Try increasing UV_HTTP_TIMEOUT (current value: "@
            + decimal_digits(timeout_secs as nat) + "s)."@,
{
    let mut s = String::new();
    push_str(
        &mut s,
        "Failed to download distribution due to network timeout. Try increasing UV_HTTP_TIMEOUT (current value: ",
    );
    push_decimal(&mut s, timeout_secs);
    push_str(&mut s, "s).");
    s
}

// ---------------------------------------------------------------------------
// Decimal numbers.

pub open spec fn digit_value(c: char) -> Option<nat> {
    if c == '0' {
        Some(0)
    } else if c == '1' {
        Some(1)
    } else if c == '2' {
        Some(2)
    } else if c == '3' {
        Some(3)
    } else if c == '4' {
        Some(4)
    } else if c == '5' {
        Some(5)
    } else if c == '6' {
        Some(6)
    } else if c == '7' {
        Some(7)
    } else if c == '8' {
        Some(8)
    } else if c == '9' {
        Some(9)
    } else {
        None
    }
}

pub open spec fn is_decimal_digit(c: char) -> bool {
    digit_value(c) is Some
}

fn digit_of(c: char) -> (r: Option<u64>)
    ensures
        r is Some <==> digit_value(c) is Some,
        r matches Some(d) ==> d as nat == digit_value(c)->0,
{
    match c {
        '0' => Some(0),
        '1' => Some(1),
        '2' => Some(2),
        '3' => Some(3),
        '4' => Some(4),
        '5' => Some(5),
        '6' => Some(6),
        '7' => Some(7),
        '8' => Some(8),
        '9' => Some(9),
        _ => None,
    }
}

/// The value of a string of decimal digits.
pub open spec fn digits_value(s: Seq<char>) -> nat
    decreases s.len(),
{
    if s.len() == 0 {
        0
    } else {
        digits_value(s.drop_last()) * 10 + match digit_value(s.last()) {
            Some(v) => v,
            None => 0,
        }
    }
}

/// The digits of an unsigned number as `str::parse` reads it: the text after
/// an optional `+`.
pub open spec fn unsigned_digits(s: Seq<char>) -> Seq<char> {
    if s.len() > 0 && s[0] == '+' {
        s.drop_first()
    } else {
        s
    }
}

/// One or more decimal digits.
pub open spec fn all_digits(d: Seq<char>) -> bool {
    d.len() > 0 && forall|i: int| 0 <= i < d.len() ==> is_decimal_digit(#[trigger] d[i])
}

/// Reads an unsigned number no greater than `max`: an optional `+`, then one
/// or more decimal digits.
pub fn parse_unsigned(s: &str, max: u64) -> (r: Option<u64>)
    ensures
        r is Some <==> all_digits(unsigned_digits(s@)) && digits_value(unsigned_digits(s@)) <= max,
        r matches Some(n) ==> n as nat == digits_value(unsigned_digits(s@)),
{
    let chars = chars_of(s);
    let start: usize = if chars.len() > 0 && chars[0] == '+' {
        1
    } else {
        0
    };
    let ghost d = unsigned_digits(s@);
    assert(d =~= s@.subrange(start as int, s@.len() as int));
    if start == chars.len() {
        return None;
    }
    let mut value: u64 = 0;
    let mut i: usize = start;
    while i < chars.len()
        invariant
            chars@ == s@,
            start <= i <= chars@.len(),
            d == s@.subrange(start as int, s@.len() as int),
            d == unsigned_digits(s@),
            forall|j: int| 0 <= j < i - start ==> is_decimal_digit(#[trigger] d[j]),
            value as nat == digits_value(d.subrange(0, i - start)),
            value <= max,
        decreases chars@.len() - i,
    {
        let c = chars[i];
        assert(d[i - start] == c);
        let digit = match digit_of(c) {
            Some(v) => v,
            None => {
                assert(!is_decimal_digit(d[i - start]));
                assert(!all_digits(d));
                return None;
            },
        };
        assert(d.subrange(0, i - start + 1).drop_last() =~= d.subrange(0, i - start));
        assert(d.subrange(0, i - start + 1).last() == c);
        assert(digits_value(d.subrange(0, i - start + 1)) == value * 10 + digit);
        if digit > max || value > (max - digit) / 10 {
            proof {
                assert(value * 10 + digit > max) by (nonlinear_arith)
                    requires
                        digit > max || value > (max - digit) / 10,
                        digit <= max ==> max - digit >= 0,
                ;
                lemma_digits_monotone(d, (i - start + 1) as int);
            }
            return None;
        }
        proof {
            assert(value * 10 + digit <= max) by (nonlinear_arith)
                requires
                    digit <= max,
                    value <= (max - digit) / 10,
            ;
        }
        value = value * 10 + digit;
        i += 1;
    }
    assert(d.subrange(0, d.len() as int) =~= d);
    Some(value)
}

proof fn lemma_digits_monotone(d: Seq<char>, k: int)
    requires
        0 <= k <= d.len(),
    ensures
        digits_value(d) >= digits_value(d.subrange(0, k)),
    decreases d.len() - k,
{
    if k < d.len() {
        lemma_digits_monotone(d, k + 1);
        assert(d.subrange(0, k + 1).drop_last() =~= d.subrange(0, k));
        let prev = digits_value(d.subrange(0, k));
        let next = digits_value(d.subrange(0, k + 1));
        assert(next >= prev * 10);
        assert(prev * 10 >= prev) by (nonlinear_arith)
            requires
                prev >= 0,
        ;
    } else {
        assert(d.subrange(0, k) =~= d);
    }
}

/// The `Content-Length` of a response, where its header reads as a number.
pub fn content_length(header: Option<&str>) -> (r: Option<u64>)
    ensures
        header is None ==> r is None,
        header matches Some(h) ==> (r is Some <==> all_digits(unsigned_digits(h@))
            && digits_value(unsigned_digits(h@)) <= u64::MAX),
        header matches Some(h) ==> (r matches Some(n) ==> n as nat == digits_value(
            unsigned_digits(h@),
        )),
{
    match header {
        Some(h) => parse_unsigned(h, u64::MAX),
        None => None,
    }
}

// ---------------------------------------------------------------------------
// Download permits.

/// The permits that bound how many downloads run at once.
#[derive(Debug)]
pub struct DownloadPermits {
    limit: usize,
    in_use: usize,
}

impl DownloadPermits {
    pub closed spec fn limit_spec(&self) -> nat {
        self.limit as nat
    }

    pub closed spec fn in_use_spec(&self) -> nat {
        self.in_use as nat
    }

    pub open spec fn wf(&self) -> bool {
        self.in_use_spec() <= self.limit_spec()
    }

    /// Permits for at most `concurrency` downloads at once.
    pub fn new(concurrency: usize) -> (r: DownloadPermits)
        ensures
            r.wf(),
            r.limit_spec() == concurrency,
            r.in_use_spec() == 0,
    {
        DownloadPermits { limit: concurrency, in_use: 0 }
    }

    /// Takes a permit where one is free; a caller that gets none waits.
    pub fn try_acquire(&mut self) -> (r: bool)
        requires
            old(self).wf(),
        ensures
            final(self).wf(),
            final(self).limit_spec() == old(self).limit_spec(),
            r == (old(self).in_use_spec() < old(self).limit_spec()),
            r ==> final(self).in_use_spec() == old(self).in_use_spec() + 1,
            !r ==> final(self).in_use_spec() == old(self).in_use_spec(),
    {
        if self.in_use < self.limit {
            self.in_use = self.in_use + 1;
            true
        } else {
            false
        }
    }

    /// Gives a permit back.
    pub fn release(&mut self)
        requires
            old(self).wf(),
            old(self).in_use_spec() > 0,
        ensures
            final(self).wf(),
            final(self).limit_spec() == old(self).limit_spec(),
            final(self).in_use_spec() == old(self).in_use_spec() - 1,
    {
        self.in_use = self.in_use - 1;
    }

    /// How many permits are free.
    pub fn available(&self) -> (r: usize)
        requires
            self.wf(),
        ensures
            r == self.limit_spec() - self.in_use_spec(),
    {
        self.limit - self.in_use
    }
}

} // verus!
