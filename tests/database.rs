use uv_core::database::{
    cache_control, cached_archive_step, content_length, falls_back_to_download, first_fetch_step,
    http_pointer_file, local_pointer_file, local_wheel_step, lock_file, parse_unsigned,
    timeout_message, Archive, CacheControl, CachedArchiveStep, DownloadPermits, FetchStep,
    Freshness, HashAlgorithm, HashDigest, HashPolicy, HttpArchivePointer, LocalArchivePointer,
    LocalWheelStep, StreamFailure, Timestamp, WheelSource,
};

fn archive(id: &str, algorithms: &[HashAlgorithm]) -> Archive {
    Archive::new(
        id.to_string(),
        algorithms
            .iter()
            .map(|a| HashDigest { algorithm: *a, digest: "00".to_string() })
            .collect(),
        "foo-1.0-py3-none-any.whl".to_string(),
    )
}

#[test]
fn cache_miss_rewrites_pointer() {
    // The pointer names an archive whose directory was removed: fetch again.
    let step = cached_archive_step(archive("a1", &[]), &HashPolicy::Skip, false);
    assert!(matches!(step, CachedArchiveStep::Refresh));
    // An archive that exists is used as it is.
    let step = cached_archive_step(archive("a1", &[]), &HashPolicy::Skip, true);
    assert!(matches!(step, CachedArchiveStep::Use(a) if a.id == "a1"));
}

#[test]
fn cached_archive_needs_digests() {
    let step = cached_archive_step(archive("a1", &[]), &HashPolicy::Generate, true);
    assert!(matches!(step, CachedArchiveStep::Refresh));
    let step = cached_archive_step(archive("a1", &[HashAlgorithm::Sha256]), &HashPolicy::Generate, true);
    assert!(matches!(step, CachedArchiveStep::Use(_)));
    let policy = HashPolicy::Validate(vec![HashDigest { algorithm: HashAlgorithm::Sha512, digest: "ff".to_string() }]);
    assert!(!archive("a", &[HashAlgorithm::Sha256]).has_digests(&policy));
    assert!(archive("a", &[HashAlgorithm::Sha256, HashAlgorithm::Sha512]).has_digests(&policy));
    assert_eq!(policy.algorithms(), vec![HashAlgorithm::Sha512]);
}

#[test]
fn local_wheel_pointer_freshness() {
    let t = Timestamp { seconds: 10, nanos: 5 };
    let pointer = LocalArchivePointer { timestamp: t, archive: archive("x", &[]) };
    assert!(pointer.is_up_to_date(t));
    let step = local_wheel_step(Some(pointer.clone()), t, &HashPolicy::Skip);
    assert!(matches!(step, LocalWheelStep::Reuse(a) if a.id == "x"));
    let later = Timestamp { seconds: 11, nanos: 0 };
    assert!(matches!(local_wheel_step(Some(pointer.clone()), later, &HashPolicy::Skip), LocalWheelStep::Unzip));
    assert!(matches!(local_wheel_step(Some(pointer), t, &HashPolicy::Generate), LocalWheelStep::HashAndUnzip));
    assert!(matches!(local_wheel_step(None, t, &HashPolicy::Skip), LocalWheelStep::Unzip));
}

#[test]
fn http_pointer_holds_archive() {
    let pointer = HttpArchivePointer::new(archive("id-1", &[]));
    assert_eq!(pointer.into_archive().id, "id-1");
}

#[test]
fn fetch_and_fallback() {
    assert_eq!(first_fetch_step(WheelSource::Registry, false), FetchStep::Stream);
    assert_eq!(first_fetch_step(WheelSource::Registry, true), FetchStep::Load);
    assert_eq!(first_fetch_step(WheelSource::Path, false), FetchStep::Load);
    assert_eq!(first_fetch_step(WheelSource::DirectUrl, true), FetchStep::Stream);
    assert!(falls_back_to_download(WheelSource::Registry, StreamFailure::ExtractStreamingUnsupported));
    assert!(falls_back_to_download(WheelSource::Registry, StreamFailure::ExtractStreamingFailed));
    assert!(!falls_back_to_download(WheelSource::Registry, StreamFailure::ExtractOther));
    assert!(falls_back_to_download(WheelSource::DirectUrl, StreamFailure::ClientStreamingUnsupported));
    assert!(!falls_back_to_download(WheelSource::DirectUrl, StreamFailure::ExtractStreamingFailed));
}

#[test]
fn cache_control_modes() {
    assert_eq!(cache_control(false, Freshness::Stale), CacheControl::AllowStale);
    assert_eq!(cache_control(true, Freshness::Stale), CacheControl::MustRevalidate);
    assert_eq!(cache_control(true, Freshness::Fresh), CacheControl::Default);
    assert_eq!(cache_control(true, Freshness::Missing), CacheControl::Default);
}

#[test]
fn sidecar_names() {
    assert_eq!(http_pointer_file("foo-1.0"), "foo-1.0.http");
    assert_eq!(local_pointer_file("foo-1.0"), "foo-1.0.rev");
    assert_eq!(lock_file("foo-1.0"), "foo-1.0.lock");
}

#[test]
fn timeout_names_the_current_value() {
    assert_eq!(
        timeout_message(30),
        "Failed to download distribution due to network timeout. Try increasing UV_HTTP_TIMEOUT (current value: 30s)."
    );
}

#[test]
fn numbers() {
    assert_eq!(parse_unsigned("123", 1000), Some(123));
    assert_eq!(parse_unsigned("+7", 10), Some(7));
    assert_eq!(parse_unsigned("11", 10), None);
    assert_eq!(parse_unsigned("", 10), None);
    assert_eq!(parse_unsigned("1a", 10), None);
    assert_eq!(parse_unsigned("18446744073709551615", u64::MAX), Some(u64::MAX));
    assert_eq!(content_length(Some("18446744073709551616")), None);
    assert_eq!(content_length(Some("42")), Some(42));
    assert_eq!(content_length(None), None);
}

#[test]
fn permits_bound_downloads() {
    let mut permits = DownloadPermits::new(2);
    assert!(permits.try_acquire());
    assert!(permits.try_acquire());
    assert!(!permits.try_acquire());
    assert_eq!(permits.available(), 0);
    permits.release();
    assert_eq!(permits.available(), 1);
    assert!(permits.try_acquire());
}
