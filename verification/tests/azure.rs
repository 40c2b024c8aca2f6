use walgit_store::azure::{
    block_id, delete_answer, download_options, get_answer, head_answer, is_countable, list_options,
    list_page, map_error, next_credential, sas_query, service_endpoint, version_of, AzureConfig,
    AzureStore, BlobFailure, BlobProperties, Credential, PutPlan, ReadOutcome, Staging,
};
use walgit_store::store::{ByteRange, GetOptions, PutMode, PutOptions, StoreError, Version};

fn config(account: &str, endpoint: &str, bucket: &str) -> AzureConfig {
    AzureConfig {
        account: account.to_string(),
        endpoint: endpoint.to_string(),
        bucket: bucket.to_string(),
        multipart_threshold: 100,
        multipart_part_size: 10,
        max_concurrent_blocks: 0,
    }
}

fn store() -> AzureStore {
    AzureStore::new(&config("acct", "", "repo"), &None).expect("configured")
}

fn failure(status: u16) -> BlobFailure {
    BlobFailure { status: Some(status), why: "it said no".to_string() }
}

fn version(text: &str) -> Version {
    Version::new(text.to_string())
}

fn refused(cfg: &AzureConfig, sas: Option<&str>) -> String {
    AzureStore::new(cfg, &sas.map(str::to_string)).err().expect("refused")
}

#[test]
fn a_container_is_found_by_its_account() {
    let s = store();
    assert_eq!(s.container_url, "https://acct.blob.core.windows.net/repo/");
    assert!(s.signed);
    assert_eq!((s.multipart_threshold, s.multipart_part_size, s.max_concurrent_blocks), (100, 10, 1));
    let own = config("acct", "http://127.0.0.1:10000/dev/", "repo");
    let s = AzureStore::new(&own, &None).expect("configured");
    assert_eq!(s.container_url, "http://127.0.0.1:10000/dev/repo/");
    assert_eq!(service_endpoint("a", "").as_deref(), Ok("https://a.blob.core.windows.net"));
    assert_eq!(service_endpoint("a", "http://h").as_deref(), Ok("http://h"));
}

#[test]
fn a_token_becomes_the_query() {
    let s = AzureStore::new(&config("acct", "", "repo"), &Some("??sv=1&sig=x".to_string()))
        .expect("configured");
    assert_eq!(s.container_url, "https://acct.blob.core.windows.net/repo/?sv=1&sig=x");
    assert!(!s.signed);
    let s = AzureStore::new(&config("acct", "", "repo"), &Some(String::new())).expect("configured");
    assert!(s.signed);
    assert_eq!(sas_query(&Some("?a?".to_string())).as_deref(), Some("a?"));
    assert_eq!(sas_query(&None), None);
}

#[test]
fn an_incomplete_configuration_is_refused() {
    assert_eq!(
        refused(&config("", "", "repo"), None),
        "azure: set store.azure.account or store.azure.endpoint"
    );
    assert_eq!(refused(&config("acct", "", ""), None), "azure: store.bucket names the container");
    assert_eq!(
        refused(&config("acct", "not a url", "repo"), None),
        "azure: invalid endpoint not a url: relative URL without a base"
    );
    let m = refused(&config("acct", "mailto:x", "repo"), None);
    assert!(m.starts_with("azure: invalid container repo: "), "{m}");
}

#[test]
fn credentials_are_tried_in_order() {
    let mut tried = Vec::new();
    let mut failed = None;
    while let Some(c) = next_credential(failed) {
        tried.push(c);
        failed = Some(c);
    }
    assert_eq!(
        tried,
        [Credential::WorkloadIdentity, Credential::ManagedIdentity, Credential::AzureCli]
    );
}

#[test]
fn a_status_tells_what_failed() {
    assert!(matches!(map_error("k", Some(404), "x"), StoreError::NotFound { key } if key == "k"));
    for s in [409, 412] {
        assert!(matches!(
            map_error("k", Some(s), "x"),
            StoreError::PreconditionFailed { key, current: None } if key == "k"
        ));
    }
    for s in [429, 500, 503, 599] {
        assert!(matches!(map_error("k", Some(s), "x"), StoreError::Retryable(m) if m == "azure: k: x"));
    }
    for s in [None, Some(400), Some(403), Some(304), Some(600)] {
        assert!(matches!(map_error("k", s, "x"), StoreError::Other(m) if m == "azure: k: x"));
    }
}

#[test]
fn a_read_names_its_range_by_its_length() {
    let opts = GetOptions {
        if_none_match: Some(version("a")),
        if_match: None,
        range: Some(ByteRange { start: 10, end: 25 }),
    };
    let d = download_options(&opts);
    assert_eq!(d.range, Some((10, 15)));
    assert_eq!(d.if_none_match.expect("kept").as_str(), "a");
    assert!(d.if_match.is_none());
    assert_eq!(download_options(&GetOptions::default()).range, None);
}

#[test]
fn not_modified_is_no_failure() {
    let known = Some(version("a"));
    match get_answer("k", &known, Err(failure(304))) {
        Ok(ReadOutcome::NotModified { version }) => assert_eq!(version.as_str(), "a"),
        _ => panic!("not modified"),
    }
    match get_answer("k", &None, Err(failure(304))) {
        Ok(ReadOutcome::NotModified { version }) => assert_eq!(version.as_str(), ""),
        _ => panic!("not modified"),
    }
    assert!(matches!(get_answer("k", &known, Err(failure(404))), Err(StoreError::NotFound { .. })));
    let found = BlobProperties { etag: Some("e".to_string()), content_length: Some(9) };
    match get_answer("k", &known, Ok(found)) {
        Ok(ReadOutcome::Object { meta }) => {
            assert_eq!((meta.key.as_str(), meta.size, meta.version.as_str()), ("k", 9, "e"));
        }
        _ => panic!("an object"),
    }
}

#[test]
fn a_missing_object_is_no_failure_to_head_and_delete() {
    assert!(matches!(head_answer("k", Err(failure(404))), Ok(None)));
    assert!(matches!(head_answer("k", Err(failure(503))), Err(StoreError::Retryable(_))));
    let bare = BlobProperties { etag: None, content_length: None };
    let meta = head_answer("k", Ok(bare)).ok().expect("head").expect("there");
    assert_eq!((meta.size, meta.version.as_str()), (0, ""));
    assert!(delete_answer("k", false, Err(failure(404))).is_ok());
    assert!(matches!(
        delete_answer("k", true, Err(failure(404))),
        Err(StoreError::NotFound { key }) if key == "k"
    ));
    assert!(matches!(
        delete_answer("k", true, Err(failure(412))),
        Err(StoreError::PreconditionFailed { .. })
    ));
    assert!(delete_answer("k", true, Ok(())).is_ok());
    assert_eq!(version_of(Some("t".to_string())).as_str(), "t");
}

#[test]
fn a_write_carries_its_condition() {
    let s = store();
    let opts = |mode| PutOptions { mode, immutable: false, content_type: Some("a/b".to_string()) };
    match s.plan_put(Some(100), &opts(PutMode::Create)) {
        PutPlan::Single(o) => {
            assert!(o.if_absent && o.if_match.is_none());
            assert_eq!(o.content_type.as_deref(), Some("a/b"));
        }
        PutPlan::Staged { .. } => panic!("it fits"),
    }
    match s.plan_put(Some(0), &opts(PutMode::Update(version("v")))) {
        PutPlan::Single(o) => {
            assert!(!o.if_absent);
            assert_eq!(o.if_match.expect("condition").as_str(), "v");
        }
        PutPlan::Staged { .. } => panic!("it fits"),
    }
    match s.plan_put(Some(5), &opts(PutMode::Overwrite)) {
        PutPlan::Single(o) => assert!(!o.if_absent && o.if_match.is_none()),
        PutPlan::Staged { .. } => panic!("it fits"),
    }
    for bytes in [Some(101), None] {
        match s.plan_put(bytes, &opts(PutMode::Update(version("v")))) {
            PutPlan::Staged { part_size, concurrent, commit } => {
                assert_eq!((part_size, concurrent), (10, 1));
                assert!(!commit.if_absent);
                assert_eq!(commit.if_match.expect("condition").as_str(), "v");
                assert_eq!(commit.content_type.as_deref(), Some("a/b"));
            }
            PutPlan::Single(_) => panic!("too large for one request"),
        }
        match s.plan_put(bytes, &opts(PutMode::Create)) {
            PutPlan::Staged { commit, .. } => assert!(commit.if_absent && commit.if_match.is_none()),
            PutPlan::Single(_) => panic!("too large for one request"),
        }
    }
    let meta = s.put_answer("k", 7, Ok(Some("e".to_string()))).ok().expect("stored");
    assert_eq!((meta.size, meta.version.as_str()), (7, "e"));
    assert!(matches!(
        s.put_answer("k", 7, Err(failure(412))),
        Err(StoreError::PreconditionFailed { .. })
    ));
}

#[test]
fn listings_are_asked_for_by_pages() {
    let o = list_options("p/", &Some(String::new()), &Some("p/a".to_string()));
    assert_eq!((o.prefix.as_str(), o.maxresults), ("p/", 5000));
    assert!(o.marker.is_none());
    assert_eq!(o.start_from.as_deref(), Some("p/a"));
    assert_eq!(list_options("", &Some("m".to_string()), &None).marker.as_deref(), Some("m"));
    assert!(list_page(Ok(())).is_empty());
    assert!(list_page(Err(StoreError::other("x"))).is_empty());
    let s = store();
    assert!(s.supports_compose() && !s.compose_is_native());
    assert!(matches!(
        s.list_prefixes(),
        StoreError::InvalidArgument(m) if m == "azure: list_prefixes not implemented"
    ));
}

/// The parts of a body that arrives in these chunks.
fn staged(chunks: &[&[u8]], part_size: u64) -> Vec<Vec<u8>> {
    let mut staging = Staging::new(part_size);
    let mut parts = Vec::new();
    for c in chunks {
        parts.extend(staging.feed(c));
    }
    parts.extend(staging.finish());
    parts
}

#[test]
fn the_parts_of_a_body_are_the_body() {
    let body: Vec<u8> = (0..25).collect();
    let parts = staged(&[&body], 10);
    assert_eq!(parts.iter().map(Vec::len).collect::<Vec<_>>(), [10, 10, 5]);
    assert_eq!(parts.concat(), body);
    for at in 0..=body.len() {
        assert_eq!(staged(&[&body[..at], &[], &body[at..]], 10), parts);
    }
    assert_eq!(staged(&[&body[..20]], 10).len(), 2);
    assert!(staged(&[], 10).is_empty());
    assert_eq!(staged(&[&body], 1).len(), 25);
}

#[test]
fn parts_have_names_of_their_own() {
    assert_eq!(block_id(0), [0; 8]);
    assert_eq!(block_id(258), [0, 0, 0, 0, 0, 0, 1, 2]);
    assert_ne!(block_id(1), block_id(256));
    assert_eq!(block_id(u64::MAX), [255; 8]);
}

#[test]
fn a_url_has_32_bit_positions() {
    assert!(is_countable(0, 0) && is_countable(100, 1_000_000_000));
    assert!(is_countable(0, 1_431_655_764) && !is_countable(0, 1_431_655_765));
    assert!(is_countable(134_217_727, 0) && !is_countable(134_217_728, 0));
    assert!(!is_countable(u64::MAX, u64::MAX));
    let token = "x".repeat(20_000_000);
    let s = AzureStore::new(&config("acct", "", "repo"), &Some(token.clone())).expect("configured");
    assert!(s.container_url.ends_with(&token));
}

#[test]
fn a_url_that_is_too_long_is_refused() {
    let bucket = "b".repeat(134_217_728);
    assert!(
        refused(&config("acct", "", &bucket), Some("sv=1")) ==
            format!("azure: invalid container {bucket}: too long")
    );
}
