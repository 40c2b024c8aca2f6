//! The rules of the Azure Blob Storage backend: where a container is, on which
//! conditions it is read and written, and what its answers mean.
//!
//! Every mutation publishes through one conditional request: an object that is sent at
//! once carries the condition on the upload, one that is staged in parts carries it on
//! the commit. So a conditional write never observes a half-written object.
use vstd::prelude::*;
use vstd::utf8::encode_utf8;

use url::{ParseError, Url};

use crate::encrypted::container::{copy_bytes, put_bytes};
use crate::number::{be, law_be_round_trip, lemma_byte_ranges, put_be};
use crate::store::{
    same_text, same_version, GetOptions, ObjectMeta, PutMode, PutOptions, StoreError, Version,
};

verus! {

/// Entries that a page of a listing holds at most.
pub const MAX_PAGE: i32 = 5000;

/// Why a text is no URL.
#[verifier::external_type_specification]
#[verifier::external_body]
pub struct ExParseError(ParseError);

/// A URL in its normal form, or `None` where the text is no URL.
pub uninterp spec fn normal_url(text: Seq<char>) -> Option<Seq<char>>;

/// The URL that a reference names, relative to another.
pub uninterp spec fn joined_url(base: Seq<char>, reference: Seq<char>) -> Option<Seq<char>>;

/// A URL with its query replaced.
pub uninterp spec fn queried_url(base: Seq<char>, query: Seq<char>) -> Option<Seq<char>>;

/// Calls `Url::parse`.
#[verifier::external_body]
fn parse_url(text: &str) -> (r: Result<String, ParseError>)
    ensures
        match r {
            Ok(url) => normal_url(text@) == Some(url@),
            Err(_) => normal_url(text@) is None,
        },
{
    Url::parse(text).map(String::from)
}

/// Calls `Url::join` on a URL in its normal form.
#[verifier::external_body]
fn join_url(base: &str, reference: &str) -> (r: Result<String, ParseError>)
    ensures
        match r {
            Ok(url) => joined_url(base@, reference@) == Some(url@),
            Err(_) => joined_url(base@, reference@) is None,
        },
{
    Url::parse(base)?.join(reference).map(String::from)
}

/// Positions in a URL of so many bytes with a query of so many bytes fit 32 bits. In their
/// normal form, a byte of a host or a path takes fewer than 32 bytes, and one of a query
/// three where it is escaped.
pub open spec fn countable(base: nat, query: nat) -> bool {
    32 * base + 3 * query < u32::MAX
}

pub fn is_countable(base: u64, query: u64) -> (r: bool)
    ensures
        r == countable(base as nat, query as nat),
{
    base as u128 * 32 + query as u128 * 3 < 0xffff_ffff
}

/// Calls `Url::set_query` on a URL in its normal form. Positions in a URL are counted in
/// 32 bits, and the call does not return where they do not suffice, which the condition
/// leaves out.
#[verifier::external_body]
fn query_url(base: &str, query: &str) -> (r: Result<String, ParseError>)
    requires
        countable(encode_utf8(base@).len(), encode_utf8(query@).len()),
    ensures
        match r {
            Ok(url) => queried_url(base@, query@) == Some(url@),
            Err(_) => queried_url(base@, query@) is None,
        },
{
    let mut url = Url::parse(base)?;
    url.set_query(Some(query));
    Ok(String::from(url))
}

/// Writes down why a text is no URL, by its `Display`.
#[verifier::external_body]
fn url_error_text(e: &ParseError) -> (r: String) {
    format!("{e}")
}

/// What is configured of a container.
pub struct AzureConfig {
    pub account: String,
    /// Takes the place of the account's own endpoint.
    pub endpoint: String,
    /// The container's name.
    pub bucket: String,
    pub multipart_threshold: u64,
    pub multipart_part_size: u64,
    pub max_concurrent_blocks: usize,
}

/// A container, as far as this library goes.
pub struct AzureStore {
    pub container_url: String,
    /// Requests are signed by a credential; otherwise the URL carries a token.
    pub signed: bool,
    pub multipart_threshold: u64,
    pub multipart_part_size: u64,
    pub max_concurrent_blocks: usize,
}

/// The endpoint of a container, or why there is none.
pub open spec fn endpoint_of(account: Seq<char>, endpoint: Seq<char>) -> Option<Seq<char>> {
    if endpoint.len() > 0 {
        Some(endpoint)
    } else if account.len() > 0 {
        Some("https://"@ + account + ".blob.core.windows.net"@)
    } else {
        None
    }
}

/// A token without the question marks in front of it.
pub open spec fn trimmed(token: Seq<char>) -> Seq<char>
    decreases token.len(),
{
    if token.len() > 0 && token[0] == '?' {
        trimmed(token.drop_first())
    } else {
        token
    }
}

/// The token that is used: one that is there and not empty.
pub open spec fn token_of(sas: Option<String>) -> Option<Seq<char>> {
    match sas {
        Some(token) => if token@.len() > 0 {
            Some(token@)
        } else {
            None
        },
        None => None,
    }
}

fn trim_marks(token: &str) -> (r: String)
    ensures
        r@ == trimmed(token@),
{
    let n: usize = vstd::string::StrSliceExecFns::unicode_len(token);
    let mut i: usize = 0;
    assert(token@.subrange(0, n as int) =~= token@);
    while i < n && vstd::string::StrSliceExecFns::get_char(token, i) == '?'
        invariant
            i <= n,
            n == token@.len(),
            trimmed(token@) == trimmed(token@.subrange(i as int, n as int)),
        decreases n - i,
    {
        let ghost rest = token@.subrange(i as int, n as int);
        assert(rest.drop_first() =~= token@.subrange(i + 1, n as int));
        i = i + 1;
    }
    String::from_str(vstd::string::StrSliceExecFns::substring_char(token, i, n))
}

fn is_empty_text(s: &str) -> (r: bool)
    ensures
        r == (s@.len() == 0),
{
    vstd::string::StrSliceExecFns::unicode_len(s) == 0
}

/// A message made of pieces.
fn message(a: &str, b: &str, c: &str, d: &str) -> (r: String)
    ensures
        r@ == a@ + b@ + c@ + d@,
{
    let mut m = String::from_str(a);
    m.append(b);
    m.append(c);
    m.append(d);
    m
}

/// Where the container of this configuration is, or why it is refused. `sas` is the
/// token that the environment holds.
pub open spec fn container_of(cfg: AzureConfig, sas: Option<String>) -> Option<Seq<char>> {
    match endpoint_of(cfg.account@, cfg.endpoint@) {
        None => None,
        Some(endpoint) => if cfg.bucket@.len() == 0 {
            None
        } else {
            match normal_url(endpoint) {
                None => None,
                Some(base) => match joined_url(base, cfg.bucket@ + "/"@) {
                    None => None,
                    Some(url) => match token_of(sas) {
                        None => Some(url),
                        Some(token) => if countable(
                            encode_utf8(url).len(),
                            encode_utf8(trimmed(token)).len(),
                        ) {
                            queried_url(url, trimmed(token))
                        } else {
                            None
                        },
                    },
                },
            }
        },
    }
}

/// The message for a configuration that is refused.
pub open spec fn refusal(cfg: AzureConfig, sas: Option<String>, m: Seq<char>) -> bool {
    match endpoint_of(cfg.account@, cfg.endpoint@) {
        None => m == "azure: set store.azure.account or store.azure.endpoint"@,
        Some(endpoint) => if cfg.bucket@.len() == 0 {
            m == "azure: store.bucket names the container"@
        } else if normal_url(endpoint) is None {
            exists|why: Seq<char>|
                m == #[trigger] about("azure: invalid endpoint "@, endpoint, why)
        } else {
            exists|why: Seq<char>|
                m == #[trigger] about("azure: invalid container "@, cfg.bucket@, why)
        },
    }
}

pub open spec fn about(what: Seq<char>, name: Seq<char>, why: Seq<char>) -> Seq<char> {
    what + name + ": "@ + why
}

/// The endpoint that a configuration names: its own, or the account's.
pub fn service_endpoint(account: &str, endpoint: &str) -> (r: Result<String, String>)
    ensures
        match endpoint_of(account@, endpoint@) {
            Some(e) => r matches Ok(t) && t@ == e,
            None => r matches Err(m) && m@
                == "azure: set store.azure.account or store.azure.endpoint"@,
        },
{
    if !is_empty_text(endpoint) {
        return Ok(String::from_str(endpoint));
    }
    if is_empty_text(account) {
        return Err(String::from_str("azure: set store.azure.account or store.azure.endpoint"));
    }
    let mut e = String::from_str("https://");
    e.append(account);
    e.append(".blob.core.windows.net");
    Ok(e)
}

/// The query that a token becomes, where there is one.
pub fn sas_query(sas: &Option<String>) -> (r: Option<String>)
    ensures
        match token_of(*sas) {
            Some(token) => r matches Some(q) && q@ == trimmed(token),
            None => r is None,
        },
{
    match sas {
        Some(token) => if is_empty_text(token.as_str()) {
            None
        } else {
            Some(trim_marks(token.as_str()))
        },
        None => None,
    }
}

/// The container at this URL. At least one block is sent at a time.
pub fn container_at(cfg: &AzureConfig, container_url: String, signed: bool) -> (r: AzureStore)
    ensures
        r.container_url == container_url,
        r.signed == signed,
        r.settled(*cfg),
{
    AzureStore {
        container_url,
        signed,
        multipart_threshold: cfg.multipart_threshold,
        multipart_part_size: cfg.multipart_part_size,
        max_concurrent_blocks: if cfg.max_concurrent_blocks == 0 {
            1
        } else {
            cfg.max_concurrent_blocks
        },
    }
}

fn invalid_container(bucket: &str, e: &ParseError) -> (m: String)
    ensures
        exists|why: Seq<char>| m@ == #[trigger] about("azure: invalid container "@, bucket@, why),
{
    let why = url_error_text(e);
    let m = message("azure: invalid container ", bucket, ": ", why.as_str());
    assert(m@ == about("azure: invalid container "@, bucket@, why@));
    m
}

impl AzureStore {
    /// The limits are the configured ones.
    pub open spec fn settled(self, cfg: AzureConfig) -> bool {
        &&& self.multipart_threshold == cfg.multipart_threshold
        &&& self.multipart_part_size == cfg.multipart_part_size
        &&& self.max_concurrent_blocks == if cfg.max_concurrent_blocks == 0 {
            1
        } else {
            cfg.max_concurrent_blocks
        }
    }

    pub fn new(cfg: &AzureConfig, sas: &Option<String>) -> (r: Result<AzureStore, String>)
        ensures
            match container_of(*cfg, *sas) {
                Some(url) => r matches Ok(s) && s.container_url@ == url && s.signed == (token_of(
                    *sas,
                ) is None) && s.settled(*cfg),
                None => r matches Err(m) && refusal(*cfg, *sas, m@),
            },
    {
        let endpoint = match service_endpoint(cfg.account.as_str(), cfg.endpoint.as_str()) {
            Ok(endpoint) => endpoint,
            Err(m) => {
                return Err(m);
            },
        };
        if is_empty_text(cfg.bucket.as_str()) {
            return Err(String::from_str("azure: store.bucket names the container"));
        }
        let base = match parse_url(endpoint.as_str()) {
            Ok(base) => base,
            Err(e) => {
                let why = url_error_text(&e);
                let m = message("azure: invalid endpoint ", endpoint.as_str(), ": ", why.as_str());
                assert(m@ == about("azure: invalid endpoint "@, endpoint@, why@));
                return Err(m);
            },
        };
        let mut dir = cfg.bucket.clone();
        dir.append("/");
        let url = match join_url(base.as_str(), dir.as_str()) {
            Ok(url) => url,
            Err(e) => {
                return Err(invalid_container(cfg.bucket.as_str(), &e));
            },
        };
        match sas_query(sas) {
            None => Ok(container_at(cfg, url, true)),
            Some(query) => {
                let size: u64 = url.as_str().as_bytes().len() as u64;
                if !is_countable(size, query.as_str().as_bytes().len() as u64) {
                    let bucket = cfg.bucket.as_str();
                    let m = message("azure: invalid container ", bucket, ": ", "too long");
                    assert(m@ == about("azure: invalid container "@, bucket@, "too long"@));
                    return Err(m);
                }
                match query_url(url.as_str(), query.as_str()) {
                    Ok(url) => Ok(container_at(cfg, url, false)),
                    Err(e) => Err(invalid_container(cfg.bucket.as_str(), &e)),
                }
            },
        }
    }
}

/// The credentials that are tried, where no token is set.
#[derive(Clone, Copy, PartialEq, Eq, Structural, Debug)]
pub enum Credential {
    WorkloadIdentity,
    ManagedIdentity,
    AzureCli,
}

/// The credential that is tried after `failed`, or first of all.
pub fn next_credential(failed: Option<Credential>) -> (r: Option<Credential>)
    ensures
        r == match failed {
            None => Some(Credential::WorkloadIdentity),
            Some(Credential::WorkloadIdentity) => Some(Credential::ManagedIdentity),
            Some(Credential::ManagedIdentity) => Some(Credential::AzureCli),
            Some(Credential::AzureCli) => None,
        },
{
    match failed {
        None => Some(Credential::WorkloadIdentity),
        Some(Credential::WorkloadIdentity) => Some(Credential::ManagedIdentity),
        Some(Credential::ManagedIdentity) => Some(Credential::AzureCli),
        Some(Credential::AzureCli) => None,
    }
}

/// What a failure says, with the key that it is about.
pub open spec fn failure_text(key: Seq<char>, why: Seq<char>) -> Seq<char> {
    "azure: "@ + key + ": "@ + why
}

/// The failure of a request for `key`, by the status that the service answered with
/// (`None` where it did not answer) and the client's message.
pub open spec fn mapped(key: Seq<char>, status: Option<u16>, why: Seq<char>, e: StoreError) -> bool {
    match status {
        Some(404) => e.misses(key),
        Some(412) => e matches StoreError::PreconditionFailed { key: k, current } && k@ == key
            && current is None,
        Some(409) => e matches StoreError::PreconditionFailed { key: k, current } && k@ == key
            && current is None,
        Some(s) => if 500 <= s < 600 || s == 429 {
            e matches StoreError::Retryable(m) && m@ == failure_text(key, why)
        } else {
            e.says(failure_text(key, why))
        },
        None => e.says(failure_text(key, why)),
    }
}

pub fn map_error(key: &str, status: Option<u16>, why: &str) -> (r: StoreError)
    ensures
        mapped(key@, status, why@, r),
{
    let text = message("azure: ", key, ": ", why);
    match status {
        Some(s) => {
            if s == 404 {
                StoreError::not_found(key)
            } else if s == 412 || s == 409 {
                StoreError::PreconditionFailed { key: String::from_str(key), current: None }
            } else if (500 <= s && s < 600) || s == 429 {
                StoreError::Retryable(text)
            } else {
                StoreError::Other(text)
            }
        },
        None => StoreError::Other(text),
    }
}

/// The version that an entity tag stands for. An object without one has the empty
/// version.
pub fn version_of(etag: Option<String>) -> (r: Version)
    ensures
        match etag {
            Some(t) => r.text == t,
            None => r@ == Seq::<char>::empty(),
        },
{
    match etag {
        Some(t) => Version { text: t },
        None => {
            let text = String::new();
            assert(text@ =~= Seq::<char>::empty());
            Version { text }
        },
    }
}

/// How an object is asked for.
pub struct DownloadOptions {
    /// Where the range begins, and how many bytes it has.
    pub range: Option<(u64, u64)>,
    pub if_match: Option<Version>,
    pub if_none_match: Option<Version>,
}

pub fn download_options(opts: &GetOptions) -> (r: DownloadOptions)
    requires
        opts.range matches Some(range) ==> range.start <= range.end,
    ensures
        r.if_match == opts.if_match,
        r.if_none_match == opts.if_none_match,
        match opts.range {
            Some(range) => r.range == Some((range.start, (range.end - range.start) as u64)),
            None => r.range is None,
        },
{
    let range = match opts.range {
        Some(range) => Some((range.start, range.end - range.start)),
        None => None,
    };
    DownloadOptions {
        range,
        if_match: same_version(&opts.if_match),
        if_none_match: same_version(&opts.if_none_match),
    }
}

/// What the service said of an object.
pub struct BlobProperties {
    pub etag: Option<String>,
    /// Bytes of the response.
    pub content_length: Option<u64>,
}

/// A request that failed: the status that the service answered with, and the
/// client's message.
pub struct BlobFailure {
    pub status: Option<u16>,
    pub why: String,
}

/// What a read came to.
pub enum ReadOutcome {
    NotModified { version: Version },
    Object { meta: ObjectMeta },
}

pub open spec fn blob_meta(m: ObjectMeta, key: Seq<char>, p: BlobProperties) -> bool {
    &&& m.key@ == key
    &&& m.size == match p.content_length {
        Some(n) => n,
        None => 0,
    }
    &&& match p.etag {
        Some(t) => m.version.text == t,
        None => m.version@ == Seq::<char>::empty(),
    }
}

fn meta_of(key: &str, p: BlobProperties) -> (r: ObjectMeta)
    ensures
        blob_meta(r, key@, p),
{
    let size: u64 = match p.content_length {
        Some(n) => n,
        None => 0,
    };
    ObjectMeta { key: String::from_str(key), size, version: version_of(p.etag) }
}

/// What a read means. "Not modified" is no failure: the caller's version stands.
pub fn get_answer(
    key: &str,
    if_none_match: &Option<Version>,
    result: Result<BlobProperties, BlobFailure>,
) -> (r: Result<ReadOutcome, StoreError>)
    ensures
        match result {
            Ok(p) => r matches Ok(ReadOutcome::Object { meta }) && blob_meta(meta, key@, p),
            Err(f) => if f.status == Some(304u16) {
                r matches Ok(ReadOutcome::NotModified { version }) && match *if_none_match {
                    Some(v) => version == v,
                    None => version@ == Seq::<char>::empty(),
                }
            } else {
                r matches Err(e) && mapped(key@, f.status, f.why@, e)
            },
        },
{
    match result {
        Ok(p) => Ok(ReadOutcome::Object { meta: meta_of(key, p) }),
        Err(f) => {
            if let Some(status) = f.status {
                if status == 304 {
                    let version = match if_none_match {
                        Some(v) => v.clone(),
                        None => version_of(None),
                    };
                    return Ok(ReadOutcome::NotModified { version });
                }
            }
            Err(map_error(key, f.status, f.why.as_str()))
        },
    }
}

/// What a question after an object means. One that is not there is no failure.
pub fn head_answer(key: &str, result: Result<BlobProperties, BlobFailure>) -> (r: Result<
    Option<ObjectMeta>,
    StoreError,
>)
    ensures
        match result {
            Ok(p) => r matches Ok(Some(meta)) && blob_meta(meta, key@, p),
            Err(f) => if f.status == Some(404u16) {
                r matches Ok(None)
            } else {
                r matches Err(e) && mapped(key@, f.status, f.why@, e)
            },
        },
{
    match result {
        Ok(p) => Ok(Some(meta_of(key, p))),
        Err(f) => {
            if let Some(status) = f.status {
                if status == 404 {
                    return Ok(None);
                }
            }
            Err(map_error(key, f.status, f.why.as_str()))
        },
    }
}

/// On which condition an object is published: that there is none, or that the one there
/// has this version.
pub struct UploadOptions {
    pub if_match: Option<Version>,
    /// Only where there is no object of that name.
    pub if_absent: bool,
    pub content_type: Option<String>,
}

impl UploadOptions {
    /// The request that publishes the object carries the condition of the write.
    pub open spec fn carries(self, opts: PutOptions) -> bool {
        &&& self.if_match == match opts.mode {
            PutMode::Update(v) => Some(v),
            _ => None,
        }
        &&& self.if_absent == (opts.mode is Create)
        &&& self.content_type == opts.content_type
    }
}

/// How an object is written.
pub enum PutPlan {
    /// In one request.
    Single(UploadOptions),
    /// In parts of this size, so many of them at a time, that nobody sees before the
    /// request that commits them.
    Staged { part_size: u64, concurrent: usize, commit: UploadOptions },
}

fn publication(opts: &PutOptions) -> (r: UploadOptions)
    ensures
        r.carries(*opts),
{
    let if_match = match &opts.mode {
        PutMode::Update(v) => Some(v.clone()),
        _ => None,
    };
    let if_absent = match &opts.mode {
        PutMode::Create => true,
        _ => false,
    };
    UploadOptions { if_match, if_absent, content_type: same_text(&opts.content_type) }
}

impl AzureStore {
    /// How an object is written. `bytes` is its size, where its bytes are at hand. What
    /// is longer than the threshold, or comes as a stream or a file, is staged. Either
    /// way one request publishes the object, and it carries the condition.
    pub fn plan_put(&self, bytes: Option<u64>, opts: &PutOptions) -> (r: PutPlan)
        ensures
            if bytes matches Some(n) && n <= self.multipart_threshold {
                r matches PutPlan::Single(o) && o.carries(*opts)
            } else {
                r matches PutPlan::Staged { part_size, concurrent, commit } && commit.carries(
                    *opts,
                ) && concurrent == self.max_concurrent_blocks && part_size == if
                    self.multipart_part_size == 0 {
                    1
                } else {
                    self.multipart_part_size
                }
            },
    {
        match bytes {
            Some(n) if n <= self.multipart_threshold => PutPlan::Single(publication(opts)),
            _ => {
                let part_size: u64 = if self.multipart_part_size == 0 {
                    1
                } else {
                    self.multipart_part_size
                };
                PutPlan::Staged {
                    part_size,
                    concurrent: self.max_concurrent_blocks,
                    commit: publication(opts),
                }
            },
        }
    }

    /// What the request that publishes an object of `len` bytes means, or one that
    /// stages a part of it and fails.
    pub fn put_answer(
        &self,
        key: &str,
        len: u64,
        result: Result<Option<String>, BlobFailure>,
    ) -> (r: Result<ObjectMeta, StoreError>)
        ensures
            match result {
                Ok(etag) => r matches Ok(meta) && blob_meta(
                    meta,
                    key@,
                    (BlobProperties { etag, content_length: Some(len) }),
                ),
                Err(f) => r matches Err(e) && mapped(key@, f.status, f.why@, e),
            },
    {
        match result {
            Ok(etag) => Ok(meta_of(key, BlobProperties { etag, content_length: Some(len) })),
            Err(f) => Err(map_error(key, f.status, f.why.as_str())),
        }
    }

    /// Prefixes are not listed.
    pub fn list_prefixes(&self) -> (r: StoreError)
        ensures
            r.rejects("azure: list_prefixes not implemented"@),
    {
        StoreError::invalid("azure: list_prefixes not implemented")
    }

    pub fn supports_compose(&self) -> (r: bool)
        ensures
            r,
    {
        true
    }

    pub fn compose_is_native(&self) -> (r: bool)
        ensures
            !r,
    {
        false
    }
}

/// The whole parts of `n` bytes that a body consists of.
pub open spec fn whole_parts(body: Seq<u8>, n: nat) -> Seq<Seq<u8>>
    decreases body.len(),
{
    if n == 0 || body.len() < n {
        Seq::empty()
    } else {
        seq![body.subrange(0, n as int)] + whole_parts(
            body.subrange(n as int, body.len() as int),
            n,
        )
    }
}

/// What is left of a body behind its whole parts.
pub open spec fn last_part(body: Seq<u8>, n: nat) -> Seq<u8>
    decreases body.len(),
{
    if n == 0 || body.len() < n {
        body
    } else {
        last_part(body.subrange(n as int, body.len() as int), n)
    }
}

/// Parts, one behind the other.
pub open spec fn parts_joined(parts: Seq<Seq<u8>>) -> Seq<u8>
    decreases parts.len(),
{
    if parts.len() == 0 {
        Seq::empty()
    } else {
        parts[0] + parts_joined(parts.drop_first())
    }
}

/// A body on its way into parts.
pub struct Staging {
    /// What arrived and fills no part yet.
    pub pending: Vec<u8>,
    pub part_size: u64,
}

impl Staging {
    pub open spec fn wf(self) -> bool {
        self.pending@.len() < self.part_size
    }

    pub fn new(part_size: u64) -> (r: Staging)
        requires
            part_size > 0,
        ensures
            r.wf(),
            r.pending@ == Seq::<u8>::empty(),
            r.part_size == part_size,
    {
        Staging { pending: Vec::new(), part_size }
    }

    /// Takes the next bytes of the body, and gives the parts that they fill.
    pub fn feed(&mut self, chunk: &[u8]) -> (r: Vec<Vec<u8>>)
        requires
            old(self).wf(),
        ensures
            final(self).wf(),
            final(self).part_size == old(self).part_size,
            final(self).pending@ == last_part(
                old(self).pending@ + chunk@,
                old(self).part_size as nat,
            ),
            r@.map_values(|v: Vec<u8>| v@) == whole_parts(
                old(self).pending@ + chunk@,
                old(self).part_size as nat,
            ),
    {
        let ghost n = self.part_size as nat;
        let mut all: Vec<u8> = Vec::new();
        put_bytes(&mut all, self.pending.as_slice());
        put_bytes(&mut all, chunk);
        let ghost whole = all@;
        assert(whole =~= old(self).pending@ + chunk@);
        let size: usize = all.len();
        let mut parts: Vec<Vec<u8>> = Vec::new();
        let mut at: usize = 0;
        proof {
            assert(whole.subrange(0, size as int) =~= whole);
            assert(parts@.map_values(|v: Vec<u8>| v@) =~= Seq::<Seq<u8>>::empty());
            assert(Seq::<Seq<u8>>::empty() + whole_parts(whole, n) =~= whole_parts(whole, n));
        }
        while (size - at) as u64 >= self.part_size
            invariant
                at <= size,
                size == whole.len(),
                all@ == whole,
                n == self.part_size,
                n > 0,
                self.part_size == old(self).part_size,
                whole_parts(whole, n) == parts@.map_values(|v: Vec<u8>| v@) + whole_parts(
                    whole.subrange(at as int, size as int),
                    n,
                ),
                last_part(whole, n) == last_part(whole.subrange(at as int, size as int), n),
            decreases size - at,
        {
            let step: usize = self.part_size as usize;
            let part = copy_bytes(vstd::slice::slice_subrange(all.as_slice(), at, at + step));
            let ghost rest = whole.subrange(at as int, size as int);
            let ghost before = parts@.map_values(|v: Vec<u8>| v@);
            proof {
                assert(rest.subrange(0, n as int) =~= part@);
                assert(rest.subrange(n as int, rest.len() as int) =~= whole.subrange(
                    at + step,
                    size as int,
                ));
            }
            parts.push(part);
            proof {
                let next = whole_parts(whole.subrange(at + step, size as int), n);
                assert(parts@.map_values(|v: Vec<u8>| v@) =~= before.push(part@));
                assert(before + (seq![part@] + next) =~= before.push(part@) + next);
            }
            at = at + step;
        }
        self.pending = copy_bytes(vstd::slice::slice_subrange(all.as_slice(), at, size));
        proof {
            let rest = whole.subrange(at as int, size as int);
            assert(whole_parts(rest, n) =~= Seq::<Seq<u8>>::empty());
            assert(parts@.map_values(|v: Vec<u8>| v@) + Seq::<Seq<u8>>::empty()
                =~= parts@.map_values(|v: Vec<u8>| v@));
        }
        parts
    }

    /// The last part, once the body has ended. `None` where the parts before it are all
    /// of the body.
    pub fn finish(self) -> (r: Option<Vec<u8>>)
        ensures
            match r {
                Some(part) => part == self.pending && part@.len() > 0,
                None => self.pending@.len() == 0,
            },
    {
        if self.pending.len() == 0 {
            None
        } else {
            Some(self.pending)
        }
    }
}

/// The parts of a body are the body, in order: nothing is lost, added or moved. Every
/// part but the last has the size that was asked for, and the last has less.
pub proof fn law_parts_are_the_body(body: Seq<u8>, n: nat)
    requires
        n > 0,
    ensures
        parts_joined(whole_parts(body, n)) + last_part(body, n) == body,
        last_part(body, n).len() < n,
        forall|i: int|
            #![trigger whole_parts(body, n)[i]]
            0 <= i < whole_parts(body, n).len() ==> whole_parts(body, n)[i].len() == n,
    decreases body.len(),
{
    if body.len() < n {
        assert(Seq::<u8>::empty() + body =~= body);
    } else {
        let front = body.subrange(0, n as int);
        let rest = body.subrange(n as int, body.len() as int);
        law_parts_are_the_body(rest, n);
        let all = whole_parts(body, n);
        assert(all.drop_first() =~= whole_parts(rest, n));
        assert(front + parts_joined(whole_parts(rest, n)) + last_part(rest, n) =~= front + (
        parts_joined(whole_parts(rest, n)) + last_part(rest, n)));
        assert(front + rest =~= body);
        assert forall|i: int| #![trigger all[i]] 0 <= i < all.len() implies all[i].len() == n by {
            if i > 0 {
                assert(all[i] == whole_parts(rest, n)[i - 1]);
            }
        }
    }
}

/// It does not matter in which pieces a body arrives: what one piece leaves over goes in
/// front of the next, and the parts come out the same.
pub proof fn law_arrival_does_not_matter(body: Seq<u8>, next: Seq<u8>, n: nat)
    requires
        n > 0,
    ensures
        whole_parts(body + next, n) == whole_parts(body, n) + whole_parts(
            last_part(body, n) + next,
            n,
        ),
        last_part(body + next, n) == last_part(last_part(body, n) + next, n),
    decreases body.len(),
{
    if body.len() < n {
        assert(Seq::<Seq<u8>>::empty() + whole_parts(body + next, n) =~= whole_parts(
            body + next,
            n,
        ));
    } else {
        let all = body + next;
        let rest = body.subrange(n as int, body.len() as int);
        law_arrival_does_not_matter(rest, next, n);
        assert(all.subrange(0, n as int) =~= body.subrange(0, n as int));
        assert(all.subrange(n as int, all.len() as int) =~= rest + next);
        let tail = whole_parts(last_part(rest, n) + next, n);
        assert(seq![body.subrange(0, n as int)] + (whole_parts(rest, n) + tail) =~= seq![
            body.subrange(0, n as int),
        ] + whole_parts(rest, n) + tail);
    }
}

/// The name of a part: its number in eight bytes, since all names of one object have the
/// same length.
pub fn block_id(number: u64) -> (r: Vec<u8>)
    ensures
        r@ == be(number as nat, 8),
{
    let mut r: Vec<u8> = Vec::new();
    put_be(&mut r, number, 8);
    assert(r@ =~= be(number as nat, 8));
    r
}

/// Two parts of an object have different names.
pub proof fn law_block_names_differ(a: u64, b: u64)
    requires
        be(a as nat, 8) == be(b as nat, 8),
    ensures
        a == b,
{
    lemma_byte_ranges();
    law_be_round_trip(a as nat, 8);
    law_be_round_trip(b as nat, 8);
}

/// What a deletion means. An object that is not there is deleted already, unless a
/// version of it was to be deleted.
pub fn delete_answer(key: &str, conditional: bool, result: Result<(), BlobFailure>) -> (r: Result<
    (),
    StoreError,
>)
    ensures
        match result {
            Ok(_) => r is Ok,
            Err(f) => if f.status == Some(404u16) {
                if conditional {
                    r matches Err(e) && e.misses(key@)
                } else {
                    r is Ok
                }
            } else {
                r matches Err(e) && mapped(key@, f.status, f.why@, e)
            },
        },
{
    match result {
        Ok(()) => Ok(()),
        Err(f) => {
            if let Some(status) = f.status {
                if status == 404 {
                    if conditional {
                        return Err(StoreError::not_found(key));
                    }
                    return Ok(());
                }
            }
            Err(map_error(key, f.status, f.why.as_str()))
        },
    }
}

/// How a page of a listing is asked for.
pub struct ListOptions {
    pub prefix: String,
    /// Where the page before ended; `None` for the first one.
    pub marker: Option<String>,
    pub maxresults: i32,
    pub start_from: Option<String>,
}

/// The request for a page. An empty marker is none.
pub fn list_options(prefix: &str, marker: &Option<String>, start_after: &Option<String>) -> (r:
    ListOptions)
    ensures
        r.prefix@ == prefix@,
        r.start_from == *start_after,
        r.maxresults == MAX_PAGE,
        match *marker {
            Some(m) => if m@.len() > 0 {
                r.marker == Some(m)
            } else {
                r.marker is None
            },
            None => r.marker is None,
        },
{
    let from = match marker {
        Some(m) => if is_empty_text(m.as_str()) {
            None
        } else {
            Some(m.clone())
        },
        None => None,
    };
    ListOptions {
        prefix: String::from_str(prefix),
        marker: from,
        maxresults: MAX_PAGE,
        start_from: same_text(start_after),
    }
}

/// What a listing yields, whether its page could be asked for or not: no object.
pub fn list_page(asked: Result<(), StoreError>) -> (r: Vec<ObjectMeta>)
    ensures
        r@.len() == 0,
{
    match asked {
        Ok(()) => Vec::new(),
        Err(_) => Vec::new(),
    }
}

/// A conditional write replaces nothing that it does not name: the request that publishes
/// the object, in one piece or as the commit of its parts, is refused by a service that
/// holds `present` under the key exactly where the condition of the write does not hold.
/// The MIME type, the size and the limits have no part in it.
pub proof fn law_publication_keeps_the_condition(
    store: &AzureStore,
    bytes: Option<u64>,
    opts: &PutOptions,
    plan: PutPlan,
    present: Option<Version>,
)
    requires
        call_ensures(AzureStore::plan_put, (store, bytes, opts), plan),
    ensures
        ({
            let o = match plan {
                PutPlan::Single(o) => o,
                PutPlan::Staged { part_size, concurrent, commit } => commit,
            };
            let accepted = (o.if_absent ==> present is None) && (o.if_match is Some ==> present
                == o.if_match);
            &&& accepted <==> match opts.mode {
                PutMode::Create => present is None,
                PutMode::Update(v) => present == Some(v),
                PutMode::Overwrite => true,
            }
            &&& o.if_absent <==> opts.mode is Create
            &&& o.content_type == opts.content_type
        }),
{
}

/// How an object is written is told by its size and the limits alone. What is at hand and no
/// longer than the threshold goes in one request; anything else is staged, in parts that are
/// not empty and of the configured size where one is configured.
pub proof fn law_size_decides_how_an_object_is_written(
    store: &AzureStore,
    bytes: Option<u64>,
    opts: &PutOptions,
    plan: PutPlan,
)
    requires
        call_ensures(AzureStore::plan_put, (store, bytes, opts), plan),
    ensures
        plan is Single <==> bytes is Some && bytes->Some_0 <= store.multipart_threshold,
        plan matches PutPlan::Staged { part_size, concurrent, commit } ==> {
            &&& part_size >= 1
            &&& store.multipart_part_size >= 1 ==> part_size == store.multipart_part_size
            &&& part_size == 1 || part_size == store.multipart_part_size
            &&& concurrent == store.max_concurrent_blocks
        },
{
}

/// The status of a failed request decides what the caller is told, whatever the key and the
/// message: that the object is not there, that the condition does not hold, or that the call
/// may be tried again. Every other status, and none at all, is a failure for good. The caller
/// is told which object it was, and why.
pub proof fn law_status_decides_the_failure(
    key: &str,
    status: Option<u16>,
    why: &str,
    e: StoreError,
)
    requires
        call_ensures(map_error, (key, status, why), e),
    ensures
        e is NotFound <==> status == Some(404u16),
        e is PreconditionFailed <==> status == Some(409u16) || status == Some(412u16),
        e is Retryable <==> (status matches Some(s) && (s == 429 || 500 <= s <= 599)),
        !(e is InvalidArgument),
        e matches StoreError::NotFound { key: k } ==> k@ == key@,
        e matches StoreError::PreconditionFailed { key: k, current } ==> k@ == key@
            && current is None,
        e matches StoreError::Retryable(m) ==> m@ == "azure: "@ + key@ + ": "@ + why@,
        e matches StoreError::Other(m) ==> m@ == "azure: "@ + key@ + ": "@ + why@,
{
}

/// What the service says of an object reaches the caller as it is: its name, the bytes that
/// were counted, and its entity tag as its version. A read that finds the caller's own version
/// hands that version back; a question after what is not there, and its deletion, are no
/// failures, unless a version was to be deleted. Every other failure is told by its status.
pub proof fn law_answers_say_what_the_service_said(
    store: &AzureStore,
    key: &str,
    seen: &Option<Version>,
    p: BlobProperties,
    f: BlobFailure,
    len: u64,
    conditional: bool,
    got: Result<ReadOutcome, StoreError>,
    not_got: Result<ReadOutcome, StoreError>,
    head: Result<Option<ObjectMeta>, StoreError>,
    no_head: Result<Option<ObjectMeta>, StoreError>,
    put: Result<ObjectMeta, StoreError>,
    not_put: Result<ObjectMeta, StoreError>,
    not_deleted: Result<(), StoreError>,
    deleted: Result<(), StoreError>,
)
    requires
        call_ensures(get_answer, (key, seen, Ok::<BlobProperties, BlobFailure>(p)), got),
        call_ensures(get_answer, (key, seen, Err::<BlobProperties, BlobFailure>(f)), not_got),
        call_ensures(head_answer, (key, Ok::<BlobProperties, BlobFailure>(p)), head),
        call_ensures(head_answer, (key, Err::<BlobProperties, BlobFailure>(f)), no_head),
        call_ensures(
            AzureStore::put_answer,
            (store, key, len, Ok::<Option<String>, BlobFailure>(p.etag)),
            put,
        ),
        call_ensures(
            AzureStore::put_answer,
            (store, key, len, Err::<Option<String>, BlobFailure>(f)),
            not_put,
        ),
        call_ensures(delete_answer, (key, conditional, Err::<(), BlobFailure>(f)), not_deleted),
        call_ensures(delete_answer, (key, conditional, Ok::<(), BlobFailure>(())), deleted),
    ensures
        got matches Ok(ReadOutcome::Object { meta }) && meta.key@ == key@ && (p.content_length
            matches Some(n) ==> meta.size == n) && (p.content_length is None ==> meta.size == 0)
            && (p.etag matches Some(t) ==> meta.version.text == t) && (p.etag is None
            ==> meta.version@.len() == 0),
        head matches Ok(Some(meta)) && meta.key@ == key@ && (p.content_length matches Some(n)
            ==> meta.size == n) && (p.content_length is None ==> meta.size == 0) && (p.etag
            matches Some(t) ==> meta.version.text == t) && (p.etag is None ==> meta.version@.len()
            == 0),
        put matches Ok(meta) && meta.key@ == key@ && meta.size == len && (p.etag matches Some(t)
            ==> meta.version.text == t) && (p.etag is None ==> meta.version@.len() == 0),
        deleted is Ok,
        not_got is Ok <==> f.status == Some(304u16),
        not_got matches Ok(o) ==> (o matches ReadOutcome::NotModified { version } && (*seen
            matches Some(v) ==> version == v) && (*seen is None ==> version@.len() == 0)),
        no_head is Ok <==> f.status == Some(404u16),
        no_head matches Ok(none) ==> none is None,
        not_deleted is Ok <==> f.status == Some(404u16) && !conditional,
        not_put is Err,
        not_got matches Err(e) ==> told_by_status(e, key@, f),
        no_head matches Err(e) ==> told_by_status(e, key@, f),
        not_put matches Err(e) ==> told_by_status(e, key@, f),
        not_deleted matches Err(e) ==> told_by_status(e, key@, f),
{
}

/// The failure that a status stands for.
pub open spec fn told_by_status(e: StoreError, key: Seq<char>, f: BlobFailure) -> bool {
    let text = "azure: "@ + key + ": "@ + f.why@;
    match e {
        StoreError::NotFound { key: k } => f.status == Some(404u16) && k@ == key,
        StoreError::PreconditionFailed { key: k, current } => (f.status == Some(409u16) || f.status
            == Some(412u16)) && k@ == key && current is None,
        StoreError::Retryable(m) => (f.status matches Some(s) && (s == 429 || s / 100 == 5)) && m@
            == text,
        StoreError::Other(m) => (f.status matches Some(s) ==> s / 100 != 5 && s != 404 && s != 409
            && s != 412 && s != 429) && m@ == text,
        StoreError::InvalidArgument(_) => false,
    }
}

/// An object is asked for under the caller's conditions and by the caller's range, which is
/// told by where it begins and how long it is.
pub proof fn law_range_is_asked_for_by_its_length(opts: &GetOptions, r: DownloadOptions)
    requires
        opts.range matches Some(range) ==> range.start <= range.end,
        call_ensures(download_options, (opts,), r),
    ensures
        r.if_match == opts.if_match,
        r.if_none_match == opts.if_none_match,
        r.range is Some <==> opts.range is Some,
        r.range matches Some((from, len)) ==> {
            let range = opts.range->Some_0;
            from == range.start && from + len == range.end
        },
{
}

/// What is taken off a token is question marks, all that stand in front of it and nothing
/// else.
pub proof fn law_only_question_marks_are_trimmed(token: Seq<char>)
    ensures
        trimmed(token).len() <= token.len(),
        token.subrange(token.len() - trimmed(token).len(), token.len() as int) == trimmed(token),
        forall|i: int|
            0 <= i < token.len() - trimmed(token).len() ==> #[trigger] token[i] == '?',
        trimmed(token).len() > 0 ==> trimmed(token)[0] != '?',
    decreases token.len(),
{
    if token.len() > 0 && token[0] == '?' {
        let rest = token.drop_first();
        law_only_question_marks_are_trimmed(rest);
        let n = token.len() - trimmed(token).len();
        assert(token.subrange(n, token.len() as int) =~= rest.subrange(n - 1, rest.len() as int));
        assert forall|i: int| 0 <= i < n implies #[trigger] token[i] == '?' by {
            if i > 0 {
                assert(rest[i - 1] == '?');
            }
        }
    } else {
        assert(token.subrange(0, token.len() as int) =~= token);
    }
}

/// A container is found wherever its configuration names one: by its endpoint, or by the
/// account where there is none, and by the name of the container. It is reached by a token
/// where one is set that is not empty, and by a signature otherwise. The limits are the
/// configured ones, and at least one block is sent at a time.
pub proof fn law_container_is_found_where_it_is_named(
    cfg: &AzureConfig,
    sas: &Option<String>,
    r: Result<AzureStore, String>,
    endpoint: Seq<char>,
)
    requires
        call_ensures(AzureStore::new, (cfg, sas), r),
        cfg.endpoint@.len() > 0 ==> endpoint == cfg.endpoint@,
        cfg.endpoint@.len() == 0 ==> endpoint == "https://"@ + cfg.account@
            + ".blob.core.windows.net"@,
    ensures
        cfg.endpoint@.len() == 0 && cfg.account@.len() == 0 || cfg.bucket@.len() == 0 ==> r is Err,
        r matches Ok(s) ==> {
            &&& s.multipart_threshold == cfg.multipart_threshold
            &&& s.multipart_part_size == cfg.multipart_part_size
            &&& s.max_concurrent_blocks >= 1
            &&& cfg.max_concurrent_blocks >= 1 ==> s.max_concurrent_blocks
                == cfg.max_concurrent_blocks
            &&& s.signed <==> !(*sas matches Some(token) && token@.len() > 0)
        },
        cfg.bucket@.len() > 0 && (cfg.endpoint@.len() > 0 || cfg.account@.len() > 0) ==> (match
            normal_url(endpoint) {
            None => r is Err,
            Some(base) => match joined_url(base, cfg.bucket@ + "/"@) {
                None => r is Err,
                Some(url) => {
                    &&& !(*sas matches Some(token) && token@.len() > 0) ==> (r matches Ok(s)
                        && s.container_url@ == url)
                    &&& *sas matches Some(token) ==> {
                        let query = trimmed(token@);
                        let long = 32 * encode_utf8(url).len() + 3 * encode_utf8(query).len();
                        token@.len() > 0 && long < 0xffff_ffff ==> (match queried_url(url, query) {
                            None => r is Err,
                            Some(full) => r matches Ok(s) && s.container_url@ == full,
                        })
                    }
                },
            },
        }),
{
}

/// A page is asked for by its prefix and from where the listing starts; it goes on behind the
/// page before, and begins anew without one. The name of a part is its number in eight bytes.
pub proof fn law_pages_and_parts_are_named(
    prefix: &str,
    marker: &Option<String>,
    start_after: &Option<String>,
    r: ListOptions,
    number: u64,
    other: u64,
    id: Vec<u8>,
    other_id: Vec<u8>,
)
    requires
        call_ensures(list_options, (prefix, marker, start_after), r),
        call_ensures(block_id, (number,), id),
        call_ensures(block_id, (other,), other_id),
    ensures
        r.prefix@ == prefix@,
        r.start_from == *start_after,
        r.maxresults == 5000,
        r.marker is Some ==> r.marker == *marker && r.marker->Some_0@.len() > 0,
        r.marker is None ==> (*marker matches Some(m) ==> m@.len() == 0),
        id@.len() == 8,
        id@ == other_id@ <==> number == other,
{
    lemma_byte_ranges();
    law_be_round_trip(number as nat, 8);
    law_be_round_trip(other as nat, 8);
}

/// Credentials are tried one after the other, each once, and there are three of them.
pub proof fn law_credentials_are_tried_in_turn(
    first: Option<Credential>,
    second: Option<Credential>,
    third: Option<Credential>,
    last: Option<Credential>,
)
    requires
        call_ensures(next_credential, (None::<Credential>,), first),
        call_ensures(next_credential, (first,), second),
        call_ensures(next_credential, (second,), third),
        call_ensures(next_credential, (third,), last),
    ensures
        first == Some(Credential::WorkloadIdentity),
        second == Some(Credential::ManagedIdentity),
        third == Some(Credential::AzureCli),
        last is None,
{
}

/// A body is staged as it arrives: the parts that come out and what is held back are, one
/// behind the other, what was held back before and what arrived. Each part has the size that
/// was asked for, less than that is held back, and what is left at the end is the last part.
pub proof fn law_staging_keeps_the_body(chunk: &[u8], s: Staging, last: Option<Vec<u8>>)
    requires
        call_ensures(Staging::finish, (s,), last),
    ensures
        last is Some <==> s.pending@.len() > 0,
        last matches Some(part) ==> part@ == s.pending@,
        forall|x: &mut Staging, parts: Vec<Vec<u8>>| #[trigger]
            call_ensures(Staging::feed, (x, chunk), parts) && (*x).pending@.len() < (*x).part_size
                ==> {
                let n = (*x).part_size;
                &&& parts_joined(parts@.map_values(|v: Vec<u8>| v@)) + (*final(x)).pending@ == (
                *x).pending@ + chunk@
                &&& (*final(x)).pending@.len() < n
                &&& (*final(x)).part_size == n
                &&& forall|i: int| 0 <= i < parts@.len() ==> (#[trigger] parts@[i])@.len() == n
            },
{
    assert forall|x: &mut Staging, parts: Vec<Vec<u8>>| #[trigger]
        call_ensures(Staging::feed, (x, chunk), parts) && (*x).pending@.len() < (
    *x).part_size implies {
        let n = (*x).part_size;
        &&& parts_joined(parts@.map_values(|v: Vec<u8>| v@)) + (*final(x)).pending@ == (
        *x).pending@ + chunk@
        &&& (*final(x)).pending@.len() < n
        &&& (*final(x)).part_size == n
        &&& forall|i: int| 0 <= i < parts@.len() ==> (#[trigger] parts@[i])@.len() == n
    } by {
        let n = (*x).part_size as nat;
        let all = (*x).pending@ + chunk@;
        law_parts_are_the_body(all, n);
        let views = parts@.map_values(|v: Vec<u8>| v@);
        assert(views == whole_parts(all, n));
        assert forall|i: int| 0 <= i < parts@.len() implies (#[trigger] parts@[i])@.len()
            == n by {
            assert(views[i] == parts@[i]@);
            assert(whole_parts(all, n)[i].len() == n);
        }
    }
}

/// A URL and its query are refused for their length exactly where their positions might not
/// fit 32 bits. A configuration without an endpoint or a container is told what it lacks. The
/// rest of what the backend says of itself holds of every container.
pub proof fn law_backend_says_what_it_can_do(
    base: u64,
    query: u64,
    fits: bool,
    account: &str,
    endpoint: &str,
    e: Result<String, String>,
    store: &AzureStore,
    prefixes: StoreError,
    composes: bool,
    natively: bool,
    asked: Result<(), StoreError>,
    page: Vec<ObjectMeta>,
    cfg: &AzureConfig,
    sas: &Option<String>,
    r: Result<AzureStore, String>,
)
    requires
        call_ensures(is_countable, (base, query), fits),
        call_ensures(service_endpoint, (account, endpoint), e),
        call_ensures(AzureStore::list_prefixes, (store,), prefixes),
        call_ensures(AzureStore::supports_compose, (store,), composes),
        call_ensures(AzureStore::compose_is_native, (store,), natively),
        call_ensures(list_page, (asked,), page),
        call_ensures(AzureStore::new, (cfg, sas), r),
    ensures
        fits <==> 32 * base + 3 * query < 0xffff_ffff,
        countable(base as nat, query as nat) <==> 32 * base + 3 * query < 0xffff_ffff,
        e is Ok <==> endpoint@.len() > 0 || account@.len() > 0,
        e matches Ok(t) ==> if endpoint@.len() > 0 {
            t@ == endpoint@
        } else {
            t@ == "https://"@ + account@ + ".blob.core.windows.net"@
        },
        prefixes is InvalidArgument,
        composes && !natively,
        page@.len() == 0,
        cfg.endpoint@.len() == 0 && cfg.account@.len() == 0 ==> (r matches Err(m) && m@
            == "azure: set store.azure.account or store.azure.endpoint"@),
        cfg.bucket@.len() == 0 && (cfg.endpoint@.len() > 0 || cfg.account@.len() > 0) ==> (r matches
            Err(m) && m@ == "azure: store.bucket names the container"@),
{
}

/// Every write can be planned and every answer taken, whatever it is; an object can be asked
/// for by every range that does not end before it begins.
pub proof fn law_every_request_can_be_made(
    cfg: &AzureConfig,
    sas: &Option<String>,
    store: &AzureStore,
    bytes: Option<u64>,
    opts: &PutOptions,
    key: &str,
    why: &str,
    status: Option<u16>,
    get: &GetOptions,
    seen: &Option<Version>,
    result: Result<BlobProperties, BlobFailure>,
)
    ensures
        call_requires(AzureStore::new, (cfg, sas)),
        call_requires(AzureStore::plan_put, (store, bytes, opts)),
        call_requires(map_error, (key, status, why)),
        get.range is None || get.range->Some_0.start <= get.range->Some_0.end ==> call_requires(
            download_options,
            (get,),
        ),
        call_requires(get_answer, (key, seen, result)),
        call_requires(head_answer, (key, result)),
{
}

/// A configuration whose endpoint or container is no URL is told which of the two it is, and
/// why.
pub proof fn law_refusal_names_what_is_wrong(
    cfg: &AzureConfig,
    sas: &Option<String>,
    m: String,
    endpoint: Seq<char>,
)
    requires
        call_ensures(AzureStore::new, (cfg, sas), Err::<AzureStore, String>(m)),
        cfg.endpoint@.len() > 0 ==> endpoint == cfg.endpoint@,
        cfg.endpoint@.len() == 0 ==> endpoint == "https://"@ + cfg.account@
            + ".blob.core.windows.net"@,
        cfg.endpoint@.len() > 0 || cfg.account@.len() > 0,
        cfg.bucket@.len() > 0,
    ensures
        normal_url(endpoint) is None ==> exists|why: Seq<char>|
            m@ == #[trigger] ("azure: invalid endpoint "@ + endpoint + ": "@ + why),
        normal_url(endpoint) is Some ==> exists|why: Seq<char>|
            m@ == #[trigger] ("azure: invalid container "@ + cfg.bucket@ + ": "@ + why),
{
    if normal_url(endpoint) is None {
        let why = choose|why: Seq<char>|
            m@ == #[trigger] about("azure: invalid endpoint "@, endpoint, why);
        assert(m@ == "azure: invalid endpoint "@ + endpoint + ": "@ + why);
    } else {
        let why = choose|why: Seq<char>|
            m@ == #[trigger] about("azure: invalid container "@, cfg.bucket@, why);
        assert(m@ == "azure: invalid container "@ + cfg.bucket@ + ": "@ + why);
    }
}

/// A token that is there and not empty becomes the query, without the question marks in front
/// of it; there is no query otherwise. An entity tag is the version as it is.
pub proof fn law_token_becomes_the_query(
    sas: &Option<String>,
    query: Option<String>,
    etag: Option<String>,
    version: Version,
    cfg: &AzureConfig,
    url: String,
    signed: bool,
    store: AzureStore,
)
    requires
        call_ensures(sas_query, (sas,), query),
        call_ensures(version_of, (etag,), version),
        call_ensures(container_at, (cfg, url, signed), store),
    ensures
        query is Some <==> (*sas matches Some(t) && t@.len() > 0),
        query matches Some(q) ==> {
            let t = sas->Some_0@;
            let marks = t.len() - q@.len();
            &&& 0 <= marks
            &&& t.subrange(marks, t.len() as int) == q@
            &&& forall|i: int| 0 <= i < marks ==> #[trigger] t[i] == '?'
            &&& q@.len() > 0 ==> q@[0] != '?'
        },
        etag matches Some(t) ==> version.text == t,
        etag is None ==> version@.len() == 0,
        store.container_url == url,
        store.signed == signed,
{
    if let Some(t) = *sas {
        law_only_question_marks_are_trimmed(t@);
    }
}

} // verus!
