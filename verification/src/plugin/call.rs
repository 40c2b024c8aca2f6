//! Store calls as messages: what a call asks of the store on the other side, and
//! what its outcome is answered with.
use std::sync::Arc;

use vstd::prelude::*;

use crate::encrypted::container::copy_bytes;
use crate::plugin::abi::{flag_set, own_buffer, Buffer, MAX_METADATA};
use crate::store::{
    ByteRange, GetOptions, ObjectMeta, PutMode, PutOptions, StoreError, Version,
};

verus! {

/// A call of a store.
pub enum StoreCall {
    Get { key: String, options: GetOptions },
    Head { key: String },
    /// The object's bytes come as a stream of `len` bytes.
    Put { key: String, len: u64, write: PutOptions },
    Delete { key: String, version: Option<Version> },
    List { prefix: String, start_after: Option<String> },
    ListPrefixes { prefix: String },
    SignedGetUrl { key: String, ttl_secs: u64 },
    AccelTarget { key: String },
    Compose { key: String, sources: Vec<String>, write: PutOptions },
}

/// The condition of a write, as it is sent.
pub enum WireMode {
    Overwrite,
    Create,
    Update { version: String },
}

/// A call as it is sent. Versions are opaque strings.
pub enum Operation {
    Get {
        key: String,
        if_none_match: Option<String>,
        if_match: Option<String>,
        range: Option<ByteRange>,
    },
    Head { key: String },
    Put {
        key: String,
        len: u64,
        mode: WireMode,
        immutable: bool,
        content_type: Option<String>,
    },
    Delete { key: String, version: Option<String> },
    List { prefix: String, start_after: Option<String> },
    ListPrefixes { prefix: String },
    SignedGetUrl { key: String, ttl_secs: u64 },
    AccelTarget { key: String },
    Compose {
        key: String,
        sources: Vec<String>,
        mode: WireMode,
        immutable: bool,
        content_type: Option<String>,
    },
}

pub open spec fn sent_version(v: Option<Version>) -> Option<String> {
    match v {
        Some(v) => Some(v.text),
        None => None,
    }
}

pub open spec fn received_version(v: Option<String>) -> Option<Version> {
    match v {
        Some(text) => Some(Version { text }),
        None => None,
    }
}

pub open spec fn sent_mode(mode: PutMode) -> WireMode {
    match mode {
        PutMode::Overwrite => WireMode::Overwrite,
        PutMode::Create => WireMode::Create,
        PutMode::Update(v) => WireMode::Update { version: v.text },
    }
}

pub open spec fn received_mode(mode: WireMode) -> PutMode {
    match mode {
        WireMode::Overwrite => PutMode::Overwrite,
        WireMode::Create => PutMode::Create,
        WireMode::Update { version } => PutMode::Update(Version { text: version }),
    }
}

/// How a call is sent.
pub open spec fn sent(call: StoreCall) -> Operation {
    match call {
        StoreCall::Get { key, options } => Operation::Get {
            key,
            if_none_match: sent_version(options.if_none_match),
            if_match: sent_version(options.if_match),
            range: options.range,
        },
        StoreCall::Head { key } => Operation::Head { key },
        StoreCall::Put { key, len, write } => Operation::Put {
            key,
            len,
            mode: sent_mode(write.mode),
            immutable: write.immutable,
            content_type: write.content_type,
        },
        StoreCall::Delete { key, version } => Operation::Delete {
            key,
            version: sent_version(version),
        },
        StoreCall::List { prefix, start_after } => Operation::List { prefix, start_after },
        StoreCall::ListPrefixes { prefix } => Operation::ListPrefixes { prefix },
        StoreCall::SignedGetUrl { key, ttl_secs } => Operation::SignedGetUrl { key, ttl_secs },
        StoreCall::AccelTarget { key } => Operation::AccelTarget { key },
        StoreCall::Compose { key, sources, write } => Operation::Compose {
            key,
            sources,
            mode: sent_mode(write.mode),
            immutable: write.immutable,
            content_type: write.content_type,
        },
    }
}

/// The advisory MIME type that is passed on: one that is known. Any other is dropped.
pub open spec fn known_hint(hint: Option<String>, known: Seq<String>) -> Option<String> {
    match hint {
        Some(h) => if exists|i: int| 0 <= i < known.len() && (#[trigger] known[i])@ == h@ {
            Some(h)
        } else {
            None
        },
        None => None,
    }
}

/// The call that an operation asks for, on a side that knows these MIME types.
pub open spec fn asked_for(op: Operation, known: Seq<String>) -> StoreCall {
    match op {
        Operation::Get { key, if_none_match, if_match, range } => StoreCall::Get {
            key,
            options: GetOptions {
                if_none_match: received_version(if_none_match),
                if_match: received_version(if_match),
                range,
            },
        },
        Operation::Head { key } => StoreCall::Head { key },
        Operation::Put { key, len, mode, immutable, content_type } => StoreCall::Put {
            key,
            len,
            write: PutOptions {
                mode: received_mode(mode),
                immutable,
                content_type: known_hint(content_type, known),
            },
        },
        Operation::Delete { key, version } => StoreCall::Delete {
            key,
            version: received_version(version),
        },
        Operation::List { prefix, start_after } => StoreCall::List { prefix, start_after },
        Operation::ListPrefixes { prefix } => StoreCall::ListPrefixes { prefix },
        Operation::SignedGetUrl { key, ttl_secs } => StoreCall::SignedGetUrl { key, ttl_secs },
        Operation::AccelTarget { key } => StoreCall::AccelTarget { key },
        Operation::Compose { key, sources, mode, immutable, content_type } => StoreCall::Compose {
            key,
            sources,
            write: PutOptions {
                mode: received_mode(mode),
                immutable,
                content_type: known_hint(content_type, known),
            },
        },
    }
}

fn send_version(v: Option<Version>) -> (r: Option<String>)
    ensures
        r == sent_version(v),
{
    match v {
        Some(v) => Some(v.text),
        None => None,
    }
}

fn receive_version(v: Option<String>) -> (r: Option<Version>)
    ensures
        r == received_version(v),
{
    match v {
        Some(text) => Some(Version { text }),
        None => None,
    }
}

fn send_mode(mode: PutMode) -> (r: WireMode)
    ensures
        r == sent_mode(mode),
{
    match mode {
        PutMode::Overwrite => WireMode::Overwrite,
        PutMode::Create => WireMode::Create,
        PutMode::Update(v) => WireMode::Update { version: v.text },
    }
}

fn receive_mode(mode: WireMode) -> (r: PutMode)
    ensures
        r == received_mode(mode),
{
    match mode {
        WireMode::Overwrite => PutMode::Overwrite,
        WireMode::Create => PutMode::Create,
        WireMode::Update { version } => PutMode::Update(Version { text: version }),
    }
}

/// The message that asks the other side for a call.
pub fn request(call: StoreCall) -> (r: Operation)
    ensures
        r == sent(call),
{
    match call {
        StoreCall::Get { key, options } => Operation::Get {
            key,
            if_none_match: send_version(options.if_none_match),
            if_match: send_version(options.if_match),
            range: options.range,
        },
        StoreCall::Head { key } => Operation::Head { key },
        StoreCall::Put { key, len, write } => Operation::Put {
            key,
            len,
            mode: send_mode(write.mode),
            immutable: write.immutable,
            content_type: write.content_type,
        },
        StoreCall::Delete { key, version } => Operation::Delete {
            key,
            version: send_version(version),
        },
        StoreCall::List { prefix, start_after } => Operation::List { prefix, start_after },
        StoreCall::ListPrefixes { prefix } => Operation::ListPrefixes { prefix },
        StoreCall::SignedGetUrl { key, ttl_secs } => Operation::SignedGetUrl { key, ttl_secs },
        StoreCall::AccelTarget { key } => Operation::AccelTarget { key },
        StoreCall::Compose { key, sources, write } => Operation::Compose {
            key,
            sources,
            mode: send_mode(write.mode),
            immutable: write.immutable,
            content_type: write.content_type,
        },
    }
}

/// Passes a MIME type on where it is known.
fn keep_hint(hint: Option<String>, known: &Vec<String>) -> (r: Option<String>)
    ensures
        r == known_hint(hint, known@),
{
    let ghost given = hint;
    match hint {
        Some(h) => {
            let mut i: usize = 0;
            while i < known.len()
                invariant
                    given == hint,
                    given == Some(h),
                    i <= known@.len(),
                    forall|j: int| 0 <= j < i ==> (#[trigger] known@[j])@ != h@,
                decreases known@.len() - i,
            {
                if known[i] == h {
                    assert(known@[i as int]@ == h@);
                    return Some(h);
                }
                i = i + 1;
            }
            None
        },
        None => None,
    }
}

/// The call that a message asks for. `known` are the MIME types that are passed on:
/// they are advisory, and any other is dropped.
pub fn dispatch(op: Operation, known: &Vec<String>) -> (r: StoreCall)
    ensures
        r == asked_for(op, known@),
{
    match op {
        Operation::Get { key, if_none_match, if_match, range } => StoreCall::Get {
            key,
            options: GetOptions {
                if_none_match: receive_version(if_none_match),
                if_match: receive_version(if_match),
                range,
            },
        },
        Operation::Head { key } => StoreCall::Head { key },
        Operation::Put { key, len, mode, immutable, content_type } => StoreCall::Put {
            key,
            len,
            write: PutOptions {
                mode: receive_mode(mode),
                immutable,
                content_type: keep_hint(content_type, known),
            },
        },
        Operation::Delete { key, version } => StoreCall::Delete {
            key,
            version: receive_version(version),
        },
        Operation::List { prefix, start_after } => StoreCall::List { prefix, start_after },
        Operation::ListPrefixes { prefix } => StoreCall::ListPrefixes { prefix },
        Operation::SignedGetUrl { key, ttl_secs } => StoreCall::SignedGetUrl { key, ttl_secs },
        Operation::AccelTarget { key } => StoreCall::AccelTarget { key },
        Operation::Compose { key, sources, mode, immutable, content_type } => StoreCall::Compose {
            key,
            sources,
            write: PutOptions {
                mode: receive_mode(mode),
                immutable,
                content_type: keep_hint(content_type, known),
            },
        },
    }
}

/// A call without the MIME type that the other side does not know.
pub open spec fn with_known_hint(call: StoreCall, known: Seq<String>) -> StoreCall {
    match call {
        StoreCall::Put { key, len, write } => StoreCall::Put {
            key,
            len,
            write: PutOptions { content_type: known_hint(write.content_type, known), ..write },
        },
        StoreCall::Compose { key, sources, write } => StoreCall::Compose {
            key,
            sources,
            write: PutOptions { content_type: known_hint(write.content_type, known), ..write },
        },
        _ => call,
    }
}

/// The store on the other side is asked for exactly the call that was made: no
/// condition, range or version is lost, nor any option but a MIME type that the other
/// side does not know.
pub proof fn law_call_crosses_unchanged(call: StoreCall, known: Seq<String>)
    ensures
        asked_for(sent(call), known) == with_known_hint(call, known),
{
}

/// A failure as it is sent.
pub enum WireError {
    NotFound { key: String },
    PreconditionFailed { key: String, current: Option<String> },
    InvalidArgument { message: String },
    Retryable { message: String },
    Other { message: String },
}

pub open spec fn sent_error(e: StoreError) -> WireError {
    match e {
        StoreError::NotFound { key } => WireError::NotFound { key },
        StoreError::PreconditionFailed { key, current } => WireError::PreconditionFailed {
            key,
            current: sent_version(current),
        },
        StoreError::InvalidArgument(message) => WireError::InvalidArgument { message },
        StoreError::Retryable(message) => WireError::Retryable { message },
        StoreError::Other(message) => WireError::Other { message },
    }
}

pub open spec fn received_error(e: WireError) -> StoreError {
    match e {
        WireError::NotFound { key } => StoreError::NotFound { key },
        WireError::PreconditionFailed { key, current } => StoreError::PreconditionFailed {
            key,
            current: received_version(current),
        },
        WireError::InvalidArgument { message } => StoreError::InvalidArgument(message),
        WireError::Retryable { message } => StoreError::Retryable(message),
        WireError::Other { message } => StoreError::Other(message),
    }
}

pub fn send_error(e: StoreError) -> (r: WireError)
    ensures
        r == sent_error(e),
{
    match e {
        StoreError::NotFound { key } => WireError::NotFound { key },
        StoreError::PreconditionFailed { key, current } => WireError::PreconditionFailed {
            key,
            current: send_version(current),
        },
        StoreError::InvalidArgument(message) => WireError::InvalidArgument { message },
        StoreError::Retryable(message) => WireError::Retryable { message },
        StoreError::Other(message) => WireError::Other { message },
    }
}

pub fn receive_error(e: WireError) -> (r: StoreError)
    ensures
        r == received_error(e),
{
    match e {
        WireError::NotFound { key } => StoreError::NotFound { key },
        WireError::PreconditionFailed { key, current } => StoreError::PreconditionFailed {
            key,
            current: receive_version(current),
        },
        WireError::InvalidArgument { message } => StoreError::InvalidArgument(message),
        WireError::Retryable { message } => StoreError::Retryable(message),
        WireError::Other { message } => StoreError::Other(message),
    }
}

/// A caller can tell the same failures apart on either side.
pub proof fn law_failure_crosses_unchanged(e: StoreError)
    ensures
        received_error(sent_error(e)) == e,
{
}

/// A target for accelerated delivery.
pub struct Accel {
    pub url: String,
    pub authorization: Option<String>,
}

/// What a store call came to.
pub enum Outcome {
    NotModified { version: Version },
    /// An object, whose bytes follow as a stream.
    Object { meta: ObjectMeta },
    Head(Option<ObjectMeta>),
    Stored(ObjectMeta),
    Deleted,
    /// A listing, whose records follow as a stream.
    Listing,
    Prefixes(Vec<String>),
    SignedUrl(Option<String>),
    Accel(Option<Accel>),
}

/// An object's name, size and version, as they are sent.
pub struct Meta {
    pub key: String,
    pub size: u64,
    pub version: String,
}

/// What a call is answered with.
pub enum Answer {
    NotModified { version: String },
    Object { meta: Meta },
    Head(Option<Meta>),
    Stored(Meta),
    Done,
    Listing,
    Prefixes(Vec<String>),
    SignedUrl(Option<String>),
    Accel(Option<Accel>),
}

pub open spec fn sent_meta(m: ObjectMeta) -> Meta {
    Meta { key: m.key, size: m.size, version: m.version.text }
}

pub open spec fn received_meta(m: Meta) -> ObjectMeta {
    ObjectMeta { key: m.key, size: m.size, version: Version { text: m.version } }
}

/// How an outcome is sent.
pub open spec fn sent_outcome(o: Outcome) -> Answer {
    match o {
        Outcome::NotModified { version } => Answer::NotModified { version: version.text },
        Outcome::Object { meta } => Answer::Object { meta: sent_meta(meta) },
        Outcome::Head(Some(meta)) => Answer::Head(Some(sent_meta(meta))),
        Outcome::Head(None) => Answer::Head(None),
        Outcome::Stored(meta) => Answer::Stored(sent_meta(meta)),
        Outcome::Deleted => Answer::Done,
        Outcome::Listing => Answer::Listing,
        Outcome::Prefixes(list) => Answer::Prefixes(list),
        Outcome::SignedUrl(url) => Answer::SignedUrl(url),
        Outcome::Accel(target) => Answer::Accel(target),
    }
}

/// What an answer says that a call came to.
pub open spec fn told(a: Answer) -> Outcome {
    match a {
        Answer::NotModified { version } => Outcome::NotModified {
            version: Version { text: version },
        },
        Answer::Object { meta } => Outcome::Object { meta: received_meta(meta) },
        Answer::Head(Some(meta)) => Outcome::Head(Some(received_meta(meta))),
        Answer::Head(None) => Outcome::Head(None),
        Answer::Stored(meta) => Outcome::Stored(received_meta(meta)),
        Answer::Done => Outcome::Deleted,
        Answer::Listing => Outcome::Listing,
        Answer::Prefixes(list) => Outcome::Prefixes(list),
        Answer::SignedUrl(url) => Outcome::SignedUrl(url),
        Answer::Accel(target) => Outcome::Accel(target),
    }
}

pub fn send_meta(m: ObjectMeta) -> (r: Meta)
    ensures
        r == sent_meta(m),
{
    Meta { key: m.key, size: m.size, version: m.version.text }
}

pub fn receive_meta(m: Meta) -> (r: ObjectMeta)
    ensures
        r == received_meta(m),
{
    ObjectMeta { key: m.key, size: m.size, version: Version { text: m.version } }
}

/// What a call is answered with, and whether a stream follows.
pub fn answer(o: Outcome) -> (r: (Answer, bool))
    ensures
        r.0 == sent_outcome(o),
        r.1 == (o is Object || o is Listing),
{
    match o {
        Outcome::NotModified { version } => (Answer::NotModified { version: version.text }, false),
        Outcome::Object { meta } => (Answer::Object { meta: send_meta(meta) }, true),
        Outcome::Head(Some(meta)) => (Answer::Head(Some(send_meta(meta))), false),
        Outcome::Head(None) => (Answer::Head(None), false),
        Outcome::Stored(meta) => (Answer::Stored(send_meta(meta)), false),
        Outcome::Deleted => (Answer::Done, false),
        Outcome::Listing => (Answer::Listing, true),
        Outcome::Prefixes(list) => (Answer::Prefixes(list), false),
        Outcome::SignedUrl(url) => (Answer::SignedUrl(url), false),
        Outcome::Accel(target) => (Answer::Accel(target), false),
    }
}

/// What an answer says that a call came to.
pub fn outcome(a: Answer) -> (r: Outcome)
    ensures
        r == told(a),
{
    match a {
        Answer::NotModified { version } => Outcome::NotModified {
            version: Version { text: version },
        },
        Answer::Object { meta } => Outcome::Object { meta: receive_meta(meta) },
        Answer::Head(Some(meta)) => Outcome::Head(Some(receive_meta(meta))),
        Answer::Head(None) => Outcome::Head(None),
        Answer::Stored(meta) => Outcome::Stored(receive_meta(meta)),
        Answer::Done => Outcome::Deleted,
        Answer::Listing => Outcome::Listing,
        Answer::Prefixes(list) => Outcome::Prefixes(list),
        Answer::SignedUrl(url) => Outcome::SignedUrl(url),
        Answer::Accel(target) => Outcome::Accel(target),
    }
}

/// The caller is told exactly what the call came to.
pub proof fn law_outcome_crosses_unchanged(o: Outcome)
    ensures
        told(sent_outcome(o)) == o,
{
}

/// Metadata that is ready to be handed over.
pub fn metadata(bytes: Vec<u8>) -> (r: Result<Buffer, StoreError>)
    ensures
        if bytes@.len() > MAX_METADATA {
            r matches Err(e) && e.rejects("plugin metadata exceeds limit"@)
        } else {
            r matches Ok(b) && b.wf() && b.held && b.bytes == bytes
        },
{
    if bytes.len() > MAX_METADATA {
        return Err(StoreError::invalid("plugin metadata exceeds limit"));
    }
    Ok(own_buffer(bytes))
}

/// A reply as it crosses the boundary.
pub struct Reply {
    /// Zero for success; minus one where the metadata is an error.
    pub status: i32,
    pub metadata: Buffer,
    /// A stream follows.
    pub body: bool,
}

/// The reply for a failed call. `encoded` is the error written down, where that
/// succeeded.
pub fn error_reply(encoded: Option<Vec<u8>>) -> (r: Reply)
    ensures
        r.status == -1,
        !r.body,
        r.metadata.wf() && r.metadata.held,
        match encoded {
            Some(bytes) => r.metadata.bytes == bytes,
            None => r.metadata.bytes@ == vstd::utf8::encode_utf8(
                "{\"error\":\"other\",\"message\":\"plugin failure\"}"@,
            ),
        },
{
    let bytes: Vec<u8> = match encoded {
        Some(bytes) => bytes,
        None => {
            let text = "{\"error\":\"other\",\"message\":\"plugin failure\"}";
            copy_bytes(text.as_bytes())
        },
    };
    Reply { status: -1, metadata: own_buffer(bytes), body: false }
}

/// How a request was dealt with.
pub enum Handled<T> {
    Replied(T),
    Failed(StoreError),
    Panicked,
}

/// What a request is answered with: the reply, or the error that takes its place.
/// A panic does not cross the boundary.
pub fn contained<T>(handled: Handled<T>) -> (r: Result<T, StoreError>)
    ensures
        match handled {
            Handled::Replied(reply) => r == Ok::<T, StoreError>(reply),
            Handled::Failed(e) => r == Err::<T, StoreError>(e),
            Handled::Panicked => r matches Err(e) && e.says("storage plugin panicked"@),
        },
{
    match handled {
        Handled::Replied(reply) => Ok(reply),
        Handled::Failed(e) => Err(e),
        Handled::Panicked => Err(StoreError::other("storage plugin panicked")),
    }
}

/// Whether a reply is a success. `Ok(false)` where its metadata is an error.
pub fn reply_status(status: i32) -> (r: Result<bool, StoreError>)
    ensures
        if status == 0 {
            r == Ok::<bool, StoreError>(true)
        } else if status == -1 {
            r == Ok::<bool, StoreError>(false)
        } else {
            r matches Err(e) && e.says("invalid storage plugin status"@)
        },
{
    if status == 0 {
        Ok(true)
    } else if status == -1 {
        Ok(false)
    } else {
        Err(StoreError::other("invalid storage plugin status"))
    }
}

/// An owned object-store endpoint.
pub struct Store<E> {
    pub endpoint: E,
    pub supports_compose: u8,
    pub compose_is_native: u8,
}

/// A store on the other side of the boundary. The endpoint lives as long as any of
/// its calls and result streams.
pub struct RemoteStore<E> {
    pub endpoint: Arc<Store<E>>,
}

impl<E> RemoteStore<E> {
    pub fn new(store: Store<E>) -> (r: Self)
        ensures
            *r.endpoint == store,
    {
        RemoteStore { endpoint: Arc::new(store) }
    }

    pub fn supports_compose(&self) -> (r: bool)
        ensures
            r == (self.endpoint.supports_compose == 1),
    {
        flag_set(self.endpoint.supports_compose)
    }

    pub fn compose_is_native(&self) -> (r: bool)
        ensures
            r == (self.endpoint.compose_is_native == 1),
    {
        flag_set(self.endpoint.compose_is_native)
    }
}

/// The MIME type of a write, where a call is one.
pub open spec fn hint_of(call: StoreCall) -> Option<String> {
    match call {
        StoreCall::Put { key, len, write } => write.content_type,
        StoreCall::Compose { key, sources, write } => write.content_type,
        _ => None,
    }
}

/// A call without its MIME type.
pub open spec fn without_hint(call: StoreCall) -> StoreCall {
    match call {
        StoreCall::Put { key, len, write } => StoreCall::Put {
            key,
            len,
            write: PutOptions { content_type: None, ..write },
        },
        StoreCall::Compose { key, sources, write } => StoreCall::Compose {
            key,
            sources,
            write: PutOptions { content_type: None, ..write },
        },
        _ => call,
    }
}

/// The store on the other side is asked for the call that was made, in every field, condition
/// and option. A MIME type reaches it exactly where it is one of those that it knows.
pub proof fn law_call_is_asked_for_as_it_was_made(
    call: StoreCall,
    op: Operation,
    known: &Vec<String>,
    asked: StoreCall,
)
    requires
        call_ensures(request, (call,), op),
        call_ensures(dispatch, (op, known), asked),
    ensures
        without_hint(asked) == without_hint(call),
        hint_of(asked) is Some <==> (hint_of(call) matches Some(h) && exists|i: int|
            0 <= i < known@.len() && (#[trigger] known@[i])@ == h@),
        hint_of(asked) is Some ==> hint_of(asked) == hint_of(call),
{
}

/// What is sent of a call says what the call says: each condition under its own name, the
/// range, the version, the size and the MIME type as they are.
pub proof fn law_message_says_what_the_call_says(call: StoreCall, op: Operation)
    requires
        call_ensures(request, (call,), op),
    ensures
        match (call, op) {
            (
                StoreCall::Get { key, options },
                Operation::Get { key: k, if_none_match, if_match, range },
            ) => {
                &&& k == key
                &&& range == options.range
                &&& if_none_match is Some <==> options.if_none_match is Some
                &&& if_match is Some <==> options.if_match is Some
                &&& if_none_match matches Some(t) ==> options.if_none_match->Some_0.text == t
                &&& if_match matches Some(t) ==> options.if_match->Some_0.text == t
            },
            (StoreCall::Head { key }, Operation::Head { key: k }) => k == key,
            (
                StoreCall::Put { key, len, write },
                Operation::Put { key: k, len: n, mode, immutable, content_type },
            ) => {
                &&& k == key && n == len
                &&& immutable == write.immutable && content_type == write.content_type
                &&& mode is Overwrite <==> write.mode is Overwrite
                &&& mode is Create <==> write.mode is Create
                &&& mode matches WireMode::Update { version } ==> (write.mode matches
                    PutMode::Update(v) && v.text == version)
            },
            (
                StoreCall::Delete { key, version },
                Operation::Delete { key: k, version: v },
            ) => {
                &&& k == key
                &&& v is Some <==> version is Some
                &&& v matches Some(t) ==> version->Some_0.text == t
            },
            (
                StoreCall::List { prefix, start_after },
                Operation::List { prefix: p, start_after: s },
            ) => p == prefix && s == start_after,
            (
                StoreCall::ListPrefixes { prefix },
                Operation::ListPrefixes { prefix: p },
            ) => p == prefix,
            (
                StoreCall::SignedGetUrl { key, ttl_secs },
                Operation::SignedGetUrl { key: k, ttl_secs: t },
            ) => k == key && t == ttl_secs,
            (StoreCall::AccelTarget { key }, Operation::AccelTarget { key: k }) => k == key,
            (
                StoreCall::Compose { key, sources, write },
                Operation::Compose { key: k, sources: s, mode, immutable, content_type },
            ) => {
                &&& k == key && s == sources
                &&& immutable == write.immutable && content_type == write.content_type
                &&& mode is Overwrite <==> write.mode is Overwrite
                &&& mode is Create <==> write.mode is Create
                &&& mode matches WireMode::Update { version } ==> (write.mode matches
                    PutMode::Update(v) && v.text == version)
            },
            _ => false,
        },
{
}

/// A failure reaches the caller as it was, and is sent under its own name: a missing object as
/// missing, a condition that does not hold with the version that is there, and a failure that
/// may be tried again as one.
pub proof fn law_failure_is_sent_under_its_name(e: StoreError, sent: WireError, back: StoreError)
    requires
        call_ensures(send_error, (e,), sent),
        call_ensures(receive_error, (sent,), back),
    ensures
        back == e,
        match (e, sent) {
            (StoreError::NotFound { key }, WireError::NotFound { key: k }) => k == key,
            (
                StoreError::PreconditionFailed { key, current },
                WireError::PreconditionFailed { key: k, current: c },
            ) => {
                &&& k == key
                &&& c is Some <==> current is Some
                &&& c matches Some(t) ==> current->Some_0.text == t
            },
            (StoreError::InvalidArgument(m), WireError::InvalidArgument { message }) => message
                == m,
            (StoreError::Retryable(m), WireError::Retryable { message }) => message == m,
            (StoreError::Other(m), WireError::Other { message }) => message == m,
            _ => false,
        },
{
}

/// An outcome reaches the caller as it was. A stream follows an object and a listing, and
/// nothing else.
pub proof fn law_outcome_reaches_the_caller(o: Outcome, sent: (Answer, bool), back: Outcome)
    requires
        call_ensures(answer, (o,), sent),
        call_ensures(outcome, (sent.0,), back),
    ensures
        back == o,
        sent.1 <==> o is Object || o is Listing,
        o matches Outcome::Object { meta } ==> (sent.0 matches Answer::Object { meta: m } && m.key
            == meta.key && m.size == meta.size && m.version == meta.version.text),
        o matches Outcome::Stored(meta) ==> (sent.0 matches Answer::Stored(m) && m.key == meta.key
            && m.size == meta.size && m.version == meta.version.text),
        o is Deleted <==> sent.0 is Done,
        o matches Outcome::NotModified { version } ==> (sent.0 matches Answer::NotModified {
            version: v,
        } && v == version.text),
{
}

/// Metadata is handed over as it is, up to 16 MiB. A reply says by its status whether it is a
/// success, and every other status is refused. A panic and a failure are replies too.
pub proof fn law_reply_says_how_it_ended<T>(
    bytes: Vec<u8>,
    handed: Result<Buffer, StoreError>,
    status: i32,
    success: Result<bool, StoreError>,
    encoded: Option<Vec<u8>>,
    failure: Reply,
    failed: Result<bool, StoreError>,
    reply: T,
    e: StoreError,
    replied: Result<T, StoreError>,
    refused: Result<T, StoreError>,
    panicked: Result<T, StoreError>,
)
    requires
        call_ensures(metadata, (bytes,), handed),
        call_ensures(reply_status, (status,), success),
        call_ensures(error_reply, (encoded,), failure),
        call_ensures(reply_status, (failure.status,), failed),
        call_ensures(contained::<T>, (Handled::Replied(reply),), replied),
        call_ensures(contained::<T>, (Handled::<T>::Failed(e),), refused),
        call_ensures(contained::<T>, (Handled::<T>::Panicked,), panicked),
    ensures
        handed is Ok <==> bytes@.len() <= 0x100_0000,
        handed matches Ok(b) ==> b.bytes == bytes && b.held,
        handed matches Err(why) ==> why is InvalidArgument,
        success is Ok <==> status == 0 || status == -1,
        success matches Ok(good) ==> good == (status == 0),
        failed == Ok::<bool, StoreError>(false),
        !failure.body,
        failure.metadata.held,
        encoded matches Some(b) ==> failure.metadata.bytes == b,
        replied == Ok::<T, StoreError>(reply),
        refused == Err::<T, StoreError>(e),
        panicked matches Err(why) && why.says("storage plugin panicked"@),
{
}

/// A store on the other side has the capabilities that its endpoint declares, and is the
/// endpoint that was handed over.
pub proof fn law_remote_store_is_its_endpoint<E>(
    store: Store<E>,
    remote: RemoteStore<E>,
    composes: bool,
    natively: bool,
)
    requires
        call_ensures(RemoteStore::<E>::new, (store,), remote),
        call_ensures(RemoteStore::<E>::supports_compose, (&remote,), composes),
        call_ensures(RemoteStore::<E>::compose_is_native, (&remote,), natively),
    ensures
        *remote.endpoint == store,
        composes <==> store.supports_compose == 1,
        natively <==> store.compose_is_native == 1,
{
}

/// An error that cannot be written down is told in words of its own.
pub proof fn law_error_is_told_in_any_case(failure: Reply)
    requires
        call_ensures(error_reply, (None::<Vec<u8>>,), failure),
    ensures
        failure.metadata.bytes@ == vstd::utf8::encode_utf8(
            "{\"error\":\"other\",\"message\":\"plugin failure\"}"@,
        ),
        failure.status == -1,
{
}

/// Every call, answer and failure can be sent and received.
pub proof fn law_everything_can_cross(
    call: StoreCall,
    op: Operation,
    known: &Vec<String>,
    e: StoreError,
    w: WireError,
    o: Outcome,
    a: Answer,
    status: i32,
    bytes: Vec<u8>,
)
    ensures
        call_requires(request, (call,)),
        call_requires(dispatch, (op, known)),
        call_requires(send_error, (e,)),
        call_requires(receive_error, (w,)),
        call_requires(answer, (o,)),
        call_requires(outcome, (a,)),
        call_requires(reply_status, (status,)),
        call_requires(metadata, (bytes,)),
{
}

/// The name, size and version of an object are sent and received as they are.
pub proof fn law_object_is_described_as_it_is(m: ObjectMeta, sent: Meta, back: ObjectMeta)
    requires
        call_ensures(send_meta, (m,), sent),
        call_ensures(receive_meta, (sent,), back),
    ensures
        back == m,
        sent.key == m.key,
        sent.size == m.size,
        sent.version == m.version.text,
{
}

} // verus!
