use walgit_store::plugin::abi::{
    check_header, check_slice, created, error_text, flag, flag_set, own_buffer, read_slice,
    startup_answer, Buffer, PluginHeader, Slice, Startup, ABI_VERSION, MAX_FRAME, MAX_METADATA,
};
use walgit_store::plugin::call::{
    answer, contained, dispatch, error_reply, metadata, outcome, receive_error, reply_status,
    request, send_error, Accel, Answer, Handled, Operation, Outcome, RemoteStore, Store, StoreCall,
    WireError, WireMode,
};
use walgit_store::plugin::frame::{receive, FrameAnswer, Pulled, Received, StreamState};
use walgit_store::plugin::handles::Handles;
use walgit_store::plugin::listing::{record, ListDecoder, ListStep};
use walgit_store::store::{
    ByteRange, GetOptions, ObjectMeta, PutMode, PutOptions, StoreError, Version,
};

fn refused<T>(r: Result<T, StoreError>) -> String {
    match r {
        Ok(_) => panic!("accepted"),
        Err(StoreError::Other(m)) => m,
        Err(StoreError::InvalidArgument(m)) => format!("invalid: {m}"),
        Err(_) => panic!("another failure"),
    }
}

fn version(text: &str) -> Version {
    Version::new(text.to_string())
}

#[test]
fn a_message_is_checked_before_it_is_read() {
    assert_eq!(refused(check_slice(false, 11, 10)), "plugin message exceeds limit");
    assert_eq!(refused(check_slice(true, 1, 10)), "null plugin message");
    assert_eq!(check_slice(true, 0, 10).ok(), Some(false));
    assert_eq!(check_slice(false, 10, 10).ok(), Some(true));
    assert_eq!(read_slice(Slice::new(b"abc"), 3).ok().expect("read"), b"abc");
    assert_eq!(refused(read_slice(Slice::new(b"abc"), 2)), "plugin message exceeds limit");
    assert!(read_slice(Slice { ptr: None, len: 0 }, 2).ok().expect("read").is_empty());
    assert_eq!(refused(read_slice(Slice { ptr: None, len: 1 }, 2)), "null plugin message");
}

#[test]
fn a_buffer_is_released_once() {
    let mut b = own_buffer(b"abc".to_vec());
    assert_eq!(b.slice().len, 3);
    assert_eq!(b.release(), Some(b"abc".to_vec()));
    assert_eq!(b.release(), None);
    assert!(b.slice().ptr.is_none());
    let mut none = Buffer::empty();
    assert_eq!(none.release(), None);
}

#[test]
fn an_error_is_read_as_text() {
    assert_eq!(error_text(&own_buffer("größer".as_bytes().to_vec())), "größer");
    assert_eq!(error_text(&own_buffer(vec![b'a', 0xff, b'b'])), "a\u{fffd}b");
    assert_eq!(error_text(&Buffer::empty()), "");
    assert_eq!(
        error_text(&own_buffer(vec![b'x'; MAX_METADATA + 1])),
        "invalid error response"
    );
}

#[test]
fn a_descriptor_of_another_version_is_refused() {
    assert_eq!(refused(check_header(None, 16)), "null storage plugin descriptor");
    let other = PluginHeader { abi_version: 2, struct_size: 16 };
    assert_eq!(refused(check_header(Some(other), 16)), "unsupported storage plugin ABI");
    let wide = PluginHeader { abi_version: ABI_VERSION, struct_size: 24 };
    assert_eq!(refused(check_header(Some(wide), 16)), "storage plugin ABI size mismatch");
    let good = PluginHeader { abi_version: ABI_VERSION, struct_size: 16 };
    assert!(check_header(Some(good), 16).is_ok());
}

#[test]
fn a_start_that_fails_says_why() {
    assert!(created(0, &Buffer::empty()).is_ok());
    let (status, error) = startup_answer(Startup::Failed("no bucket".to_string()));
    assert_eq!(status, -1);
    assert_eq!(
        refused(created(status, &error.expect("message"))),
        "storage plugin initialization failed: no bucket"
    );
    let (status, error) = startup_answer(Startup::Panicked);
    assert_eq!(
        refused(created(status, &error.expect("message"))),
        "storage plugin initialization failed: storage plugin initialization panicked"
    );
    let (status, error) = startup_answer(Startup::Ready);
    assert_eq!((status, error.is_none()), (0, true));
}

#[test]
fn capabilities_are_ones() {
    assert_eq!((flag(true), flag(false)), (1, 0));
    assert!(flag_set(1) && !flag_set(0) && !flag_set(2));
    let remote = RemoteStore::new(Store { endpoint: (), supports_compose: 1, compose_is_native: 255 });
    assert!(remote.supports_compose());
    assert!(!remote.compose_is_native());
}

/// Sends chunks through frames, and puts them together again.
fn cross(chunks: &[Vec<u8>]) -> (Vec<u8>, usize) {
    let mut state = StreamState::new();
    let mut left = chunks.iter();
    let mut got = Vec::new();
    let mut frames = 0;
    loop {
        let pulled = if state.exhausted() {
            Some(match left.next() {
                Some(c) => Pulled::Chunk(c.clone()),
                None => Pulled::Ended,
            })
        } else {
            None
        };
        let told = state.next(pulled);
        let code = told.status();
        let buffer = match told {
            FrameAnswer::Bytes(b) => own_buffer(b),
            _ => Buffer::empty(),
        };
        match receive(code, &buffer).ok().expect("received") {
            Received::Ended => return (got, frames),
            Received::Bytes(b) => {
                assert!(b.len() <= MAX_FRAME);
                got.extend(b);
                frames += 1;
            }
            Received::Error => panic!("no error was sent"),
        }
    }
}

#[test]
fn a_stream_crosses_byte_for_byte() {
    let big: Vec<u8> = (0..2 * MAX_FRAME + 5).map(|i| (i % 253) as u8).collect();
    let chunks = vec![b"abc".to_vec(), Vec::new(), big, b"z".to_vec()];
    let (got, frames) = cross(&chunks);
    assert_eq!(got, chunks.concat());
    assert_eq!(frames, 1 + 1 + 3 + 1);
    assert_eq!(cross(&[]), (Vec::new(), 0));
    assert_eq!(cross(&[vec![7; MAX_FRAME]]).1, 1);
}

#[test]
fn a_failed_stream_is_told_apart_from_an_ended_one() {
    let mut s = StreamState::new();
    let failed = s.next(Some(Pulled::Failed(StoreError::other("reset"))));
    assert_eq!(failed.status(), -1);
    match failed {
        FrameAnswer::Failed(e) => assert_eq!(refused::<()>(Err(e)), "reset"),
        _ => panic!("a failure"),
    }
    match s.next(Some(Pulled::Panicked)) {
        FrameAnswer::Failed(e) => assert_eq!(refused::<()>(Err(e)), "plugin stream panicked"),
        _ => panic!("a failure"),
    }
    assert_eq!(s.next(Some(Pulled::Ended)).status(), 0);
    assert!(matches!(receive(-1, &Buffer::empty()), Ok(Received::Error)));
    assert_eq!(refused(receive(3, &Buffer::empty())), "invalid plugin stream status");
    let large = own_buffer(vec![0; MAX_FRAME + 1]);
    assert_eq!(refused(receive(1, &large)), "plugin message exceeds limit");
}

fn decode(chunks: &[&[u8]]) -> Result<Vec<Vec<u8>>, StoreError> {
    let mut d = ListDecoder::new();
    let mut out = Vec::new();
    let mut left = chunks.iter();
    loop {
        match d.next() {
            ListStep::Record(r) => out.push(r),
            ListStep::Refused(e) => return Err(e),
            ListStep::Feed => match left.next() {
                Some(c) => d.feed(c),
                None => {
                    d.end()?;
                    return Ok(out);
                }
            },
        }
    }
}

#[test]
fn a_listing_may_be_split_anywhere() {
    let whole = [record(b"{\"a\":1}".to_vec()), record(b"{}".to_vec())].concat();
    assert_eq!(whole, b"{\"a\":1}\n{}\n");
    let want = vec![b"{\"a\":1}\n".to_vec(), b"{}\n".to_vec()];
    for i in 0..=whole.len() {
        for j in i..=whole.len() {
            let got = decode(&[&whole[..i], &whole[i..j], &whole[j..]]).ok().expect("decoded");
            assert_eq!(got, want);
        }
    }
    assert!(decode(&[]).ok().expect("decoded").is_empty());
}

#[test]
fn a_listing_that_ends_early_is_refused() {
    assert_eq!(refused(decode(&[b"{}\n{"])), "truncated plugin listing");
    let endless = vec![b'x'; MAX_METADATA + 1];
    assert_eq!(refused(decode(&[&endless])), "invalid: plugin list record exceeds limit");
}

fn asked(op: Operation) -> StoreCall {
    dispatch(op, &vec!["text/plain".to_string(), "application/json".to_string()])
}

#[test]
fn an_unknown_hint_is_dropped() {
    let put = |hint: &str| StoreCall::Put {
        key: "k".to_string(),
        len: 9,
        write: PutOptions {
            mode: PutMode::Overwrite,
            immutable: false,
            content_type: Some(hint.to_string()),
        },
    };
    for (hint, kept) in [("application/json", true), ("text/plain", true), ("text/html", false)] {
        match asked(request(put(hint))) {
            StoreCall::Put { write, .. } => {
                assert_eq!(write.content_type.as_deref(), kept.then_some(hint));
            }
            _ => panic!("another call"),
        }
    }
}

#[test]
fn a_failure_crosses_unchanged() {
    let back = |e| receive_error(send_error(e));
    assert!(matches!(back(StoreError::not_found("k")), StoreError::NotFound { key } if key == "k"));
    let stale = StoreError::PreconditionFailed { key: "k".to_string(), current: Some(version("v")) };
    assert!(matches!(
        back(stale),
        StoreError::PreconditionFailed { key, current: Some(v) } if key == "k" && v.as_str() == "v"
    ));
    assert!(matches!(back(StoreError::invalid("x")), StoreError::InvalidArgument(m) if m == "x"));
    assert!(matches!(
        back(StoreError::Retryable("x".to_string())),
        StoreError::Retryable(m) if m == "x"
    ));
    assert!(matches!(send_error(StoreError::other("x")), WireError::Other { message } if message == "x"));
}

#[test]
fn a_call_crosses_unchanged() {
    let call = StoreCall::Get {
        key: "k".to_string(),
        options: GetOptions {
            if_none_match: Some(version("a")),
            if_match: None,
            range: Some(ByteRange { start: 1, end: 5 }),
        },
    };
    match asked(request(call)) {
        StoreCall::Get { key, options } => {
            assert_eq!(key, "k");
            assert_eq!(options.if_none_match.expect("kept").as_str(), "a");
            assert!(options.if_match.is_none());
            assert_eq!(options.range, Some(ByteRange { start: 1, end: 5 }));
        }
        _ => panic!("another call"),
    }
    let call = StoreCall::Put {
        key: "k".to_string(),
        len: 9,
        write: PutOptions {
            mode: PutMode::Update(version("v")),
            immutable: true,
            content_type: Some("text/plain".to_string()),
        },
    };
    match request(call) {
        Operation::Put { key, len, mode: WireMode::Update { version }, immutable, content_type } => {
            assert_eq!((key.as_str(), len, version.as_str()), ("k", 9, "v"));
            assert!(immutable);
            assert_eq!(content_type.as_deref(), Some("text/plain"));
        }
        _ => panic!("another operation"),
    }
    let compose = StoreCall::Compose {
        key: "all".to_string(),
        sources: vec!["a".to_string(), "b".to_string()],
        write: PutOptions { mode: PutMode::Create, immutable: false, content_type: None },
    };
    match asked(request(compose)) {
        StoreCall::Compose { key, sources, write } => {
            assert_eq!((key.as_str(), sources.len()), ("all", 2));
            assert!(matches!(write.mode, PutMode::Create));
        }
        _ => panic!("another call"),
    }
    match asked(request(StoreCall::Delete { key: "k".to_string(), version: Some(version("3")) })) {
        StoreCall::Delete { version, .. } => assert_eq!(version.expect("kept").as_str(), "3"),
        _ => panic!("another call"),
    }
    for call in [
        StoreCall::Head { key: "h".to_string() },
        StoreCall::AccelTarget { key: "h".to_string() },
        StoreCall::SignedGetUrl { key: "h".to_string(), ttl_secs: 60 },
    ] {
        match asked(request(call)) {
            StoreCall::Head { key } | StoreCall::AccelTarget { key } => assert_eq!(key, "h"),
            StoreCall::SignedGetUrl { key, ttl_secs } => assert_eq!((key.as_str(), ttl_secs), ("h", 60)),
            _ => panic!("another call"),
        }
    }
    match asked(request(StoreCall::List {
        prefix: "p/".to_string(),
        start_after: Some("p/q".to_string()),
    })) {
        StoreCall::List { prefix, start_after } => {
            assert_eq!((prefix.as_str(), start_after.as_deref()), ("p/", Some("p/q")));
        }
        _ => panic!("another call"),
    }
    match asked(request(StoreCall::ListPrefixes { prefix: "p/".to_string() })) {
        StoreCall::ListPrefixes { prefix } => assert_eq!(prefix, "p/"),
        _ => panic!("another call"),
    }
}

#[test]
fn an_outcome_crosses_unchanged() {
    let meta = || ObjectMeta { key: "k".to_string(), size: 4, version: version("v") };
    let (a, stream) = answer(Outcome::Object { meta: meta() });
    assert!(stream);
    match outcome(a) {
        Outcome::Object { meta } => {
            assert_eq!((meta.key.as_str(), meta.size, meta.version.as_str()), ("k", 4, "v"));
        }
        _ => panic!("another outcome"),
    }
    let (a, stream) = answer(Outcome::NotModified { version: version("v") });
    assert!(!stream && matches!(a, Answer::NotModified { version } if version == "v"));
    assert!(answer(Outcome::Listing).1);
    assert!(matches!(outcome(answer(Outcome::Head(None)).0), Outcome::Head(None)));
    assert!(matches!(outcome(answer(Outcome::Head(Some(meta()))).0), Outcome::Head(Some(m)) if m.size == 4));
    assert!(matches!(outcome(answer(Outcome::Stored(meta())).0), Outcome::Stored(m) if m.key == "k"));
    assert!(matches!(outcome(answer(Outcome::Deleted).0), Outcome::Deleted));
    assert!(matches!(
        outcome(answer(Outcome::Prefixes(vec!["a/".to_string()])).0),
        Outcome::Prefixes(l) if l == ["a/"]
    ));
    assert!(matches!(
        outcome(answer(Outcome::SignedUrl(Some("https://u".to_string()))).0),
        Outcome::SignedUrl(Some(u)) if u == "https://u"
    ));
    let target = Accel { url: "https://u".to_string(), authorization: Some("t".to_string()) };
    assert!(matches!(
        outcome(answer(Outcome::Accel(Some(target))).0),
        Outcome::Accel(Some(a)) if a.authorization.as_deref() == Some("t")
    ));
}

#[test]
fn metadata_is_limited() {
    assert_eq!(metadata(b"{}".to_vec()).ok().expect("fits").bytes, b"{}");
    assert_eq!(
        refused(metadata(vec![b'x'; MAX_METADATA + 1])),
        "invalid: plugin metadata exceeds limit"
    );
}

#[test]
fn a_panic_does_not_cross() {
    assert_eq!(contained(Handled::Replied(7)).ok(), Some(7));
    assert_eq!(refused::<()>(contained(Handled::Panicked)), "storage plugin panicked");
    assert_eq!(refused::<()>(contained(Handled::Failed(StoreError::other("x")))), "x");
    let r = error_reply(None);
    assert_eq!(r.status, -1);
    assert_eq!(r.metadata.bytes, br#"{"error":"other","message":"plugin failure"}"#);
    assert_eq!(error_reply(Some(b"e".to_vec())).metadata.bytes, b"e");
    assert_eq!(reply_status(0).ok(), Some(true));
    assert_eq!(reply_status(-1).ok(), Some(false));
    assert_eq!(refused(reply_status(2)), "invalid storage plugin status");
}

#[test]
fn an_endpoint_is_released_once_and_last() {
    let mut handles = Handles::new();
    handles.opened();
    handles.opened();
    assert!(!handles.closed());
    handles.opened();
    assert!(!handles.closed());
    assert!(!handles.closed());
    assert_eq!(handles.open, 1);
    assert!(handles.closed());
    assert_eq!(handles.open, 0);
    assert!(Handles::new().closed());
}

#[test]
fn a_record_may_be_as_long_as_metadata() {
    let mut line = vec![b'x'; MAX_METADATA];
    line.push(b'\n');
    let mut d = ListDecoder::new();
    d.feed(&line[..MAX_METADATA]);
    assert!(matches!(d.next(), ListStep::Feed));
    d.feed(b"\n");
    assert!(matches!(d.next(), ListStep::Record(_)));
    assert!(d.end().is_ok());
    let mut d = ListDecoder::new();
    d.feed(&vec![b'x'; MAX_METADATA + 1]);
    assert!(matches!(d.next(), ListStep::Refused(_)));
}
