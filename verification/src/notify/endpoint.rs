//! Both sides of the boundary to a transport: the host's handle on it, and the
//! guard in front of the transport itself.
use std::sync::Arc;

use vstd::prelude::*;
use vstd::utf8::encode_utf8;

verus! {

/// Bytes of an object name that cross at most.
pub const MAX_KEY: usize = 4 * 1024;

/// Bytes of a transport's options at most.
pub const MAX_METADATA: usize = 16 * 1024 * 1024;

/// What a plugin implements: the transport. What it can answer is for it to say; one
/// that says nothing of it promises nothing.
pub trait NotifySource {
    /// This transport can take `key` for publication.
    open spec fn carries(&self, key: Seq<char>) -> bool {
        true
    }

    /// This transport can fail to publish `key` with the message `why`.
    open spec fn loses(&self, key: Seq<char>, why: Seq<char>) -> bool {
        true
    }

    /// The next announcement can be `key`; `None` ends the subscription.
    open spec fn brings(&self, key: Option<Seq<char>>) -> bool {
        true
    }

    /// This transport can report a gap with the message `why`.
    open spec fn gaps(&self, why: Seq<char>) -> bool {
        true
    }

    /// Announces an object under its full name, prefix and all.
    fn publish(&self, key: &str) -> (r: Result<(), String>)
        ensures
            match r {
                Ok(_) => self.carries(key@),
                Err(why) => self.loses(key@, why@),
            },
    ;

    /// Waits for the next announcement. `Ok(None)` ends the subscription. A failure
    /// means that messages were lost and that the transport has already recovered.
    fn next(&self) -> (r: Result<Option<String>, String>)
        ensures
            match r {
                Ok(Some(key)) => self.brings(Some(key@)),
                Ok(None) => self.brings(None),
                Err(why) => self.gaps(why@),
            },
    ;
}

/// A transport behind its guard.
pub struct NotifyState<N: NotifySource> {
    pub source: N,
    /// The transport's runtime is there. A transport that is shutting down must not
    /// be used.
    pub running: bool,
}

/// How a call of a transport ended.
pub enum Called<T> {
    Returned(Result<T, String>),
    Panicked,
}

/// What a call of a transport is answered with. A panic does not cross the
/// boundary.
pub fn contained<T>(called: Called<T>) -> (r: Result<T, String>)
    ensures
        match called {
            Called::Returned(result) => r == result,
            Called::Panicked => r matches Err(m) && m@ == "notify plugin panicked"@,
        },
{
    match called {
        Called::Returned(result) => result,
        Called::Panicked => Err(String::from_str("notify plugin panicked")),
    }
}

impl<N: NotifySource> NotifyState<N> {
    pub fn publish(&self, key: &str) -> (r: Result<(), String>)
        ensures
            if self.running {
                match r {
                    Ok(_) => self.source.carries(key@),
                    Err(m) => self.source.loses(key@, m@),
                }
            } else {
                r matches Err(m) && m@ == "notify plugin is shutting down"@
            },
    {
        if !self.running {
            return Err(String::from_str("notify plugin is shutting down"));
        }
        self.source.publish(key)
    }

    pub fn next(&self) -> (r: Result<Option<String>, String>)
        ensures
            if self.running {
                match r {
                    Ok(Some(key)) => self.source.brings(Some(key@)),
                    Ok(None) => self.source.brings(None),
                    Err(m) => self.source.gaps(m@),
                }
            } else {
                r matches Err(m) && m@ == "notify plugin is shutting down"@
            },
    {
        if !self.running {
            return Err(String::from_str("notify plugin is shutting down"));
        }
        self.source.next()
    }
}

/// The host's handle. Cloning it shares one transport, which is how one deployment
/// publishes from its store and subscribes from its bridge.
pub struct RemoteNotify<E> {
    pub endpoint: Arc<E>,
}

/// Whether an object name may cross.
pub fn check_key(key: &str) -> (r: Result<(), String>)
    ensures
        if encode_utf8(key@).len() <= MAX_KEY {
            r is Ok
        } else {
            r matches Err(m) && m@ == "notified key exceeds limit"@
        },
{
    if key.as_bytes().len() > MAX_KEY {
        return Err(String::from_str("notified key exceeds limit"));
    }
    Ok(())
}

/// Whether a transport's options may cross.
pub fn check_options(len: usize) -> (r: Result<(), String>)
    ensures
        if len <= MAX_METADATA {
            r is Ok
        } else {
            r matches Err(m) && m@ == "plugin options exceed limit"@
        },
{
    if len > MAX_METADATA {
        return Err(String::from_str("plugin options exceed limit"));
    }
    Ok(())
}

pub open spec fn explained(what: Seq<char>, why: Seq<char>) -> Seq<char> {
    what + why
}

fn explain(what: &str, why: &str) -> (r: String)
    ensures
        r@ == explained(what@, why@),
{
    let mut m = String::from_str(what);
    m.append(why);
    m
}

/// What the host makes of an answer to a publication.
pub fn published(called: Called<()>) -> (r: Result<(), String>)
    ensures
        match called {
            Called::Returned(Ok(_)) => r is Ok,
            Called::Returned(Err(why)) => r matches Err(m) && m@ == explained(
                "notify plugin publish failed: "@,
                why@,
            ),
            Called::Panicked => r matches Err(m) && m@ == "notify plugin panicked"@,
        },
{
    match called {
        Called::Returned(Ok(())) => Ok(()),
        Called::Returned(Err(why)) => Err(explain("notify plugin publish failed: ", why.as_str())),
        Called::Panicked => Err(String::from_str("notify plugin panicked")),
    }
}

/// What the host makes of an answer to the wait for an announcement.
pub fn received(called: Called<Option<String>>) -> (r: Result<Option<String>, String>)
    ensures
        match called {
            Called::Returned(Ok(key)) => r == Ok::<Option<String>, String>(key),
            Called::Returned(Err(why)) => r matches Err(m) && m@ == explained(
                "notify plugin subscription failed: "@,
                why@,
            ),
            Called::Panicked => r matches Err(m) && m@ == "notify plugin panicked"@,
        },
{
    match called {
        Called::Returned(Ok(key)) => Ok(key),
        Called::Returned(Err(why)) => Err(
            explain("notify plugin subscription failed: ", why.as_str()),
        ),
        Called::Panicked => Err(String::from_str("notify plugin panicked")),
    }
}

/// What a transport's start is answered with.
pub fn started<T>(called: Called<T>) -> (r: Result<T, String>)
    ensures
        match called {
            Called::Returned(result) => r == result,
            Called::Panicked => r matches Err(m) && m@ == "notify plugin initialization panicked"@,
        },
{
    match called {
        Called::Returned(result) => result,
        Called::Panicked => Err(String::from_str("notify plugin initialization panicked")),
    }
}

/// What the host makes of a transport's start.
pub fn loaded<E>(started: Result<E, String>) -> (r: Result<RemoteNotify<E>, String>)
    ensures
        match started {
            Ok(endpoint) => r matches Ok(n) && *n.endpoint == endpoint,
            Err(why) => r matches Err(m) && m@ == explained(
                "notify plugin initialization failed: "@,
                why@,
            ),
        },
{
    match started {
        Ok(endpoint) => Ok(RemoteNotify::new(endpoint)),
        Err(why) => Err(explain("notify plugin initialization failed: ", why.as_str())),
    }
}

impl<E> RemoteNotify<E> {
    pub fn new(endpoint: E) -> (r: Self)
        ensures
            *r.endpoint == endpoint,
    {
        RemoteNotify { endpoint: Arc::new(endpoint) }
    }
}

impl<N: NotifySource> RemoteNotify<NotifyState<N>> {
    /// Announces an object through a transport in this process. A name that is too
    /// long to be an object's is refused before it gets there.
    pub fn publish(&self, key: &str) -> (r: Result<(), String>)
        ensures
            if encode_utf8(key@).len() > MAX_KEY {
                r matches Err(m) && m@ == "notified key exceeds limit"@
            } else {
                match r {
                    Ok(_) => self.endpoint.running && self.endpoint.source.carries(key@),
                    Err(m) => exists|why: Seq<char>|
                        m@ == #[trigger] explained("notify plugin publish failed: "@, why)
                            && if self.endpoint.running {
                            self.endpoint.source.loses(key@, why)
                        } else {
                            why == "notify plugin is shutting down"@
                        },
                }
            },
    {
        match check_key(key) {
            Ok(()) => {},
            Err(m) => {
                return Err(m);
            },
        }
        published(Called::Returned(self.endpoint.publish(key)))
    }

    /// Waits for the next announcement of a transport in this process.
    pub fn next(&self) -> (r: Result<Option<String>, String>)
        ensures
            match r {
                Ok(Some(key)) => self.endpoint.running && self.endpoint.source.brings(Some(key@)),
                Ok(None) => self.endpoint.running && self.endpoint.source.brings(None),
                Err(m) => exists|why: Seq<char>|
                    m@ == #[trigger] explained("notify plugin subscription failed: "@, why)
                        && if self.endpoint.running {
                        self.endpoint.source.gaps(why)
                    } else {
                        why == "notify plugin is shutting down"@
                    },
            },
    {
        received(Called::Returned(self.endpoint.next()))
    }
}

/// A name crosses exactly where it takes no more than 4096 bytes, and options where they take
/// no more than 16 MiB.
pub proof fn law_only_what_is_too_long_is_refused(
    key: &str,
    len: usize,
    named: Result<(), String>,
    opted: Result<(), String>,
)
    requires
        call_ensures(check_key, (key,), named),
        call_ensures(check_options, (len,), opted),
    ensures
        named is Ok <==> encode_utf8(key@).len() <= 4096,
        opted is Ok <==> len <= 0x100_0000,
        named matches Err(m) ==> m@ == "notified key exceeds limit"@,
        opted matches Err(m) ==> m@ == "plugin options exceed limit"@,
{
}

/// What a transport answers is what the host is told: its successes as they are, its failures
/// with what was being done in front of them, and a panic as a failure.
pub proof fn law_host_is_told_what_the_transport_answered(
    sent: Result<(), String>,
    next: Result<Option<String>, String>,
    told: Result<(), String>,
    got: Result<Option<String>, String>,
    lost: Result<(), String>,
    missed: Result<Option<String>, String>,
)
    requires
        call_ensures(published, (Called::Returned(sent),), told),
        call_ensures(received, (Called::Returned(next),), got),
        call_ensures(published, (Called::<()>::Panicked,), lost),
        call_ensures(received, (Called::<Option<String>>::Panicked,), missed),
    ensures
        told is Ok <==> sent is Ok,
        sent matches Err(why) ==> (told matches Err(m) && m@ == "notify plugin publish failed: "@
            + why@),
        next matches Ok(key) ==> got == Ok::<Option<String>, String>(key),
        next matches Err(why) ==> (got matches Err(m) && m@
            == "notify plugin subscription failed: "@ + why@),
        lost matches Err(m) && m@ == "notify plugin panicked"@,
        missed matches Err(m) && m@ == "notify plugin panicked"@,
{
}

/// A transport that shuts down is not used, and a name that is too long does not reach one.
/// Otherwise what the transport did is what is answered.
pub proof fn law_transport_is_asked_only_while_it_runs<N: NotifySource>(
    state: &NotifyState<N>,
    host: &RemoteNotify<NotifyState<N>>,
    key: &str,
    guarded: Result<(), String>,
    waited: Result<Option<String>, String>,
    sent: Result<(), String>,
    got: Result<Option<String>, String>,
)
    requires
        call_ensures(NotifyState::<N>::publish, (state, key), guarded),
        call_ensures(NotifyState::<N>::next, (state,), waited),
        call_ensures(RemoteNotify::<NotifyState<N>>::publish, (host, key), sent),
        call_ensures(RemoteNotify::<NotifyState<N>>::next, (host,), got),
    ensures
        !state.running ==> guarded is Err && waited is Err,
        guarded is Ok ==> state.source.carries(key@),
        waited matches Ok(Some(k)) ==> state.source.brings(Some(k@)),
        waited matches Ok(None) ==> state.source.brings(None),
        state.running ==> (guarded matches Err(m) ==> state.source.loses(key@, m@)),
        state.running ==> (waited matches Err(m) ==> state.source.gaps(m@)),
        encode_utf8(key@).len() > 4096 || !host.endpoint.running ==> sent is Err,
        !host.endpoint.running ==> got is Err,
        sent is Ok ==> host.endpoint.source.carries(key@),
        got matches Ok(Some(k)) ==> host.endpoint.source.brings(Some(k@)),
        got matches Ok(None) ==> host.endpoint.source.brings(None),
        encode_utf8(key@).len() <= 4096 && host.endpoint.running && sent is Err ==> exists|
            why: Seq<char>,
        | #[trigger]
            host.endpoint.source.loses(key@, why) && sent->Err_0@
                == "notify plugin publish failed: "@ + why,
        host.endpoint.running && got is Err ==> exists|why: Seq<char>| #[trigger]
            host.endpoint.source.gaps(why) && got->Err_0@ == "notify plugin subscription failed: "@
                + why,
{
}

/// A panic of a transport becomes a failure, at its start as in its calls, and everything else
/// is passed on as it is. A transport that did not start is told why.
pub proof fn law_panic_stays_inside<T>(
    result: Result<T, String>,
    called: Result<T, String>,
    fallen: Result<T, String>,
    begun: Result<T, String>,
    broken: Result<T, String>,
    host: Result<RemoteNotify<T>, String>,
)
    requires
        call_ensures(contained::<T>, (Called::Returned(result),), called),
        call_ensures(contained::<T>, (Called::<T>::Panicked,), fallen),
        call_ensures(started::<T>, (Called::Returned(result),), begun),
        call_ensures(started::<T>, (Called::<T>::Panicked,), broken),
        call_ensures(loaded::<T>, (result,), host),
    ensures
        called == result,
        begun == result,
        fallen matches Err(m) && m@ == "notify plugin panicked"@,
        broken matches Err(m) && m@ == "notify plugin initialization panicked"@,
        result matches Ok(endpoint) ==> (host matches Ok(n) && *n.endpoint == endpoint),
        result matches Err(why) ==> (host matches Err(m) && m@
            == "notify plugin initialization failed: "@ + why@),
{
}

} // verus!
