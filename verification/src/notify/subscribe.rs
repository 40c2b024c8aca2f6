//! What a subscriber does with what it receives.
use vstd::prelude::*;

verus! {

/// What a subscription does next.
pub enum Action {
    /// Wake for the object of this name.
    Finalized(String),
    /// Sweep: announcements were lost, and the transport has recovered.
    Reconcile,
    /// The subscription ended.
    Stop,
}

/// What a subscription does with what its transport answered. A failure is a
/// recovered gap to reconcile, never a reason to stop reading.
pub fn on_next(next: Result<Option<String>, String>) -> (r: Action)
    ensures
        match next {
            Ok(Some(key)) => r == Action::Finalized(key),
            Ok(None) => r is Stop,
            Err(_) => r is Reconcile,
        },
{
    match next {
        Ok(Some(key)) => Action::Finalized(key),
        Ok(None) => Action::Stop,
        Err(_) => Action::Reconcile,
    }
}

/// What a subscriber is woken with.
pub enum Wakeup {
    Finalized(Seq<char>),
    Reconcile,
}

/// What a subscription does with what it receives.
pub trait Wake {
    /// What it was woken with so far.
    open spec fn woken(&self) -> Seq<Wakeup> {
        arbitrary()
    }

    /// An object was announced.
    fn finalized(&mut self, key: &str)
        ensures
            final(self).woken() == old(self).woken().push(Wakeup::Finalized(key@)),
    ;

    /// There was a gap. Announcements are not replayed, so the objects that were
    /// announced in it have to be looked for.
    fn reconcile(&mut self)
        ensures
            final(self).woken() == old(self).woken().push(Wakeup::Reconcile),
    ;
}

/// Does what follows from an answer of the transport. Returns whether the
/// subscription goes on.
pub fn deliver<W: Wake>(next: Result<Option<String>, String>, on: &mut W) -> (r: bool)
    ensures
        match next {
            Ok(Some(key)) => r && final(on).woken() == old(on).woken().push(
                Wakeup::Finalized(key@),
            ),
            Ok(None) => !r && *final(on) == *old(on),
            Err(_) => r && final(on).woken() == old(on).woken().push(Wakeup::Reconcile),
        },
{
    match on_next(next) {
        Action::Finalized(key) => {
            on.finalized(key.as_str());
            true
        },
        Action::Reconcile => {
            on.reconcile();
            true
        },
        Action::Stop => false,
    }
}

/// Whether a subscription is started: by an instance that has a bridge to wake and
/// a transport that is configured.
pub fn subscribes(has_bridge: bool, configured: bool) -> (r: bool)
    ensures
        r == (has_bridge && configured),
{
    has_bridge && configured
}

/// What is done about the transport that a deployment configured.
pub enum Opening {
    /// None is configured.
    Nothing,
    /// Its library is loaded.
    Load,
    Refused(String),
}

/// What is done about a configured library. A relative path would be resolved
/// against whatever directory the process happens to be in, so it is refused.
/// `absolute` is `None` where no library is configured.
pub fn open(absolute: Option<bool>) -> (r: Opening)
    ensures
        match absolute {
            None => r is Nothing,
            Some(true) => r is Load,
            Some(false) => r matches Opening::Refused(m) && m@
                == "store.notify.library must be absolute"@,
        },
{
    match absolute {
        None => Opening::Nothing,
        Some(true) => Opening::Load,
        Some(false) => Opening::Refused(String::from_str("store.notify.library must be absolute")),
    }
}

/// The channel that announcements go over, where none is configured.
pub fn default_channel() -> (r: String)
    ensures
        r@ == "walgit:object-finalized"@,
{
    String::from_str("walgit:object-finalized")
}

/// A subscription that reconnects by itself.
pub struct Reconnecting {
    /// It has been listening before.
    pub subscribed: bool,
}

/// What happens to such a subscription.
pub enum Event {
    /// It is listening, for the first time or again.
    Subscribed,
    /// A message came; `None` where it is no text.
    Message(Option<String>),
    /// The connection closed or failed.
    Lost,
}

/// What it does about it.
pub enum Response {
    Reconcile,
    Finalized(String),
    Listen,
    /// Wait a little, and subscribe again.
    Retry,
}

impl Reconnecting {
    pub fn new() -> (r: Reconnecting)
        ensures
            !r.subscribed,
    {
        Reconnecting { subscribed: false }
    }

    /// What the subscription does about an event. It reconciles once it is
    /// listening again and not before: sweeping first would lose what is published
    /// between the sweep and the new subscription. A first subscription has no gap
    /// behind it.
    pub fn on(&mut self, event: Event) -> (r: Response)
        ensures
            match event {
                Event::Subscribed => {
                    &&& final(self).subscribed
                    &&& if old(self).subscribed {
                        r is Reconcile
                    } else {
                        r is Listen
                    }
                },
                Event::Message(Some(key)) => r == Response::Finalized(key) && *final(self) == *old(
                    self,
                ),
                Event::Message(None) => r is Listen && *final(self) == *old(self),
                Event::Lost => r is Retry && *final(self) == *old(self),
            },
    {
        match event {
            Event::Subscribed => {
                let again = self.subscribed;
                self.subscribed = true;
                if again {
                    Response::Reconcile
                } else {
                    Response::Listen
                }
            },
            Event::Message(Some(key)) => Response::Finalized(key),
            Event::Message(None) => Response::Listen,
            Event::Lost => Response::Retry,
        }
    }
}

/// Whether the subscription has been listening after these events.
pub open spec fn listened(events: Seq<Event>) -> bool {
    exists|i: int| 0 <= i < events.len() && #[trigger] events[i] is Subscribed
}

/// The state after a list of events.
pub open spec fn state_after(start: bool, events: Seq<Event>) -> bool
    decreases events.len(),
{
    if events.len() == 0 {
        start
    } else {
        state_after(start, events.drop_last()) || events.last() is Subscribed
    }
}

/// Every subscription but the first reconciles, whatever happened in between: the
/// state after any events is whether one of them was a subscription.
pub proof fn law_every_gap_is_reconciled(events: Seq<Event>)
    ensures
        state_after(false, events) == listened(events),
    decreases events.len(),
{
    if events.len() > 0 {
        let front = events.drop_last();
        law_every_gap_is_reconciled(front);
        let n = events.len() - 1;
        if state_after(false, events) {
            if events.last() is Subscribed {
                assert(events[n] is Subscribed);
            } else {
                let i = choose|i: int| 0 <= i < front.len() && #[trigger] front[i] is Subscribed;
                assert(events[i] is Subscribed);
            }
        }
        if listened(events) {
            let i = choose|i: int| 0 <= i < events.len() && #[trigger] events[i] is Subscribed;
            if i < n {
                assert(front[i] is Subscribed);
            }
        }
    }
}

/// A subscription wakes for every object that is announced, sweeps after every gap, and stops
/// only where it is told that it ended.
pub proof fn law_subscription_loses_nothing(next: Result<Option<String>, String>, a: Action)
    requires
        call_ensures(on_next, (next,), a),
    ensures
        a is Stop <==> next == Ok::<Option<String>, String>(None),
        a is Reconcile <==> next is Err,
        a is Finalized <==> next matches Ok(Some(_)),
        a matches Action::Finalized(key) ==> next == Ok::<Option<String>, String>(Some(key)),
{
}

/// A subscription that reconnects sweeps each time it is listening again and at no other
/// time; it passes on every message that is a text, and tries again after every loss.
pub proof fn law_reconnection_sweeps_once(event: Event)
    ensures
        forall|s: &mut Reconnecting, r: Response| #[trigger]
            call_ensures(Reconnecting::on, (s, event), r) ==> {
                &&& (*final(s)).subscribed <==> (*s).subscribed || event is Subscribed
                &&& r is Reconcile <==> event is Subscribed && (*s).subscribed
                &&& r is Retry <==> event is Lost
                &&& r is Finalized <==> (event matches Event::Message(Some(_)))
                &&& r matches Response::Finalized(key) ==> event == Event::Message(Some(key))
            },
{
}

/// An instance subscribes where it has a bridge and a transport; a transport is loaded where
/// its library has an absolute path.
pub proof fn law_transport_is_opened_where_it_is_configured(
    has_bridge: bool,
    configured: bool,
    absolute: Option<bool>,
    subscribed: bool,
    opening: Opening,
)
    requires
        call_ensures(subscribes, (has_bridge, configured), subscribed),
        call_ensures(open, (absolute,), opening),
    ensures
        subscribed <==> has_bridge && configured,
        opening is Nothing <==> absolute is None,
        opening is Load <==> absolute == Some(true),
        opening is Refused <==> absolute == Some(false),
{
}

/// A subscriber is woken once for each answer of its transport but the last: for the object
/// that was announced, or for a sweep.
pub proof fn law_subscriber_is_woken_once_for_each_answer<W: Wake>(
    next: Result<Option<String>, String>,
)
    ensures
        forall|on: &mut W, goes_on: bool| #[trigger]
            call_ensures(deliver::<W>, (next, on), goes_on) ==> {
                &&& goes_on <==> next != Ok::<Option<String>, String>(None)
                &&& !goes_on ==> *final(on) == *on
                &&& goes_on ==> (*final(on)).woken().len() == (*on).woken().len() + 1
                &&& goes_on ==> (*final(on)).woken().drop_last() == (*on).woken()
                &&& next matches Ok(Some(key)) ==> (*final(on)).woken().last()
                    == Wakeup::Finalized(key@)
                &&& next is Err ==> (*final(on)).woken().last() == Wakeup::Reconcile
            },
{
    assert forall|on: &mut W, goes_on: bool| #[trigger]
        call_ensures(deliver::<W>, (next, on), goes_on) implies {
        &&& goes_on <==> next != Ok::<Option<String>, String>(None)
        &&& !goes_on ==> *final(on) == *on
        &&& goes_on ==> (*final(on)).woken().len() == (*on).woken().len() + 1
        &&& goes_on ==> (*final(on)).woken().drop_last() == (*on).woken()
        &&& next matches Ok(Some(key)) ==> (*final(on)).woken().last() == Wakeup::Finalized(key@)
        &&& next is Err ==> (*final(on)).woken().last() == Wakeup::Reconcile
    } by {
        if goes_on {
            assert((*final(on)).woken().drop_last() =~= (*on).woken());
        }
    }
}

/// Announcements go over one channel where none is configured, and a subscription that has
/// just begun has not listened yet.
pub proof fn law_channel_and_first_state(channel: String, s: Reconnecting)
    requires
        call_ensures(default_channel, (), channel),
        call_ensures(Reconnecting::new, (), s),
    ensures
        channel@ == "walgit:object-finalized"@,
        s.subscribed == state_after(false, Seq::empty()),
        !s.subscribed,
{
}

} // verus!
