//! Who still holds an endpoint, and when it is to be released: after all calls and all
//! response streams, and once.
use vstd::prelude::*;

verus! {

/// What happens to the handles of an endpoint. A clone of a store, a call that is made and a
/// stream that is answered each open a handle, and close it when they are done with.
#[derive(Clone, Copy, PartialEq, Eq, Structural, Debug)]
pub enum HandleEvent {
    Opened,
    Closed,
}

/// How many handles are open after the first `n` events. A new store is the first.
pub open spec fn open_after(events: Seq<HandleEvent>, n: nat) -> int
    decreases n,
{
    if n == 0 {
        1
    } else {
        open_after(events, (n - 1) as nat) + match events[n - 1] {
            HandleEvent::Opened => 1int,
            HandleEvent::Closed => -1int,
        }
    }
}

/// Handles are opened by and closed through handles that are open: nothing happens once the
/// last is closed.
pub open spec fn happens(events: Seq<HandleEvent>) -> bool {
    forall|i: int|
        #![trigger events[i]]
        0 <= i < events.len() ==> open_after(events, i as nat) > 0
}

/// Event `i` closes the last handle, so that the endpoint is released there.
pub open spec fn releases(events: Seq<HandleEvent>, i: int) -> bool {
    &&& 0 <= i < events.len()
    &&& events[i] is Closed
    &&& open_after(events, (i + 1) as nat) == 0
}

/// The open handles of an endpoint.
#[derive(Clone, Copy, PartialEq, Eq, Structural, Debug)]
pub struct Handles {
    pub open: u64,
}

impl Handles {
    /// These are the handles after `events`.
    pub open spec fn follow(self, events: Seq<HandleEvent>) -> bool {
        self.open == open_after(events, events.len())
    }

    /// The handles of an endpoint that nothing was asked of yet.
    pub fn new() -> (r: Handles)
        ensures
            r.open == 1,
            r.follow(Seq::empty()),
    {
        Handles { open: 1 }
    }

    /// Another handle is opened.
    pub fn opened(&mut self)
        requires
            0 < old(self).open < u64::MAX,
        ensures
            final(self).open == old(self).open + 1,
            forall|events: Seq<HandleEvent>|
                #![trigger old(self).follow(events)]
                old(self).follow(events) ==> final(self).follow(events.push(HandleEvent::Opened)),
    {
        self.open = self.open + 1;
        proof {
            assert forall|events: Seq<HandleEvent>|
                #![trigger old(self).follow(events)]
                old(self).follow(events) implies self.follow(
                events.push(HandleEvent::Opened),
            ) by {
                lemma_one_more(events, HandleEvent::Opened);
            }
        }
    }

    /// A handle is closed. True where it was the last: the endpoint is to be released.
    pub fn closed(&mut self) -> (r: bool)
        requires
            old(self).open > 0,
        ensures
            final(self).open == old(self).open - 1,
            r == (final(self).open == 0),
            forall|events: Seq<HandleEvent>|
                #![trigger old(self).follow(events)]
                old(self).follow(events) ==> final(self).follow(events.push(HandleEvent::Closed))
                    && r == releases(events.push(HandleEvent::Closed), events.len() as int),
    {
        self.open = self.open - 1;
        proof {
            assert forall|events: Seq<HandleEvent>|
                #![trigger old(self).follow(events)]
                old(self).follow(events) implies self.follow(events.push(HandleEvent::Closed))
                && (self.open == 0) == releases(
                events.push(HandleEvent::Closed),
                events.len() as int,
            ) by {
                lemma_one_more(events, HandleEvent::Closed);
            }
        }
        self.open == 0
    }
}

proof fn lemma_same_prefix(a: Seq<HandleEvent>, b: Seq<HandleEvent>, n: nat)
    requires
        n <= a.len() <= b.len(),
        forall|i: int| 0 <= i < n ==> #[trigger] a[i] == b[i],
    ensures
        open_after(a, n) == open_after(b, n),
    decreases n,
{
    if n > 0 {
        lemma_same_prefix(a, b, (n - 1) as nat);
        assert(a[n - 1] == b[n - 1]);
    }
}

proof fn lemma_one_more(events: Seq<HandleEvent>, e: HandleEvent)
    ensures
        open_after(events.push(e), events.len()) == open_after(events, events.len()),
        open_after(events.push(e), events.len() + 1) == open_after(events, events.len()) + match e {
            HandleEvent::Opened => 1int,
            HandleEvent::Closed => -1int,
        },
{
    lemma_same_prefix(events, events.push(e), events.len());
}

/// An endpoint is released at most once, and as the last thing that happens to it: no call
/// is made and no stream is read after that. Once every handle is closed, it was released.
pub proof fn law_release_comes_once_and_last(events: Seq<HandleEvent>)
    requires
        happens(events),
    ensures
        forall|i: int| #[trigger] releases(events, i) ==> i == events.len() - 1,
        events.len() > 0 && open_after(events, events.len()) == 0 ==> releases(
            events,
            events.len() - 1,
        ),
        open_after(events, events.len()) > 0 ==> forall|i: int| !#[trigger] releases(events, i),
{
    assert forall|i: int| #[trigger] releases(events, i) implies i == events.len() - 1 by {
        if i < events.len() - 1 {
            assert(events[i + 1] is Opened || events[i + 1] is Closed);
            assert(open_after(events, (i + 1) as nat) > 0);
        }
    }
    if events.len() > 0 {
        let last = events[events.len() - 1];
        assert(open_after(events, (events.len() - 1) as nat) > 0);
    }
}

/// An endpoint begins with one handle; each that is opened counts one more, each that is closed
/// one less, and the last one that is closed releases it.
pub proof fn law_last_handle_releases(first: Handles)
    requires
        call_ensures(Handles::new, (), first),
    ensures
        first.open == 1,
        forall|h: &mut Handles, r: ()| #[trigger]
            call_ensures(Handles::opened, (h,), r) && 0 < (*h).open < u64::MAX ==> (
            *final(h)).open == (*h).open + 1,
        forall|h: &mut Handles, released: bool| #[trigger]
            call_ensures(Handles::closed, (h,), released) && (*h).open > 0 ==> (*final(h)).open
                == (*h).open - 1 && (released <==> (*h).open == 1),
{
}

} // verus!
