//! Which objects are announced, and under which name.
use vstd::prelude::*;
use vstd::string::*;

use crate::store::StoreError;

verus! {

/// What the name of every commit point ends with.
pub open spec fn manifest_suffix() -> Seq<char> {
    "/manifest.pb"@
}

pub open spec fn ends_with(s: Seq<char>, suffix: Seq<char>) -> bool {
    s.len() >= suffix.len() && s.subrange(s.len() - suffix.len(), s.len() as int) == suffix
}

/// The name under which an object is announced once it is durable: a commit point
/// under its full name, with the store's global prefix, and nothing else.
pub open spec fn announced(prefix: Seq<char>, key: Seq<char>) -> Option<Seq<char>> {
    if ends_with(key, manifest_suffix()) {
        Some(prefix + key)
    } else {
        None
    }
}

/// Whether a text ends with another.
pub fn text_ends_with(s: &str, suffix: &str) -> (r: bool)
    ensures
        r == ends_with(s@, suffix@),
{
    let n: usize = s.unicode_len();
    let m: usize = suffix.unicode_len();
    if n < m {
        return false;
    }
    let from: usize = n - m;
    let mut i: usize = 0;
    while i < m
        invariant
            i <= m,
            from + m == n,
            n == s@.len(),
            m == suffix@.len(),
            forall|j: int| 0 <= j < i ==> s@[from + j] == suffix@[j],
        decreases m - i,
    {
        if s.get_char(from + i) != suffix.get_char(i) {
            assert(s@.subrange(from as int, n as int)[i as int] != suffix@[i as int]);
            return false;
        }
        i = i + 1;
    }
    assert(s@.subrange(from as int, n as int) =~= suffix@);
    true
}

/// Announces every finalized commit point. Everything else passes straight through.
pub struct NotifyingStore {
    /// The store's global prefix, put in front of the announced name: keys are
    /// logical here, and a subscriber strips the prefix as it does from a bucket's
    /// own announcement.
    pub prefix: String,
}

/// A store call, as far as announcing goes.
pub enum Written<'a> {
    /// An object was put.
    Put(&'a str),
    /// An object was composed of others. That writes an object like any other put.
    Composed(&'a str),
    /// No object was written.
    Nothing,
}

impl NotifyingStore {
    pub fn new(prefix: String) -> (r: NotifyingStore)
        ensures
            r.prefix == prefix,
    {
        NotifyingStore { prefix }
    }

    /// What is announced of the object `key`.
    pub fn announce(&self, key: &str) -> (r: Option<String>)
        ensures
            match announced(self.prefix@, key@) {
                Some(name) => r matches Some(n) && n@ == name,
                None => r is None,
            },
    {
        if !text_ends_with(key, "/manifest.pb") {
            return None;
        }
        let mut name = self.prefix.clone();
        name.append(key);
        Some(name)
    }

    /// What is announced after a store call: only what was written, and only once
    /// the store said that it is durable.
    pub fn after(&self, call: Written<'_>, outcome: &Result<(), StoreError>) -> (r: Option<String>)
        ensures
            if *outcome is Err {
                r is None
            } else {
                match call {
                    Written::Put(key) => match announced(self.prefix@, key@) {
                        Some(name) => r matches Some(n) && n@ == name,
                        None => r is None,
                    },
                    Written::Composed(key) => match announced(self.prefix@, key@) {
                        Some(name) => r matches Some(n) && n@ == name,
                        None => r is None,
                    },
                    Written::Nothing => r is None,
                }
            },
    {
        match outcome {
            Err(_) => None,
            Ok(_) => match call {
                Written::Put(key) => self.announce(key),
                Written::Composed(key) => self.announce(key),
                Written::Nothing => None,
            },
        }
    }
}

/// What is announced names the object: the prefix can be taken off again, and two
/// objects are never announced under one name.
pub proof fn law_announcement_names_the_object(
    prefix: Seq<char>,
    key1: Seq<char>,
    key2: Seq<char>,
)
    requires
        announced(prefix, key1) is Some,
    ensures
        ({
            let name = announced(prefix, key1)->Some_0;
            &&& name.subrange(0, prefix.len() as int) == prefix
            &&& name.subrange(prefix.len() as int, name.len() as int) == key1
            &&& announced(prefix, key2) == announced(prefix, key1) ==> key2 == key1
        }),
{
    let name = prefix + key1;
    assert(name.subrange(0, prefix.len() as int) =~= prefix);
    assert(name.subrange(prefix.len() as int, name.len() as int) =~= key1);
    if announced(prefix, key2) == announced(prefix, key1) {
        let other = prefix + key2;
        assert(other.subrange(prefix.len() as int, other.len() as int) =~= key2);
    }
}

/// Every commit point is announced once it is durable, however it was written and whatever
/// the prefix, also where there is none; nothing else is, and nothing that failed. The
/// name is the prefix with the key behind it.
pub proof fn law_commit_points_are_announced(
    store: &NotifyingStore,
    key: &str,
    call: Written<'_>,
    outcome: &Result<(), StoreError>,
    named: Option<String>,
    told: Option<String>,
)
    requires
        call_ensures(NotifyingStore::announce, (store, key), named),
        call_ensures(NotifyingStore::after, (store, call, outcome), told),
        call == Written::Put(key) || call == Written::Composed(key) || call is Nothing,
    ensures
        named is Some <==> exists|dir: Seq<char>| key@ == #[trigger] (dir + "/manifest.pb"@),
        named matches Some(name) ==> name@ == store.prefix@ + key@,
        told is Some <==> *outcome is Ok && !(call is Nothing) && exists|dir: Seq<char>|
            key@ == #[trigger] (dir + "/manifest.pb"@),
        told matches Some(name) ==> name@ == store.prefix@ + key@,
{
    let suffix = "/manifest.pb"@;
    law_ending_is_a_front_and_the_suffix(key@, suffix);
}

/// A text ends with another exactly where it is some text with the other behind it.
pub proof fn law_ending_is_a_front_and_the_suffix(s: Seq<char>, suffix: Seq<char>)
    ensures
        ends_with(s, suffix) <==> exists|front: Seq<char>| s == #[trigger] (front + suffix),
{
    if ends_with(s, suffix) {
        let front = s.subrange(0, s.len() - suffix.len());
        assert(s =~= front + suffix);
    }
    assert forall|front: Seq<char>| s == #[trigger] (front + suffix) implies ends_with(
        s,
        suffix,
    ) by {
        assert(s.subrange(s.len() - suffix.len(), s.len() as int) =~= suffix);
    }
}

/// Every call can be looked at, whatever its key and its outcome.
pub proof fn law_every_call_can_be_announced(
    store: &NotifyingStore,
    key: &str,
    call: Written<'_>,
    outcome: &Result<(), StoreError>,
    prefix: String,
    made: NotifyingStore,
)
    requires
        call_ensures(NotifyingStore::new, (prefix,), made),
    ensures
        call_requires(NotifyingStore::announce, (store, key)),
        call_requires(NotifyingStore::after, (store, call, outcome)),
        made.prefix@ == prefix@,
{
}

/// The same of the call: it says whether a text is another with something in front of it.
pub proof fn law_ending_is_seen(s: &str, suffix: &str, r: bool)
    requires
        call_ensures(text_ends_with, (s, suffix), r),
    ensures
        r <==> exists|front: Seq<char>| s@ == #[trigger] (front + suffix@),
{
    law_ending_is_a_front_and_the_suffix(s@, suffix@);
}

} // verus!
