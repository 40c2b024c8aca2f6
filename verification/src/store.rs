//! What every object store in this crate speaks of: versions, conditions,
//! ranges, and the outcomes that a caller can tell apart.
use vstd::prelude::*;

verus! {

/// An opaque version of a stored object. Two versions are the same exactly when
/// their texts are.
pub struct Version {
    pub text: String,
}

impl View for Version {
    type V = Seq<char>;

    open spec fn view(&self) -> Seq<char> {
        self.text@
    }
}

impl Clone for Version {
    fn clone(&self) -> (r: Self)
        ensures
            r == *self,
    {
        Version { text: self.text.clone() }
    }
}

impl Version {
    pub fn new(text: String) -> (r: Version)
        ensures
            r@ == text@,
            r.text == text,
    {
        Version { text }
    }

    pub fn as_str(&self) -> (r: &str)
        ensures
            r@ == self@,
    {
        self.text.as_str()
    }
}

/// A half-open range of bytes within an object.
#[derive(Clone, Copy, PartialEq, Eq, Structural, Debug)]
pub struct ByteRange {
    pub start: u64,
    pub end: u64,
}

/// Conditions and range of a read.
pub struct GetOptions {
    /// Answer "not modified" when the object still has this version.
    pub if_none_match: Option<Version>,
    /// Fail unless the object has this version.
    pub if_match: Option<Version>,
    pub range: Option<ByteRange>,
}

/// Copies an optional version.
pub fn same_version(v: &Option<Version>) -> (r: Option<Version>)
    ensures
        r == *v,
{
    match v {
        Some(v) => Some(v.clone()),
        None => None,
    }
}

/// Copies an optional text.
pub fn same_text(v: &Option<String>) -> (r: Option<String>)
    ensures
        r == *v,
{
    match v {
        Some(v) => Some(v.clone()),
        None => None,
    }
}

impl Clone for GetOptions {
    fn clone(&self) -> (r: Self)
        ensures
            r == *self,
    {
        GetOptions {
            if_none_match: same_version(&self.if_none_match),
            if_match: same_version(&self.if_match),
            range: self.range,
        }
    }
}

impl Default for GetOptions {
    fn default() -> (r: Self)
        ensures
            r.if_none_match is None,
            r.if_match is None,
            r.range is None,
    {
        GetOptions { if_none_match: None, if_match: None, range: None }
    }
}

/// What a write requires of the object it replaces.
pub enum PutMode {
    /// Nothing.
    Overwrite,
    /// That there is none.
    Create,
    /// That it has this version.
    Update(Version),
}

impl Clone for PutMode {
    fn clone(&self) -> (r: Self)
        ensures
            r == *self,
    {
        match self {
            PutMode::Overwrite => PutMode::Overwrite,
            PutMode::Create => PutMode::Create,
            PutMode::Update(v) => PutMode::Update(v.clone()),
        }
    }
}

pub struct PutOptions {
    pub mode: PutMode,
    /// The object never changes once written.
    pub immutable: bool,
    /// An advisory MIME type.
    pub content_type: Option<String>,
}

impl Clone for PutOptions {
    fn clone(&self) -> (r: Self)
        ensures
            r == *self,
    {
        PutOptions {
            mode: self.mode.clone(),
            immutable: self.immutable,
            content_type: same_text(&self.content_type),
        }
    }
}

/// Name, logical size and version of a stored object.
pub struct ObjectMeta {
    pub key: String,
    pub size: u64,
    pub version: Version,
}

impl Clone for ObjectMeta {
    fn clone(&self) -> (r: Self)
        ensures
            r == *self,
    {
        ObjectMeta { key: self.key.clone(), size: self.size, version: self.version.clone() }
    }
}

/// The outcomes of a store call that a caller can tell apart.
pub enum StoreError {
    NotFound { key: String },
    PreconditionFailed { key: String, current: Option<Version> },
    InvalidArgument(String),
    /// A transient failure: the same call may succeed later.
    Retryable(String),
    Other(String),
}

impl StoreError {
    /// The error is [`StoreError::Other`] with this message.
    pub open spec fn says(self, message: Seq<char>) -> bool {
        self matches StoreError::Other(m) && m@ == message
    }

    /// The error is [`StoreError::InvalidArgument`] with this message.
    pub open spec fn rejects(self, message: Seq<char>) -> bool {
        self matches StoreError::InvalidArgument(m) && m@ == message
    }

    /// The error is [`StoreError::NotFound`] for this key.
    pub open spec fn misses(self, key: Seq<char>) -> bool {
        self matches StoreError::NotFound { key: k } && k@ == key
    }

    pub fn other(message: &str) -> (r: StoreError)
        ensures
            r.says(message@),
    {
        StoreError::Other(String::from_str(message))
    }

    pub fn invalid(message: &str) -> (r: StoreError)
        ensures
            r.rejects(message@),
    {
        StoreError::InvalidArgument(String::from_str(message))
    }

    pub fn not_found(key: &str) -> (r: StoreError)
        ensures
            r.misses(key@),
    {
        StoreError::NotFound { key: String::from_str(key) }
    }

    pub fn is_not_found(&self) -> (r: bool)
        ensures
            r == (self is NotFound),
    {
        match self {
            StoreError::NotFound { .. } => true,
            _ => false,
        }
    }
}

/// The failures are what their names say, and each carries the text or the key that it was
/// made with, and no other.
pub proof fn law_failures_carry_what_they_were_made_with(
    text: &str,
    other: StoreError,
    invalid: StoreError,
    missing: StoreError,
    e: StoreError,
    any: Seq<char>,
    is_missing: bool,
)
    requires
        call_ensures(StoreError::other, (text,), other),
        call_ensures(StoreError::invalid, (text,), invalid),
        call_ensures(StoreError::not_found, (text,), missing),
        call_ensures(StoreError::is_not_found, (&e,), is_missing),
    ensures
        other matches StoreError::Other(m) && m@ == text@,
        invalid matches StoreError::InvalidArgument(m) && m@ == text@,
        missing matches StoreError::NotFound { key } && key@ == text@,
        is_missing <==> e is NotFound,
        e.says(any) <==> (e matches StoreError::Other(m) && m@ == any),
        e.rejects(any) <==> (e matches StoreError::InvalidArgument(m) && m@ == any),
        e.misses(any) <==> (e matches StoreError::NotFound { key } && key@ == any),
{
}

/// A copy is the same in every field, and a version is its text.
pub proof fn law_copies_are_the_same(
    g: &GetOptions,
    g2: GetOptions,
    p: &PutOptions,
    p2: PutOptions,
    m: &ObjectMeta,
    m2: ObjectMeta,
    v: &Option<Version>,
    v2: Option<Version>,
    t: &Option<String>,
    t2: Option<String>,
    text: String,
    version: Version,
)
    requires
        call_ensures(GetOptions::clone, (g,), g2),
        call_ensures(PutOptions::clone, (p,), p2),
        call_ensures(ObjectMeta::clone, (m,), m2),
        call_ensures(same_version, (v,), v2),
        call_ensures(same_text, (t,), t2),
        call_ensures(Version::new, (text,), version),
    ensures
        g2 == *g,
        p2 == *p,
        m2 == *m,
        v2 == *v,
        t2 == *t,
        version.text == text,
        version@ == text@,
{
}

/// A read without conditions has none, and asks for the whole object.
pub proof fn law_plain_read_has_no_conditions(o: GetOptions, v: &Version, text: &str)
    requires
        call_ensures(GetOptions::default, (), o),
        call_ensures(Version::as_str, (v,), text),
    ensures
        o.if_none_match is None && o.if_match is None && o.range is None,
        text@ == v.text@,
{
}

} // verus!
