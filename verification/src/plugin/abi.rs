//! What both sides agree on: limits, status codes, and who owns which bytes.
use vstd::prelude::*;
use vstd::utf8::{encode_utf8, valid_utf8};

use crate::encrypted::container::copy_bytes;
use crate::store::StoreError;

verus! {

pub const ABI_VERSION: u32 = 1;

/// Bytes of a stream that cross at once.
pub const MAX_FRAME: usize = 1024 * 1024;

/// Bytes of metadata that cross at once.
pub const MAX_METADATA: usize = 16 * 1024 * 1024;

/// Borrowed for the duration of a call. Nothing to point at is valid only when the
/// length is zero.
#[derive(Clone, Copy)]
pub struct Slice<'a> {
    pub ptr: Option<&'a [u8]>,
    pub len: usize,
}

impl<'a> Slice<'a> {
    /// What it points at has as many bytes as it says.
    pub open spec fn wf(self) -> bool {
        self.ptr matches Some(bytes) ==> bytes@.len() == self.len
    }

    pub fn new(bytes: &'a [u8]) -> (r: Slice<'a>)
        ensures
            r.wf(),
            r.ptr == Some(bytes),
            r.len == bytes@.len(),
    {
        Slice { ptr: Some(bytes), len: bytes.len() }
    }
}

/// Why a message of `len` bytes is refused where at most `max` are accepted and
/// `null` says that it points at nothing.
pub open spec fn slice_fault(null: bool, len: nat, max: nat) -> Option<Seq<char>> {
    if len > max {
        Some("plugin message exceeds limit"@)
    } else if len > 0 && null {
        Some("null plugin message"@)
    } else {
        None
    }
}

/// Whether a message may be read. `Ok(false)` where there is nothing to read.
pub fn check_slice(null: bool, len: usize, max: usize) -> (r: Result<bool, StoreError>)
    ensures
        match slice_fault(null, len as nat, max as nat) {
            Some(message) => r matches Err(e) && e.says(message),
            None => r == Ok::<bool, StoreError>(len > 0),
        },
{
    if len > max {
        return Err(StoreError::other("plugin message exceeds limit"));
    }
    if len == 0 {
        return Ok(false);
    }
    if null {
        return Err(StoreError::other("null plugin message"));
    }
    Ok(true)
}

/// The bytes of a message.
pub fn read_slice<'a>(slice: Slice<'a>, max: usize) -> (r: Result<&'a [u8], StoreError>)
    requires
        slice.wf(),
    ensures
        match slice_fault(slice.ptr is None, slice.len as nat, max as nat) {
            Some(message) => r matches Err(e) && e.says(message),
            None => r matches Ok(bytes) && bytes@ == match slice.ptr {
                Some(b) => b@,
                None => Seq::empty(),
            },
        },
{
    match check_slice(slice.ptr.is_none(), slice.len, max) {
        Err(e) => Err(e),
        Ok(_) => match slice.ptr {
            Some(bytes) => Ok(bytes),
            None => {
                let none: &[u8] = &[];
                assert(none@ =~= Seq::<u8>::empty());
                Ok(none)
            },
        },
    }
}

/// Owned bytes, which their receiver releases once.
pub struct Buffer {
    pub bytes: Vec<u8>,
    /// There is an allocation to release.
    pub held: bool,
}

impl Buffer {
    pub open spec fn wf(self) -> bool {
        !self.held ==> self.bytes@.len() == 0
    }

    /// No bytes, and nothing to release.
    pub fn empty() -> (r: Buffer)
        ensures
            r.wf(),
            !r.held,
            r.bytes@ == Seq::<u8>::empty(),
    {
        Buffer { bytes: Vec::new(), held: false }
    }

    /// The bytes as the other side reads them.
    pub fn slice(&self) -> (r: Slice<'_>)
        requires
            self.wf(),
        ensures
            r.wf(),
            r.len == self.bytes@.len(),
            if self.held {
                r.ptr matches Some(b) && b@ == self.bytes@
            } else {
                r.ptr is None
            },
    {
        if self.held {
            Slice::new(self.bytes.as_slice())
        } else {
            Slice { ptr: None, len: 0 }
        }
    }

    /// Gives the allocation up. There is one to give up exactly once.
    pub fn release(&mut self) -> (r: Option<Vec<u8>>)
        requires
            old(self).wf(),
        ensures
            final(self).wf(),
            !final(self).held,
            final(self).bytes@ == Seq::<u8>::empty(),
            if old(self).held {
                r matches Some(bytes) && bytes@ == old(self).bytes@
            } else {
                r is None
            },
    {
        let mut bytes: Vec<u8> = Vec::new();
        std::mem::swap(&mut bytes, &mut self.bytes);
        if self.held {
            self.held = false;
            Some(bytes)
        } else {
            None
        }
    }
}

/// Hands bytes over with their ownership.
pub fn own_buffer(bytes: Vec<u8>) -> (r: Buffer)
    ensures
        r.wf(),
        r.held,
        r.bytes == bytes,
{
    Buffer { bytes, held: true }
}

/// The text that bytes are taken for, with a replacement for what is no UTF-8.
pub uninterp spec fn lossy_decoded(bytes: Seq<u8>) -> Seq<char>;

/// Calls `String::from_utf8_lossy`, which keeps valid UTF-8 as it is. Where it puts
/// replacement characters otherwise is left to the name.
#[verifier::external_body]
fn lossy_text(bytes: &[u8]) -> (r: String)
    ensures
        r@ == lossy_decoded(bytes@),
        valid_utf8(bytes@) ==> encode_utf8(r@) == bytes@,
{
    String::from_utf8_lossy(bytes).into_owned()
}

/// What an error message from the other side says.
pub fn error_text(buffer: &Buffer) -> (r: String)
    requires
        buffer.wf(),
    ensures
        if buffer.bytes@.len() > MAX_METADATA {
            r@ == "invalid error response"@
        } else {
            &&& r@ == lossy_decoded(buffer.bytes@)
            &&& valid_utf8(buffer.bytes@) ==> encode_utf8(r@) == buffer.bytes@
        },
{
    match read_slice(buffer.slice(), MAX_METADATA) {
        Ok(bytes) => {
            assert(bytes@ =~= buffer.bytes@);
            lossy_text(bytes)
        },
        Err(_) => String::from_str("invalid error response"),
    }
}

/// The first two fields of every plugin descriptor, of any version.
#[derive(Clone, Copy, PartialEq, Eq, Structural, Debug)]
pub struct PluginHeader {
    pub abi_version: u32,
    pub struct_size: u32,
}

/// Why a descriptor is refused by a host whose own has `size` bytes. Nothing behind
/// the header is looked at before it is accepted.
pub open spec fn header_fault(header: Option<PluginHeader>, size: nat) -> Option<Seq<char>> {
    match header {
        None => Some("null storage plugin descriptor"@),
        Some(h) => if h.abi_version != ABI_VERSION {
            Some("unsupported storage plugin ABI"@)
        } else if h.struct_size != size {
            Some("storage plugin ABI size mismatch"@)
        } else {
            None
        },
    }
}

/// Whether a plugin may be created by its descriptor.
pub fn check_header(header: Option<PluginHeader>, size: usize) -> (r: Result<(), StoreError>)
    ensures
        match header_fault(header, size as nat) {
            Some(message) => r matches Err(e) && e.says(message),
            None => r is Ok,
        },
{
    match header {
        None => Err(StoreError::other("null storage plugin descriptor")),
        Some(h) => {
            if h.abi_version != ABI_VERSION {
                return Err(StoreError::other("unsupported storage plugin ABI"));
            }
            if h.struct_size as u64 != size as u64 {
                return Err(StoreError::other("storage plugin ABI size mismatch"));
            }
            Ok(())
        },
    }
}

/// Whether a plugin was created, by the status of the call and its error message.
pub fn created(status: i32, error: &Buffer) -> (r: Result<(), StoreError>)
    requires
        error.wf(),
    ensures
        if status == 0 {
            r is Ok
        } else {
            r matches Err(e) && e.says(
                creation_failed(
                    if error.bytes@.len() > MAX_METADATA {
                        "invalid error response"@
                    } else {
                        lossy_decoded(error.bytes@)
                    },
                ),
            )
        },
{
    if status == 0 {
        return Ok(());
    }
    let text = error_text(error);
    let mut m = String::from_str("storage plugin initialization failed: ");
    m.append(text.as_str());
    assert(m@ == creation_failed(text@));
    Err(StoreError::Other(m))
}

pub open spec fn creation_failed(text: Seq<char>) -> Seq<char> {
    "storage plugin initialization failed: "@ + text
}

/// How a plugin's own start ended, as seen from inside it.
pub enum Startup {
    Ready,
    Failed(String),
    Panicked,
}

/// The status that a plugin answers its creation with, and the message beside it.
pub fn startup_answer(outcome: Startup) -> (r: (i32, Option<Buffer>))
    ensures
        match outcome {
            Startup::Ready => r.0 == 0 && r.1 is None,
            Startup::Failed(m) => r.0 == -1 && (r.1 matches Some(b) && b.wf() && b.held
                && b.bytes@ == encode_utf8(m@)),
            Startup::Panicked => r.0 == -1 && (r.1 matches Some(b) && b.wf() && b.held && b.bytes@
                == encode_utf8("storage plugin initialization panicked"@)),
        },
{
    match outcome {
        Startup::Ready => (0, None),
        Startup::Failed(m) => (-1, Some(own_buffer(copy_bytes(m.as_str().as_bytes())))),
        Startup::Panicked => {
            let m = "storage plugin initialization panicked";
            (-1, Some(own_buffer(copy_bytes(m.as_bytes()))))
        },
    }
}

/// A capability as a byte.
pub fn flag(set: bool) -> (r: u8)
    ensures
        r == if set {
            1u8
        } else {
            0u8
        },
{
    if set {
        1
    } else {
        0
    }
}

/// Whether a capability is declared: by a one, and by nothing else.
pub fn flag_set(f: u8) -> (r: bool)
    ensures
        r == (f == 1),
{
    f == 1
}

/// A message may be read exactly where it is no longer than the limit and points at its bytes,
/// or has none. What is read is what it points at.
pub proof fn law_message_is_read_where_it_may_be<'a>(
    null: bool,
    len: usize,
    max: usize,
    checked: Result<bool, StoreError>,
    slice: Slice<'a>,
    read: Result<&'a [u8], StoreError>,
)
    requires
        slice.ptr matches Some(bytes) ==> bytes@.len() == slice.len,
        call_ensures(check_slice, (null, len, max), checked),
        call_ensures(read_slice, (slice, max), read),
    ensures
        checked is Ok <==> len <= max && (len == 0 || !null),
        checked matches Ok(some) ==> some == (len != 0),
        read is Ok <==> slice.len <= max && (slice.len == 0 || slice.ptr is Some),
        read matches Ok(bytes) ==> bytes@.len() == slice.len && (slice.ptr matches Some(b)
            ==> bytes@ == b@),
        checked matches Err(e) ==> e is Other,
        read matches Err(e) ==> e is Other,
{
}

/// A plugin is created only by a descriptor of this version and of the size that the host's
/// own has, and by every such descriptor.
pub proof fn law_descriptor_is_accepted_where_it_agrees(
    header: Option<PluginHeader>,
    size: usize,
    r: Result<(), StoreError>,
)
    requires
        call_ensures(check_header, (header, size), r),
    ensures
        r is Ok <==> (header matches Some(h) && h.abi_version == 1 && h.struct_size == size),
        r matches Err(e) ==> e.says(
            match header {
                None => "null storage plugin descriptor"@,
                Some(h) => if h.abi_version == 1 {
                    "storage plugin ABI size mismatch"@
                } else {
                    "unsupported storage plugin ABI"@
                },
            },
        ),
{
}

/// The host learns how a plugin's start ended: that it is ready, or why it is not, in the
/// plugin's own words as long as they may cross.
pub proof fn law_start_is_told_to_the_host(
    outcome: Startup,
    answer: (i32, Option<Buffer>),
    error: &Buffer,
    r: Result<(), StoreError>,
)
    requires
        call_ensures(startup_answer, (outcome,), answer),
        answer.1 matches Some(b) ==> *error == b,
        call_ensures(created, (answer.0, error), r),
    ensures
        r is Ok <==> outcome is Ready,
        outcome matches Startup::Failed(m) ==> (encode_utf8(m@).len() <= 0x100_0000 ==> (r matches
            Err(e) && e.says(
            "storage plugin initialization failed: "@ + lossy_decoded(encode_utf8(m@)),
        ))),
        outcome is Panicked ==> answer.0 == -1 && answer.1 is Some,
{
}

/// An error message is taken as it is, as long as it may cross; one that is no UTF-8 in part
/// is taken for what the rest of it says.
pub proof fn law_error_is_taken_as_it_is(buffer: &Buffer, text: String)
    requires
        buffer.wf(),
        call_ensures(error_text, (buffer,), text),
    ensures
        buffer.bytes@.len() <= 0x100_0000 && valid_utf8(buffer.bytes@) ==> encode_utf8(text@)
            == buffer.bytes@,
        buffer.bytes@.len() > 0x100_0000 ==> text@ == "invalid error response"@,
{
}

/// A capability that is declared is seen as declared, and no other byte is.
pub proof fn law_capability_is_seen_as_declared(set: bool, f: u8, byte: u8, seen: bool, back: bool)
    requires
        call_ensures(flag, (set,), byte),
        call_ensures(flag_set, (f,), seen),
        call_ensures(flag_set, (byte,), back),
    ensures
        back == set,
        seen <==> f == 1,
{
}

/// What is handed over is what the other side reads, and there is one allocation to give up
/// for it.
pub proof fn law_buffer_holds_what_was_handed_over(bytes: Vec<u8>, b: Buffer, s: Slice<'_>)
    requires
        call_ensures(own_buffer, (bytes,), b),
        call_ensures(Buffer::slice, (&b,), s),
    ensures
        b.held,
        s.len == bytes@.len(),
        s.ptr matches Some(seen) && seen@ == bytes@,
        forall|x: &mut Buffer, r: Option<Vec<u8>>| #[trigger]
            call_ensures(Buffer::release, (x,), r) && (*x).wf() ==> {
                &&& r is Some <==> (*x).held
                &&& r matches Some(v) ==> v@ == (*x).bytes@
                &&& !(*final(x)).held && (*final(x)).bytes@.len() == 0
            },
{
}

/// A buffer is sound exactly where it holds no bytes without an allocation, and the empty one
/// is; a message is sound where it is as long as it says.
pub proof fn law_bytes_need_an_allocation(b: Buffer, none: Buffer, s: Slice<'_>, made: Slice<'_>)
    requires
        call_ensures(Buffer::empty, (), none),
        s.ptr is Some,
        call_ensures(Slice::new, (s.ptr->Some_0,), made),
    ensures
        b.wf() <==> b.held || b.bytes@.len() == 0,
        !none.held && none.bytes@.len() == 0,
        s.wf() <==> s.ptr->Some_0@.len() == s.len,
        made.ptr == s.ptr && made.len == s.ptr->Some_0@.len(),
{
}

} // verus!
