//! The accumulation buffer of a parse session and zero-copy slices into it.

use vstd::prelude::*;
use vstd::string::*;

verus! {

/// Relies on `std::ptr::from_ref` and `addr`: the address of a live heap
/// allocation. Nothing is promised of the value; distinct live allocations of
/// non-zero size have distinct addresses, which is what makes it an identity.
#[verifier::external_body]
fn allocation_address(anchor: &Box<u8>) -> (r: usize) {
    std::ptr::from_ref::<u8>(&**anchor).addr()
}

/// The append-only text store of a parse session.
///
/// Every buffer owns a one-byte heap anchor whose address identifies it for
/// as long as it lives; ephemeral slices record that identity, so reifying a
/// slice against any other buffer is refused.
pub struct Buffer {
    data: String,
    anchor: Box<u8>,
    id: usize,
}

impl View for Buffer {
    type V = Seq<char>;

    closed spec fn view(&self) -> Seq<char> {
        self.data@
    }
}

/// A reference to a span of an accumulation buffer, or to a static string.
#[derive(Clone, Copy, Debug, PartialEq, Eq)]
pub struct BufSlice {
    is_static: bool,
    text: &'static str,
    owner: usize,
    start: usize,
    end: usize,
}

impl BufSlice {
    /// Whether the slice refers to a static string rather than to a buffer.
    pub closed spec fn is_static_spec(self) -> bool {
        self.is_static
    }

    /// The identity of the buffer an ephemeral slice was cut from.
    pub closed spec fn owner_spec(self) -> usize {
        self.owner
    }

    /// The text the slice stands for, read from the buffer contents `b`.
    pub closed spec fn text_in(self, b: Seq<char>) -> Seq<char> {
        if self.is_static {
            self.text@
        } else {
            b.subrange(self.start as int, self.end as int)
        }
    }

    /// Creates an ephemeral slice of the characters `start..end` of `buffer`.
    pub fn new(buffer: &Buffer, start: usize, end: usize) -> (r: BufSlice)
        requires
            start <= end <= buffer@.len(),
        ensures
            !r.is_static_spec(),
            r.owner_spec() == buffer.ident(),
            buffer.holds(r),
            r.text_in(buffer@) == buffer@.subrange(start as int, end as int),
    {
        BufSlice { is_static: false, text: "", owner: buffer.id, start, end }
    }

    /// Creates a slice that refers to a static string.
    pub fn new_static(s: &'static str) -> (r: BufSlice)
        ensures
            r.is_static_spec(),
            forall|b: Seq<char>| #[trigger] r.text_in(b) == s@,
            forall|buf: Buffer| #[trigger] buf.holds(r),
    {
        BufSlice { is_static: true, text: s, owner: 0, start: 0, end: 0 }
    }

    /// The text of the slice, borrowed from `buffer`.
    pub fn as_reified(self, buffer: &Buffer) -> (r: &str)
        requires
            buffer.holds(self),
        ensures
            r@ == self.text_in(buffer@),
    {
        buffer.reify(self)
    }
}

impl Buffer {
    /// The identity of this buffer.
    pub closed spec fn ident(&self) -> usize {
        self.id
    }

    /// Whether `slice` can be read from this buffer: it is static, or it was
    /// cut from this buffer and lies within its current contents.
    pub closed spec fn holds(&self, slice: BufSlice) -> bool {
        slice.is_static || (slice.owner == self.id && slice.start <= slice.end <= self.data@.len())
    }

    /// Creates an empty buffer with an identity of its own.
    pub fn new() -> (r: Buffer)
        ensures
            r@ == Seq::<char>::empty(),
    {
        let anchor = Box::new(0u8);
        let id = allocation_address(&anchor);
        Buffer { data: String::new(), anchor, id }
    }

    /// The identity of this buffer, to tell buffers apart.
    pub fn identity(&self) -> (r: usize)
        ensures
            r == self.ident(),
    {
        self.id
    }

    /// Appends `s`; the buffer never shrinks and keeps its identity.
    pub fn push_str(&mut self, s: &str)
        ensures
            final(self)@ == old(self)@ + s@,
            final(self).ident() == old(self).ident(),
    {
        self.data.append(s);
    }

    /// The whole contents of the buffer.
    pub fn as_str(&self) -> (r: &str)
        ensures
            r@ == self@,
    {
        self.data.as_str()
    }

    /// Number of characters held.
    pub fn len(&self) -> (r: usize)
        ensures
            r == self@.len(),
    {
        self.data.as_str().unicode_len()
    }

    /// Whether `slice` may be reified against this buffer.
    pub fn check_slice_within_buffer(&self, slice: BufSlice) -> (r: bool)
        ensures
            r == self.holds(slice),
    {
        if slice.is_static {
            true
        } else if slice.owner != self.id {
            false
        } else {
            let n = self.len();
            slice.start <= slice.end && slice.end <= n
        }
    }

    /// The text of `slice`, borrowed from this buffer.
    ///
    /// A slice this buffer does not hold means a dangling reference upstream:
    /// it aborts rather than read another buffer's text.
    pub fn reify(&self, slice: BufSlice) -> (r: &str)
        requires
            self.holds(slice),
        ensures
            r@ == slice.text_in(self@),
    {
        if !self.check_slice_within_buffer(slice) {
            return vstd::pervasive::unreached();
        }
        if slice.is_static {
            slice.text
        } else {
            self.data.as_str().substring_char(slice.start, slice.end)
        }
    }
}

/// A slice cut from one buffer is never readable from a buffer with another
/// identity.
pub proof fn lemma_foreign_slice_refused(source: &Buffer, other: &Buffer, slice: BufSlice)
    requires
        !slice.is_static_spec(),
        source.holds(slice),
        other.ident() != source.ident(),
    ensures
        !other.holds(slice),
{
}

/// Appending to a buffer keeps every slice it held readable, with the same text.
pub proof fn lemma_append_keeps_slices(before: &Buffer, after: &Buffer, s: Seq<char>, slice: BufSlice)
    requires
        before.holds(slice),
        after@ == before@ + s,
        after.ident() == before.ident(),
    ensures
        after.holds(slice),
        slice.text_in(after@) == slice.text_in(before@),
{
    if !slice.is_static {
        assert(after@.subrange(slice.start as int, slice.end as int)
            =~= before@.subrange(slice.start as int, slice.end as int));
    }
}

/// Text that is either a slice of the buffer or an owned string.
#[derive(Clone, Debug)]
pub enum BufCow {
    Ephemeral(BufSlice),
    Owned(String),
}

impl BufCow {
    /// Whether the text can be read against `b`.
    pub open spec fn held_by(&self, b: &Buffer) -> bool {
        match self {
            BufCow::Ephemeral(s) => b.holds(*s),
            BufCow::Owned(_) => true,
        }
    }

    /// The text, read from buffer contents `b` where it is a slice.
    pub open spec fn text_in(&self, b: Seq<char>) -> Seq<char> {
        match self {
            BufCow::Ephemeral(s) => s.text_in(b),
            BufCow::Owned(o) => o@,
        }
    }

    /// An owned copy of the text.
    pub fn reify(self, buffer: &Buffer) -> (r: String)
        requires
            self.held_by(buffer),
        ensures
            r@ == self.text_in(buffer@),
    {
        match self {
            BufCow::Ephemeral(slice) => buffer.reify(slice).to_owned(),
            BufCow::Owned(owned) => owned,
        }
    }

    /// The text, borrowed from `self` or from `buffer`.
    pub fn as_reified<'a>(&'a self, buffer: &'a Buffer) -> (r: &'a str)
        requires
            self.held_by(buffer),
        ensures
            r@ == self.text_in(buffer@),
    {
        match self {
            BufCow::Ephemeral(slice) => slice.as_reified(buffer),
            BufCow::Owned(owned) => owned.as_str(),
        }
    }
}

impl From<BufSlice> for BufCow {
    fn from(s: BufSlice) -> (r: BufCow) {
        BufCow::Ephemeral(s)
    }
}

impl vstd::std_specs::convert::FromSpecImpl<BufSlice> for BufCow {
    open spec fn obeys_from_spec() -> bool {
        true
    }

    open spec fn from_spec(s: BufSlice) -> BufCow {
        BufCow::Ephemeral(s)
    }
}

impl From<String> for BufCow {
    fn from(s: String) -> (r: BufCow) {
        BufCow::Owned(s)
    }
}

impl vstd::std_specs::convert::FromSpecImpl<String> for BufCow {
    open spec fn obeys_from_spec() -> bool {
        true
    }

    open spec fn from_spec(s: String) -> BufCow {
        BufCow::Owned(s)
    }
}

} // verus!
