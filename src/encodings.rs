//! Staging buffers, the streaming decoder and the delimiter scanner.

use vstd::prelude::*;
use vstd::string::*;
use vstd::slice::SliceAdditionalExecFns;
use vstd::utf8::*;

verus! {

#[verifier::external_type_specification]
#[verifier::external_body]
pub struct ExDecoder(encoding_rs::Decoder);

#[verifier::external_type_specification]
#[verifier::external_body]
pub struct ExEncoding(encoding_rs::Encoding);

/// Relies on `Encoding::new_decoder_with_bom_removal`: a fresh decoder for the
/// encoding that drops a leading byte order mark.
pub assume_specification[ encoding_rs::Encoding::new_decoder_with_bom_removal ](
    e: &'static encoding_rs::Encoding,
) -> encoding_rs::Decoder;

/// A predicate on characters, used to find a delimiter.
pub trait CharMatcher {
    /// Whether `c` is a delimiter.
    spec fn spec_matches(&self, c: char) -> bool;

    fn matches(&self, c: char) -> (r: bool)
        ensures
            r == self.spec_matches(c),
    ;
}

impl CharMatcher for char {
    open spec fn spec_matches(&self, c: char) -> bool {
        *self == c
    }

    fn matches(&self, c: char) -> (r: bool) {
        *self == c
    }
}

/// No character of `s` in `from..to` is a delimiter for `m`.
pub open spec fn no_match_in<M: CharMatcher>(m: &M, s: Seq<char>, from: int, to: int) -> bool {
    forall|i: int| from <= i < to ==> !m.spec_matches(#[trigger] s[i])
}

/// Why a decoding call returned, as `encoding_rs::DecoderResult` reports it.
#[derive(Clone, Copy, Debug, PartialEq, Eq, Structural)]
pub enum DecodeStatus {
    InputEmpty,
    OutputFull,
    Malformed,
}

/// The stream holds a byte sequence that is invalid in its encoding.
#[derive(Clone, Copy, Debug, PartialEq, Eq, Structural)]
pub enum DecodeError {
    Malformed,
}

/// The UTF-8 length in bytes of a text.
pub open spec fn byte_len(s: Seq<char>) -> nat {
    encode_utf8(s).len()
}

/// The text that decoding the complete byte stream `bytes` yields in the
/// encoding named `label`, a leading byte order mark of that encoding removed.
pub uninterp spec fn decoded_text(label: Seq<char>, bytes: Seq<u8>) -> Seq<char>;

/// Whether decoding `bytes` as a complete stream in the encoding named
/// `label` meets a malformed byte sequence.
pub uninterp spec fn malformed(label: Seq<char>, bytes: Seq<u8>) -> bool;

/// The characters of the first `n` UTF-8 bytes of `d`.
pub open spec fn written_text(d: Seq<char>, n: nat) -> Seq<char> {
    decode_utf8(encode_utf8(d).subrange(0, n as int))
}

/// Relies on `Encoding::name`: the encoding's canonical name.
pub assume_specification[ encoding_rs::Encoding::name ](e: &'static encoding_rs::Encoding) -> &'static str;

/// A decoder for one stream, with the name of its encoding as the encoding
/// reports it, the bytes it has consumed and the text it has produced so far.
pub struct StreamDecoder {
    decoder: encoding_rs::Decoder,
    label: Ghost<Seq<char>>,
    consumed: Ghost<Seq<u8>>,
    produced: Ghost<Seq<char>>,
    ended: Ghost<bool>,
    failed: Ghost<bool>,
    last: Ghost<(DecodeStatus, usize)>,
}

impl StreamDecoder {
    /// A decoder for `encoding` that drops a leading byte order mark.
    fn new(encoding: &'static encoding_rs::Encoding) -> (r: Self)
        ensures
            !r.ended@,
            !r.failed@,
            r.consumed@ == Seq::<u8>::empty(),
            r.produced@ == Seq::<char>::empty(),
    {
        let name = encoding.name();
        StreamDecoder {
            decoder: encoding.new_decoder_with_bom_removal(),
            label: Ghost(name@),
            consumed: Ghost(Seq::empty()),
            produced: Ghost(Seq::empty()),
            ended: Ghost(false),
            failed: Ghost(false),
            last: Ghost((DecodeStatus::InputEmpty, 0)),
        }
    }

    /// Relies on `Decoder::decode_to_str_without_replacement`. It reads at most
    /// the bytes of `src`, all of them when it reports `InputEmpty`; it writes
    /// complete characters at the start of `dst` and reports their number of
    /// bytes; it never substitutes a replacement character. With `dst` at
    /// least 4 bytes long it makes progress on every call. The ghost `last`
    /// records what the call reported. The stream has ended after a call with
    /// `last` that reports `InputEmpty`; the decoder panics if used after
    /// that, and this library does not use it after a `Malformed` report,
    /// both of which `requires` rules out. Over a whole stream the text written
    /// is the stream decoded: it ends only for a well-formed stream, and
    /// `Malformed` comes only for a malformed one.
    #[verifier::external_body]
    fn decode(&mut self, src: &[u8], dst: &mut str, last: bool) -> (r: (DecodeStatus, usize, usize))
        requires
            !old(self).ended@,
            !old(self).failed@,
            byte_len(old(dst)@) >= 4,
        ensures
            final(self).label == old(self).label,
            final(self).last@ == (r.0, r.2),
            r.1 <= src@.len(),
            r.0 == DecodeStatus::InputEmpty ==> r.1 == src@.len(),
            final(self).consumed@ == old(self).consumed@ + src@.subrange(0, r.1 as int),
            byte_len(final(dst)@) == byte_len(old(dst)@),
            r.2 <= byte_len(final(dst)@),
            is_char_boundary(encode_utf8(final(dst)@), r.2 as int),
            final(self).produced@ == old(self).produced@ + written_text(final(dst)@, r.2 as nat),
            final(self).ended@ == (last && r.0 == DecodeStatus::InputEmpty),
            final(self).failed@ == (r.0 == DecodeStatus::Malformed),
            final(self).ended@ ==> final(self).produced@ == decoded_text(old(self).label@, final(self).consumed@)
                && !malformed(old(self).label@, final(self).consumed@),
            r.0 == DecodeStatus::Malformed ==> malformed(old(self).label@, final(self).consumed@),
            r.0 != DecodeStatus::Malformed && (src@.len() > 0 || last) ==> r.1 > 0 || r.2 > 0
                || final(self).ended@,
    {
        let (result, read, written) = self.decoder.decode_to_str_without_replacement(src, dst, last);
        let status = match result {
            encoding_rs::DecoderResult::InputEmpty => DecodeStatus::InputEmpty,
            encoding_rs::DecoderResult::OutputFull => DecodeStatus::OutputFull,
            encoding_rs::DecoderResult::Malformed(_, _) => DecodeStatus::Malformed,
        };
        (status, read, written)
    }
}

/// No bytes of a text are no characters, and end on a boundary.
proof fn lemma_written_nothing(d: Seq<char>)
    ensures
        is_char_boundary(encode_utf8(d), 0),
        written_text(d, 0).len() == 0,
{
    encode_utf8_valid_utf8(d);
    is_char_boundary_start_end_of_seq(encode_utf8(d));
    assert(encode_utf8(d).subrange(0, 0) =~= Seq::<u8>::empty());
}

/// The first `n` bytes of a text end on a character boundary, so they are
/// valid UTF-8 and decode to characters whose encoding is exactly those bytes.
proof fn lemma_written_text(d: Seq<char>, n: nat)
    requires
        n <= byte_len(d),
        is_char_boundary(encode_utf8(d), n as int),
    ensures
        encode_utf8(written_text(d, n)) == encode_utf8(d).subrange(0, n as int),
        n > 0 ==> written_text(d, n).len() > 0,
{
    encode_utf8_valid_utf8(d);
    valid_utf8_split(encode_utf8(d), n as int);
    decode_utf8_encode_utf8(encode_utf8(d).subrange(0, n as int));
    if n > 0 && written_text(d, n).len() == 0 {
        assert(encode_utf8(written_text(d, n)) =~= Seq::<u8>::empty());
    }
}

/// Relies on `str::repeat`: `size` copies of the NUL character, boxed.
#[verifier::external_body]
fn nul_text(size: usize) -> (r: Box<str>)
    requires
        size <= isize::MAX,
    ensures
        (*r)@ == Seq::new(size as nat, |i: int| '\0'),
{
    "\0".repeat(size).into_boxed_str()
}

/// A fixed-size text buffer that decoded characters are written to.
pub enum StrBuffer<'a> {
    Borrowed(&'a mut str),
    Owned(Box<str>),
}

impl StrBuffer<'static> {
    /// An owned buffer of `size` bytes, all NUL.
    pub fn new_owned(size: usize) -> (r: Self)
        requires
            size <= isize::MAX,
        ensures
            r is Owned,
            r@ == Seq::new(size as nat, |i: int| '\0'),
            r.size() == size,
    {
        let text = nul_text(size);
        proof {
            assert(is_ascii_chars((*text)@));
            is_ascii_chars_encode_utf8((*text)@);
        }
        StrBuffer::Owned(text)
    }
}

impl<'a> StrBuffer<'a> {
    /// A buffer that writes into text the caller lends.
    pub fn new_borrowed(inner: &'a mut str) -> (r: Self)
        ensures
            r is Borrowed,
            r@ == old(inner)@,
    {
        StrBuffer::Borrowed(inner)
    }

    /// Size of the buffer in bytes.
    pub open spec fn size(&self) -> nat {
        byte_len(self@)
    }

    /// The current contents.
    pub fn as_str(&self) -> (r: &str)
        ensures
            r@ == self@,
    {
        match self {
            StrBuffer::Borrowed(s) => &**s,
            StrBuffer::Owned(s) => &**s,
        }
    }
}

impl<'a> View for StrBuffer<'a> {
    type V = Seq<char>;

    open spec fn view(&self) -> Seq<char> {
        match self {
            StrBuffer::Borrowed(s) => (**s)@,
            StrBuffer::Owned(s) => (**s)@,
        }
    }
}

/// A fixed-size byte buffer that raw input is staged in.
pub enum Buffer<'a> {
    Borrowed(&'a mut [u8]),
    Owned(Vec<u8>),
}

impl Buffer<'static> {
    /// An owned buffer of `size` zero bytes.
    pub fn new_owned(size: usize) -> (r: Self)
        ensures
            r is Owned,
            r@ == Seq::new(size as nat, |i: int| 0u8),
    {
        let v: Vec<u8> = vec![0u8; size];
        proof {
            assert(v@ =~= Seq::new(size as nat, |i: int| 0u8));
        }
        Buffer::Owned(v)
    }
}

impl<'a> Buffer<'a> {
    /// A buffer over bytes the caller lends.
    pub fn new_borrowed(inner: &'a mut [u8]) -> (r: Self)
        ensures
            r is Borrowed,
            r@ == old(inner)@,
    {
        Buffer::Borrowed(inner)
    }

    /// Number of bytes the buffer holds.
    pub fn len(&self) -> (r: usize)
        ensures
            r == self@.len(),
    {
        match self {
            Buffer::Borrowed(s) => s.len(),
            Buffer::Owned(v) => v.len(),
        }
    }

    /// The bytes held.
    pub fn as_slice(&self) -> (r: &[u8])
        ensures
            r@ == self@,
    {
        match self {
            Buffer::Borrowed(s) => &**s,
            Buffer::Owned(v) => v.as_slice(),
        }
    }

    /// Overwrites the byte at `i`.
    pub fn set(&mut self, i: usize, b: u8)
        requires
            i < old(self)@.len(),
        ensures
            final(self)@ == old(self)@.update(i as int, b),
    {
        match self {
            Buffer::Borrowed(s) => s.set(i, b),
            Buffer::Owned(v) => v.set(i, b),
        }
    }
}

impl<'a> View for Buffer<'a> {
    type V = Seq<u8>;

    open spec fn view(&self) -> Seq<u8> {
        match self {
            Buffer::Borrowed(s) => (**s)@,
            Buffer::Owned(v) => v@,
        }
    }
}

/// The result of one decoding call: `Ok(Some(n))` when `n` bytes of text were
/// written (possibly none: call again), an error for a malformed sequence.
pub open spec fn step_outcome_spec(status: DecodeStatus, written: usize) -> Result<Option<usize>, DecodeError> {
    match status {
        DecodeStatus::Malformed => Err(DecodeError::Malformed),
        _ => Ok(Some(written)),
    }
}

/// Maps what the decoder reported to the reader's result.
pub fn step_outcome(status: DecodeStatus, written: usize) -> (r: Result<Option<usize>, DecodeError>)
    ensures
        r == step_outcome_spec(status, written),
{
    match status {
        DecodeStatus::Malformed => Err(DecodeError::Malformed),
        _ => Ok(Some(written)),
    }
}

/// Decodes a byte stream in a declared encoding into UTF-8 text.
///
/// Raw bytes are staged in a fixed buffer; the caller hands them in with
/// `fill` whenever `wants_input` says so, and `end_input` once the source is
/// exhausted. Decoding never emits replacement characters. The ghost `fed`
/// is every byte handed in so far.
pub struct DecodingReader<'buf> {
    decoder: StreamDecoder,
    buf: Buffer<'buf>,
    pos: usize,
    cap: usize,
    input_ended: bool,
    last_part_decoded: bool,
    failed: bool,
    fed: Ghost<Seq<u8>>,
}

impl<'buf> DecodingReader<'buf> {
    /// The cursor bookkeeping holds: `pos <= cap <= capacity`, capacity > 0;
    /// nothing is staged once the input has ended, and the decoder is only
    /// finalized after that; the decoder has consumed what was fed but is
    /// still staged; the two flags follow what the decoder reported.
    pub closed spec fn wf(&self) -> bool {
        &&& self.pos <= self.cap <= self.buf@.len()
        &&& self.buf@.len() > 0
        &&& self.input_ended ==> self.pos == self.cap
        &&& self.last_part_decoded == self.decoder.ended@
        &&& self.failed == self.decoder.failed@
        &&& self.last_part_decoded ==> self.input_ended
        &&& self.decoder.consumed@ + self.pending() =~= self.fed@
        &&& self.last_part_decoded ==> self.decoder.produced@ == decoded_text(
            self.decoder.label@,
            self.decoder.consumed@,
        ) && !malformed(self.decoder.label@, self.decoder.consumed@)
    }

    /// Whether the decoder reported a malformed sequence; the reader is then
    /// not to be used again.
    pub closed spec fn failed_spec(&self) -> bool {
        self.failed
    }

    /// What the decoder reported on its last call: the status and the
    /// number of bytes written.
    pub closed spec fn last_report(&self) -> (DecodeStatus, usize) {
        self.decoder.last@
    }

    /// Staged bytes not yet decoded.
    pub closed spec fn pending(&self) -> Seq<u8> {
        self.buf@.subrange(self.pos as int, self.cap as int)
    }

    /// Size of the byte staging buffer.
    pub closed spec fn capacity_spec(&self) -> nat {
        self.buf@.len()
    }

    /// Whether the source has reported the end of its input.
    pub closed spec fn input_ended_spec(&self) -> bool {
        self.input_ended
    }

    /// Whether the decoder has been finalized; from then on it reports no
    /// more input on every call.
    pub closed spec fn finalized(&self) -> bool {
        self.last_part_decoded
    }

    /// The name of the encoding.
    pub closed spec fn label(&self) -> Seq<char> {
        self.decoder.label@
    }

    /// Every byte handed in so far.
    pub closed spec fn fed(&self) -> Seq<u8> {
        self.fed@
    }

    /// The bytes the decoder has consumed.
    pub closed spec fn consumed(&self) -> Seq<u8> {
        self.decoder.consumed@
    }

    /// All text decoded so far.
    pub closed spec fn produced(&self) -> Seq<char> {
        self.decoder.produced@
    }

    /// Whether a call to `decode_to_str` would need bytes from the source.
    pub open spec fn wants_input_spec(&self) -> bool {
        self.pending().len() == 0 && !self.input_ended_spec()
    }

    /// What was fed is what was consumed followed by what is staged; once
    /// finalized, the text produced is the whole input decoded.
    pub proof fn lemma_accounting(&self)
        requires
            self.wf(),
        ensures
            self.consumed() + self.pending() == self.fed(),
            self.finalized() ==> self.produced() == decoded_text(self.label(), self.fed()) && !malformed(
                self.label(),
                self.fed(),
            ),
    {
        if self.last_part_decoded {
            assert(self.consumed() + self.pending() =~= self.consumed());
        }
    }

    /// A reader for `encoding`, staging bytes in `buf`.
    pub fn new(encoding: &'static encoding_rs::Encoding, buf: Buffer<'buf>) -> (r: Self)
        requires
            buf@.len() > 0,
        ensures
            r.wf(),
            r.pending().len() == 0,
            r.capacity_spec() == buf@.len(),
            !r.input_ended_spec(),
            !r.finalized(),
            !r.failed_spec(),
            r.fed() == Seq::<u8>::empty(),
            r.produced() == Seq::<char>::empty(),
    {
        let r = DecodingReader {
            decoder: StreamDecoder::new(encoding),
            buf,
            pos: 0,
            cap: 0,
            input_ended: false,
            last_part_decoded: false,
            failed: false,
            fed: Ghost(Seq::empty()),
        };
        proof {
            assert(r.decoder.consumed@ + r.pending() =~= r.fed@);
        }
        r
    }

    /// Size of the byte staging buffer.
    pub fn capacity(&self) -> (r: usize)
        ensures
            r == self.capacity_spec(),
    {
        self.buf.len()
    }

    /// Whether the decoder reported a malformed sequence.
    pub fn has_failed(&self) -> (r: bool)
        ensures
            r == self.failed_spec(),
    {
        self.failed
    }

    /// Whether every staged byte is decoded and the source may have more.
    pub fn wants_input(&self) -> (r: bool)
        requires
            self.wf(),
        ensures
            r == self.wants_input_spec(),
    {
        self.pos == self.cap && !self.input_ended
    }

    /// Stages bytes read from the source.
    pub fn fill(&mut self, data: &[u8])
        requires
            old(self).wf(),
            old(self).wants_input_spec(),
            0 < data@.len() <= old(self).capacity_spec(),
        ensures
            final(self).wf(),
            final(self).pending() == data@,
            final(self).fed() == old(self).fed() + data@,
            final(self).capacity_spec() == old(self).capacity_spec(),
            final(self).input_ended_spec() == old(self).input_ended_spec(),
            final(self).finalized() == old(self).finalized(),
            final(self).failed_spec() == old(self).failed_spec(),
            final(self).label() == old(self).label(),
            final(self).consumed() == old(self).consumed(),
            final(self).produced() == old(self).produced(),
    {
        let n = data.len();
        let mut i: usize = 0;
        while i < n
            invariant
                n == data@.len(),
                n <= self.buf@.len(),
                self.buf@.len() == old(self).buf@.len(),
                i <= n,
                forall|j: int| 0 <= j < i ==> self.buf@[j] == data@[j],
                self.input_ended == old(self).input_ended,
                self.last_part_decoded == old(self).last_part_decoded,
                self.failed == old(self).failed,
                self.decoder == old(self).decoder,
                self.fed == old(self).fed,
            decreases n - i,
        {
            self.buf.set(i, data[i]);
            i = i + 1;
        }
        self.pos = 0;
        self.cap = n;
        proof {
            assert(self.pending() =~= data@);
            assert(old(self).pending().len() == 0);
            assert(old(self).decoder.consumed@ =~= old(self).fed@);
            self.fed@ = old(self).fed@ + data@;
            assert(self.decoder.consumed@ + self.pending() =~= self.fed@);
        }
    }

    /// Records that the source reported the end of its input.
    pub fn end_input(&mut self)
        requires
            old(self).wf(),
            old(self).wants_input_spec(),
        ensures
            final(self).wf(),
            final(self).input_ended_spec(),
            final(self).pending().len() == 0,
            final(self).capacity_spec() == old(self).capacity_spec(),
            final(self).finalized() == old(self).finalized(),
            final(self).failed_spec() == old(self).failed_spec(),
            final(self).fed() == old(self).fed(),
            final(self).label() == old(self).label(),
            final(self).consumed() == old(self).consumed(),
            final(self).produced() == old(self).produced(),
    {
        self.input_ended = true;
    }

    /// Decodes staged bytes into the start of `dst`.
    ///
    /// `Ok(Some(n))`: `n` bytes of text were written (none means call again);
    /// `Ok(None)`: the input ended and the decoder was finalized by an earlier
    /// call, and `dst` is left as it was; `Err`: the input is malformed, and
    /// the reader is not to be used again. Once the input has ended the first
    /// calls finalize the decoder, possibly still writing text.
    pub fn decode_to_str(&mut self, dst: &mut str) -> (r: Result<Option<usize>, DecodeError>)
        requires
            old(self).wf(),
            !old(self).failed_spec(),
            !old(self).wants_input_spec(),
            byte_len(old(dst)@) >= 4,
        ensures
            !old(self).finalized() ==> r == step_outcome_spec(final(self).last_report().0, final(self).last_report().1),
            final(self).failed_spec() == r is Err,
            final(self).wf(),
            final(self).capacity_spec() == old(self).capacity_spec(),
            final(self).input_ended_spec() == old(self).input_ended_spec(),
            final(self).fed() == old(self).fed(),
            final(self).label() == old(self).label(),
            byte_len(final(dst)@) == byte_len(old(dst)@),
            (r == Ok::<Option<usize>, DecodeError>(None)) == old(self).finalized(),
            r == Ok::<Option<usize>, DecodeError>(None) ==> final(dst)@ == old(dst)@ && final(self).produced()
                == old(self).produced(),
            old(self).finalized() ==> final(self).finalized() && final(self).pending().len() == 0,
            final(self).finalized() ==> final(self).input_ended_spec(),
            r is Err ==> malformed(final(self).label(), final(self).consumed()),
            old(self).produced().len() <= final(self).produced().len(),
            final(self).produced().subrange(0, old(self).produced().len() as int) == old(self).produced(),
            r matches Ok(Some(n)) ==> n <= byte_len(final(dst)@) && is_char_boundary(encode_utf8(final(dst)@), n as int)
                && final(self).produced() == old(self).produced() + written_text(final(dst)@, n as nat),
            old(self).pending().len() > 0 ==> !final(self).finalized() && final(self).pending().len()
                <= old(self).pending().len() && final(self).pending() == old(self).pending().subrange(
                old(self).pending().len() - final(self).pending().len(),
                old(self).pending().len() as int,
            ),
            old(self).pending().len() == 0 ==> final(self).pending().len() == 0,
            old(self).pending().len() > 0 ==> r is Err || final(self).pending().len() < old(self).pending().len()
                || (r matches Ok(Some(n)) && n > 0),
            old(self).input_ended_spec() && !old(self).finalized() ==> r is Err || final(self).finalized()
                || (r matches Ok(Some(n)) && n > 0),
    {
        if self.pos == self.cap {
            return self.handle_eof_str(dst);
        }
        let src = vstd::slice::slice_subrange(self.buf.as_slice(), self.pos, self.cap);
        let (status, read, written) = self.decoder.decode(src, dst, false);
        self.pos = self.pos + read;
        if status == DecodeStatus::Malformed {
            self.failed = true;
        }
        proof {
            assert(self.pending() =~= old(self).pending().subrange(
                old(self).pending().len() - self.pending().len(),
                old(self).pending().len() as int,
            ));
            assert(src@ =~= old(self).pending());
            assert(self.decoder.consumed@ + self.pending() =~= self.fed@);
            assert(self.produced().subrange(0, old(self).produced().len() as int) =~= old(self).produced());
        }
        step_outcome(status, written)
    }

    fn handle_eof_str(&mut self, dst: &mut str) -> (r: Result<Option<usize>, DecodeError>)
        requires
            old(self).wf(),
            !old(self).failed,
            old(self).input_ended,
            old(self).pos == old(self).cap,
            byte_len(old(dst)@) >= 4,
        ensures
            final(self).wf(),
            final(self).pos == final(self).cap,
            final(self).buf@.len() == old(self).buf@.len(),
            final(self).input_ended,
            final(self).fed == old(self).fed,
            final(self).decoder.label == old(self).decoder.label,
            !old(self).finalized() ==> r == step_outcome_spec(final(self).last_report().0, final(self).last_report().1),
            final(self).failed == r is Err,
            byte_len(final(dst)@) == byte_len(old(dst)@),
            (r == Ok::<Option<usize>, DecodeError>(None)) == old(self).finalized(),
            r == Ok::<Option<usize>, DecodeError>(None) ==> final(dst)@ == old(dst)@ && final(self).produced()
                == old(self).produced(),
            old(self).finalized() ==> final(self).finalized(),
            r is Err ==> malformed(final(self).label(), final(self).consumed()),
            old(self).produced().len() <= final(self).produced().len(),
            final(self).produced().subrange(0, old(self).produced().len() as int) == old(self).produced(),
            r matches Ok(Some(n)) ==> n <= byte_len(final(dst)@) && is_char_boundary(encode_utf8(final(dst)@), n as int)
                && final(self).produced() == old(self).produced() + written_text(final(dst)@, n as nat),
            !old(self).finalized() ==> r is Err || final(self).finalized() || (r matches Ok(Some(n)) && n > 0),
    {
        if self.last_part_decoded {
            Ok(None)
        } else {
            let empty: [u8; 0] = [];
            let (status, read, written) = self.decoder.decode(empty.as_slice(), dst, true);
            if status == DecodeStatus::InputEmpty {
                self.last_part_decoded = true;
            }
            if status == DecodeStatus::Malformed {
                self.failed = true;
            }
            proof {
                assert(empty@.subrange(0, read as int) =~= Seq::<u8>::empty());
                assert(self.decoder.consumed@ + self.pending() =~= self.fed@);
                assert(self.produced().subrange(0, old(self).produced().len() as int) =~= old(self).produced());
            }
            step_outcome(status, written)
        }
    }
}

/// The undelivered tail of the decoded text is the window of the buffer,
/// character by character.
proof fn lemma_window(decoded: Seq<char>, e: nat, buf: Seq<char>, pos: int, cap: int)
    requires
        e <= decoded.len(),
        0 <= pos <= cap <= buf.len(),
        decoded.subrange(e as int, decoded.len() as int) =~= buf.subrange(pos, cap),
    ensures
        decoded.len() - e == cap - pos,
        forall|k: int| 0 <= k < cap - pos ==> #[trigger] decoded[e + k] == buf[pos + k],
{
    assert(decoded.subrange(e as int, decoded.len() as int).len() == buf.subrange(pos, cap).len());
    assert forall|k: int| 0 <= k < cap - pos implies #[trigger] decoded[e + k] == buf[pos + k] by {
        assert(decoded.subrange(e as int, decoded.len() as int)[k] == decoded[e + k]);
        assert(buf.subrange(pos, cap)[k] == buf[pos + k]);
    }
}

/// Handing out the window up to `upto` leaves the rest of it as the tail.
proof fn lemma_advance(decoded: Seq<char>, e: nat, buf: Seq<char>, pos: int, upto: int, cap: int)
    requires
        e <= decoded.len(),
        0 <= pos <= upto <= cap <= buf.len(),
        decoded.subrange(e as int, decoded.len() as int) =~= buf.subrange(pos, cap),
    ensures
        decoded.len() - e == cap - pos,
        decoded.subrange(e as int, e + (upto - pos)) =~= buf.subrange(pos, upto),
        decoded.subrange(e + (upto - pos), decoded.len() as int) =~= buf.subrange(upto, cap),
{
    lemma_window(decoded, e, buf, pos, cap);
    let tail = decoded.subrange(e + (upto - pos), decoded.len() as int);
    assert forall|k: int| 0 <= k < cap - upto implies #[trigger] tail[k] == buf.subrange(upto, cap)[k] by {
        let kk = k + (upto - pos);
        assert(decoded[e + kk] == buf[pos + kk]);
        assert(e + kk == e + (upto - pos) + k);
        assert(pos + kk == upto + k);
    }
    assert forall|k: int| 0 <= k < upto - pos implies #[trigger] decoded.subrange(e as int, e + (upto - pos))[k]
        == buf.subrange(pos, upto)[k] by {
        assert(decoded[e + k] == buf[pos + k]);
    }
}

/// A stretch free of delimiters stays so where it is copied.
proof fn lemma_transfer_no_match<M: CharMatcher>(m: &M, d: Seq<char>, a: int, b: Seq<char>, p: int, n: int)
    requires
        0 <= a,
        0 <= p,
        0 <= n,
        a + n <= d.len(),
        p + n <= b.len(),
        d.subrange(a, a + n) =~= b.subrange(p, p + n),
        no_match_in(m, b, p, p + n),
    ensures
        no_match_in(m, d, a, a + n),
{
    assert forall|j: int| a <= j < a + n implies !m.spec_matches(#[trigger] d[j]) by {
        assert(d.subrange(a, a + n)[j - a] == b.subrange(p, p + n)[j - a]);
        assert(b[p + (j - a)] == b.subrange(p, p + n)[j - a]);
    }
}

/// Two adjacent stretches free of delimiters make one.
proof fn lemma_join<M: CharMatcher>(m: &M, d: Seq<char>, s: int, e: int, e2: int)
    requires
        s <= e <= e2,
        no_match_in(m, d, s, e),
        no_match_in(m, d, e, e2),
    ensures
        no_match_in(m, d, s, e2),
{
}

/// The position of the first character of `s` in `from..to` that `m` matches.
fn find_match<M: CharMatcher>(m: &M, s: &str, from: usize, to: usize) -> (r: Option<usize>)
    requires
        from <= to <= s@.len(),
    ensures
        match r {
            Some(i) => from <= i < to && m.spec_matches(s@[i as int]) && no_match_in(m, s@, from as int, i as int),
            None => no_match_in(m, s@, from as int, to as int),
        },
{
    let mut i: usize = from;
    while i < to
        invariant
            from <= i <= to <= s@.len(),
            no_match_in(m, s@, from as int, i as int),
        decreases to - i,
    {
        if m.matches(s.get_char(i)) {
            return Some(i);
        }
        i = i + 1;
    }
    None
}

/// How a call of `DelimitingReader::read_until` ended.
#[derive(Clone, Copy, Debug, PartialEq, Eq, Structural)]
pub enum Delimited {
    /// A delimiter was found and written out as the last character.
    Found,
    /// The input ended without a further delimiter.
    EndOfInput,
    /// No delimiter in the text decoded so far: hand the decoder input if it
    /// wants some, then call again.
    Pending,
}

/// Accumulates decoded text until a delimiter character.
///
/// `decoded()` is everything the decoder has produced so far, and `emitted`
/// how much of it has been handed out; the rest is the window `pos..cap`
/// (in characters) of the first `cap_bytes` bytes of the text buffer.
pub struct DelimitingReader<'dbuf, 'buf> {
    inner: DecodingReader<'dbuf>,
    buf: StrBuffer<'buf>,
    pos: usize,
    cap: usize,
    cap_bytes: usize,
    emitted: Ghost<nat>,
}

impl<'dbuf, 'buf> DelimitingReader<'dbuf, 'buf> {
    /// The text last written into the text buffer.
    pub closed spec fn chunk(&self) -> Seq<char> {
        written_text(self.buf@, self.cap_bytes as nat)
    }

    /// The decoder is well formed, the text buffer holds a character of any
    /// size, and the window is the undelivered tail of the decoded text.
    pub closed spec fn wf(&self) -> bool {
        &&& self.inner.wf()
        &&& !self.inner.failed_spec()
        &&& self.buf.size() >= 4
        &&& self.cap_bytes <= byte_len(self.buf@)
        &&& is_char_boundary(encode_utf8(self.buf@), self.cap_bytes as int)
        &&& self.pos <= self.cap == self.chunk().len()
        &&& self.emitted@ <= self.inner.produced().len()
        &&& self.inner.produced().subrange(self.emitted@ as int, self.inner.produced().len() as int)
            =~= self.chunk().subrange(self.pos as int, self.cap as int)
    }

    /// The streaming decoder underneath.
    pub closed spec fn decoder(&self) -> DecodingReader<'dbuf> {
        self.inner
    }

    /// All text decoded so far.
    pub open spec fn decoded(&self) -> Seq<char> {
        self.decoder().produced()
    }

    /// How much of the decoded text has been handed out.
    pub closed spec fn emitted(&self) -> nat {
        self.emitted@
    }

    /// Every decoded character has been handed out and the decoder is
    /// finalized: no further text will come.
    pub open spec fn exhausted(&self) -> bool {
        self.emitted() == self.decoded().len() && self.decoder().finalized()
    }

    /// Something was done towards the next delimiter since `old`: text was
    /// decoded, staged bytes were consumed, or the decoder was finalized.
    pub open spec fn advanced_from(&self, old: &Self) -> bool {
        ||| self.decoded().len() > old.decoded().len()
        ||| self.decoder().pending().len() < old.decoder().pending().len()
        ||| self.decoder().finalized()
    }

    /// Wraps a decoder; text it decoded before is not handed out again.
    /// `buf` must hold at least one character of any size.
    pub fn wrap(inner: DecodingReader<'dbuf>, buf: StrBuffer<'buf>) -> (r: Self)
        requires
            inner.wf(),
            !inner.failed_spec(),
            buf.size() >= 4,
        ensures
            r.wf(),
            r.decoder() == inner,
            r.emitted() == inner.produced().len(),
    {
        let ghost start = inner.produced().len();
        let r = DelimitingReader { inner, buf, pos: 0, cap: 0, cap_bytes: 0, emitted: Ghost(start) };
        proof {
            lemma_written_nothing(r.buf@);
            assert(r.inner.produced().subrange(start as int, start as int) =~= r.chunk().subrange(0, 0));
        }
        r
    }

    /// A reader for `encoding` with the given staging buffers.
    pub fn new(encoding: &'static encoding_rs::Encoding, decoding_buf: Buffer<'dbuf>, buf: StrBuffer<'buf>) -> (r: Self)
        requires
            decoding_buf@.len() > 0,
            buf.size() >= 4,
        ensures
            r.wf(),
            r.decoded() == Seq::<char>::empty(),
            r.emitted() == 0,
            r.decoder().pending().len() == 0,
            r.decoder().capacity_spec() == decoding_buf@.len(),
            r.decoder().fed() == Seq::<u8>::empty(),
            !r.decoder().input_ended_spec(),
            !r.decoder().finalized(),
    {
        DelimitingReader::wrap(DecodingReader::new(encoding, decoding_buf), buf)
    }

    /// Whether the decoder needs bytes from the source.
    pub fn wants_input(&self) -> (r: bool)
        requires
            self.wf(),
        ensures
            r == self.decoder().wants_input_spec(),
    {
        self.inner.wants_input()
    }

    /// Whether the decoder reported a malformed sequence.
    pub fn has_failed(&self) -> (r: bool)
        ensures
            r == self.decoder().failed_spec(),
    {
        self.inner.has_failed()
    }

    /// Size of the byte staging buffer.
    pub fn input_capacity(&self) -> (r: usize)
        ensures
            r == self.decoder().capacity_spec(),
    {
        self.inner.capacity()
    }

    /// Hands the decoder bytes read from the source.
    pub fn fill(&mut self, data: &[u8])
        requires
            old(self).wf(),
            old(self).decoder().wants_input_spec(),
            0 < data@.len() <= old(self).decoder().capacity_spec(),
        ensures
            final(self).wf(),
            final(self).decoded() == old(self).decoded(),
            final(self).emitted() == old(self).emitted(),
            final(self).decoder().pending() == data@,
            final(self).decoder().fed() == old(self).decoder().fed() + data@,
            final(self).decoder().label() == old(self).decoder().label(),
            final(self).decoder().capacity_spec() == old(self).decoder().capacity_spec(),
            final(self).decoder().input_ended_spec() == old(self).decoder().input_ended_spec(),
            final(self).decoder().finalized() == old(self).decoder().finalized(),
    {
        self.inner.fill(data);
    }

    /// Tells the decoder that the source has no more bytes.
    pub fn end_input(&mut self)
        requires
            old(self).wf(),
            old(self).decoder().wants_input_spec(),
        ensures
            final(self).wf(),
            final(self).decoded() == old(self).decoded(),
            final(self).emitted() == old(self).emitted(),
            final(self).decoder().input_ended_spec(),
            final(self).decoder().pending().len() == 0,
            final(self).decoder().fed() == old(self).decoder().fed(),
            final(self).decoder().label() == old(self).decoder().label(),
            final(self).decoder().capacity_spec() == old(self).decoder().capacity_spec(),
            final(self).decoder().finalized() == old(self).decoder().finalized(),
    {
        self.inner.end_input();
    }

    /// Appends decoded text to `target` up to and including the first
    /// character that `m` matches.
    ///
    /// The text appended is always the next stretch of the decoded stream.
    /// `Found`: it ends with the first delimiter. `EndOfInput`: the stream
    /// ended with no delimiter in it, and everything decoded is the whole
    /// input decoded; every later call returns `EndOfInput` again and appends
    /// nothing. `Pending`: no delimiter so far.
    #[verifier::rlimit(60)]
    pub fn read_until<M: CharMatcher>(&mut self, m: &M, target: &mut String) -> (r: Result<Delimited, DecodeError>)
        requires
            old(self).wf(),
        ensures
            r is Ok ==> final(self).wf(),
            old(self).decoded().len() <= final(self).decoded().len(),
            final(self).decoded().subrange(0, old(self).decoded().len() as int) == old(self).decoded(),
            old(self).emitted() <= final(self).emitted() <= final(self).decoded().len(),
            final(target)@ == old(target)@ + final(self).decoded().subrange(
                old(self).emitted() as int,
                final(self).emitted() as int,
            ),
            final(self).decoder().capacity_spec() == old(self).decoder().capacity_spec(),
            final(self).decoder().input_ended_spec() == old(self).decoder().input_ended_spec(),
            final(self).decoder().fed() == old(self).decoder().fed(),
            final(self).decoder().label() == old(self).decoder().label(),
            r == Ok::<Delimited, DecodeError>(Delimited::Found) ==> {
                &&& old(self).emitted() < final(self).emitted()
                &&& no_match_in(m, final(self).decoded(), old(self).emitted() as int, final(self).emitted() - 1)
                &&& m.spec_matches(final(self).decoded()[final(self).emitted() - 1])
            },
            r != Ok::<Delimited, DecodeError>(Delimited::Found) ==> no_match_in(
                m,
                final(self).decoded(),
                old(self).emitted() as int,
                final(self).emitted() as int,
            ),
            r == Ok::<Delimited, DecodeError>(Delimited::EndOfInput) ==> final(self).exhausted()
                && final(self).decoded() == decoded_text(final(self).decoder().label(), final(self).decoder().fed()),
            r == Ok::<Delimited, DecodeError>(Delimited::Pending) ==> final(self).emitted()
                == final(self).decoded().len(),
            r is Err ==> malformed(final(self).decoder().label(), final(self).decoder().consumed()),
            final(self).decoder().failed_spec() == r is Err,
            old(self).exhausted() ==> r == Ok::<Delimited, DecodeError>(Delimited::EndOfInput)
                && final(target)@ == old(target)@,
            !no_match_in(m, old(self).decoded(), old(self).emitted() as int, old(self).decoded().len() as int)
                ==> r == Ok::<Delimited, DecodeError>(Delimited::Found) && final(self).decoded()
                == old(self).decoded(),
            old(self).emitted() == old(self).decoded().len() && !old(self).decoder().wants_input_spec()
                && !old(self).decoder().finalized() ==> r is Err || final(self).advanced_from(&*old(self)),
    {
        loop
            invariant
                self.wf(),
                old(self).decoded().len() <= self.decoded().len(),
                self.decoded().subrange(0, old(self).decoded().len() as int) == old(self).decoded(),
                old(self).emitted() <= self.emitted@,
                target@ == old(target)@ + self.decoded().subrange(old(self).emitted() as int, self.emitted@ as int),
                no_match_in(m, self.decoded(), old(self).emitted() as int, self.emitted@ as int),
                self.inner.capacity_spec() == old(self).decoder().capacity_spec(),
                self.inner.input_ended_spec() == old(self).decoder().input_ended_spec(),
                self.inner.fed() == old(self).decoder().fed(),
                self.inner.label() == old(self).decoder().label(),
                self.inner.pending().len() <= old(self).decoder().pending().len(),
                old(self).decoder().finalized() ==> self.inner.finalized(),
                old(self).exhausted() ==> self.emitted@ == old(self).emitted() && self.inner.finalized()
                    && self.emitted@ == self.decoded().len(),
                !no_match_in(m, old(self).decoded(), old(self).emitted() as int, old(self).decoded().len() as int)
                    ==> self.emitted@ == old(self).emitted() && self.decoded() == old(self).decoded(),
                old(self).emitted() == old(self).decoded().len() && !old(self).decoder().wants_input_spec()
                    && !old(self).decoder().finalized() ==> self.advanced_from(&*old(self)) || (
                    self.pos == self.cap && self.decoded() == old(self).decoded()
                        && self.inner.pending() == old(self).decoder().pending() && !self.inner.finalized()),
            decreases self.inner.pending().len(), if self.inner.finalized() { 0int } else { 1int }, self.cap - self.pos,
        {
            let mut progressed = true;
            proof {
                lemma_window(self.decoded(), self.emitted@, self.chunk(), self.pos as int, self.cap as int);
            }
            if self.pos == self.cap {
                if self.inner.wants_input() {
                    return Ok(Delimited::Pending);
                }
                let before = self.inner.cap - self.inner.pos;
                let was_final = self.inner.last_part_decoded;
                let ghost dec_before = self.decoded();
                self.pos = 0;
                self.cap = 0;
                self.cap_bytes = 0;
                let outcome = match &mut self.buf {
                    StrBuffer::Borrowed(t) => self.inner.decode_to_str(t),
                    StrBuffer::Owned(t) => self.inner.decode_to_str(&mut **t),
                };
                match outcome {
                    Err(e) => {
                        proof {
                            assert forall|j: int| 0 <= j < dec_before.len() implies #[trigger] self.decoded()[j]
                                == dec_before[j] by {
                                assert(self.decoded().subrange(0, dec_before.len() as int)[j] == self.decoded()[j]);
                            }
                            assert(self.decoded().subrange(old(self).emitted() as int, self.emitted@ as int)
                                =~= dec_before.subrange(old(self).emitted() as int, self.emitted@ as int));
                            assert(self.decoded().subrange(0, old(self).decoded().len() as int)
                                =~= dec_before.subrange(0, old(self).decoded().len() as int));
                        }
                        return Err(e);
                    },
                    Ok(None) => {
                        proof {
                            self.wrap_empty_window();
                            self.inner.lemma_accounting();
                        }
                        return Ok(Delimited::EndOfInput);
                    },
                    Ok(Some(n)) => {
                        let (head, _) = self.buf.as_str().split_at(n);
                        proof {
                            lemma_written_text(self.buf@, n as nat);
                            encode_utf8_decode_utf8(head@);
                            assert(head@ == written_text(self.buf@, n as nat));
                        }
                        self.cap_bytes = n;
                        self.cap = head.unicode_len();
                        proof {
                            assert(self.decoded().subrange(self.emitted@ as int, self.decoded().len() as int)
                                =~= self.chunk().subrange(0, self.cap as int));
                        }
                        progressed = self.inner.cap - self.inner.pos < before || (!was_final
                            && self.inner.last_part_decoded);
                    },
                }
            }
            let (head, _) = self.buf.as_str().split_at(self.cap_bytes);
            proof {
                lemma_written_text(self.buf@, self.cap_bytes as nat);
                encode_utf8_decode_utf8(head@);
                assert(head@ == self.chunk());
            }
            let found = find_match(m, head, self.pos, self.cap);
            proof {
                if found is None {
                    lemma_window(self.decoded(), self.emitted@, self.chunk(), self.pos as int, self.cap as int);
                    assert forall|j: int| self.emitted@ <= j < self.decoded().len() implies !m.spec_matches(
                        #[trigger] self.decoded()[j]) by {
                        assert(self.decoded()[self.emitted@ + (j - self.emitted@)] == self.chunk()[self.pos + (j
                            - self.emitted@)]);
                    }
                }
            }
            let upto = match found {
                Some(i) => i + 1,
                None => self.cap,
            };
            let piece = head.substring_char(self.pos, upto);
            target.append(piece);
            proof {
                let e = self.emitted@;
                let e2: nat = (e + (upto - self.pos)) as nat;
                lemma_advance(self.decoded(), e, self.chunk(), self.pos as int, upto as int, self.cap as int);
                let bound = match found {
                    Some(i) => i as int,
                    None => upto as int,
                };
                lemma_transfer_no_match(m, self.decoded(), e as int, self.chunk(), self.pos as int, bound - self.pos);
                lemma_join(m, self.decoded(), old(self).emitted() as int, e as int, e + (bound - self.pos));
                if let Some(i) = found {
                    assert(self.decoded().subrange(e as int, e2 as int)[i - self.pos] == self.chunk()[i as int]);
                }
                assert(self.decoded().subrange(old(self).emitted() as int, e2 as int)
                    =~= self.decoded().subrange(old(self).emitted() as int, e as int)
                    + self.decoded().subrange(e as int, e2 as int));
                self.emitted@ = e2;
            }
            self.pos = upto;
            if found.is_some() {
                return Ok(Delimited::Found);
            }
            if !progressed {
                return Ok(Delimited::Pending);
            }
        }
    }

    /// With nothing written into the text buffer, the window is empty.
    proof fn wrap_empty_window(&self)
        requires
            self.pos == 0,
            self.cap == 0,
            self.cap_bytes == 0,
            self.inner.wf(),
            !self.inner.failed_spec(),
            self.buf.size() >= 4,
            self.emitted@ == self.inner.produced().len(),
        ensures
            self.wf(),
    {
        lemma_written_nothing(self.buf@);
        assert(self.inner.produced().subrange(self.emitted@ as int, self.inner.produced().len() as int)
            =~= self.chunk().subrange(0, 0));
    }
}

/// No part contains the delimiter `d`.
pub open spec fn free_of(parts: Seq<Seq<char>>, d: char) -> bool {
    forall|j: int, k: int| 0 <= j < parts.len() && 0 <= k < parts[j].len() ==> #[trigger] parts[j][k] != d
}

/// The parts with `d` between each two.
pub open spec fn join_with(parts: Seq<Seq<char>>, d: char) -> Seq<char>
    decreases parts.len(),
{
    if parts.len() == 0 {
        Seq::empty()
    } else if parts.len() == 1 {
        parts[0]
    } else {
        parts[0].push(d) + join_with(parts.drop_first(), d)
    }
}

/// Where part `i` starts in `join_with(parts, d)`.
pub open spec fn part_start(parts: Seq<Seq<char>>, i: int) -> int
    decreases i,
{
    if i <= 0 || parts.len() == 0 {
        0
    } else {
        parts[0].len() + 1 + part_start(parts.drop_first(), i - 1)
    }
}

proof fn lemma_part_start_nonneg(parts: Seq<Seq<char>>, i: int)
    ensures
        part_start(parts, i) >= 0,
    decreases i,
{
    if i > 0 && parts.len() > 0 {
        lemma_part_start_nonneg(parts.drop_first(), i - 1);
    }
}

proof fn lemma_join_shape(parts: Seq<Seq<char>>, d: char)
    requires
        parts.len() >= 2,
    ensures
        join_with(parts, d).len() == parts[0].len() + 1 + join_with(parts.drop_first(), d).len(),
        forall|x: int| 0 <= x < parts[0].len() ==> #[trigger] join_with(parts, d)[x] == parts[0][x],
        join_with(parts, d)[parts[0].len() as int] == d,
        forall|x: int| 0 <= x < join_with(parts.drop_first(), d).len() ==> #[trigger] join_with(parts, d)[parts[0].len() + 1 + x]
            == join_with(parts.drop_first(), d)[x],
{
    let j = join_with(parts, d);
    let a = parts[0].push(d);
    assert(j == a + join_with(parts.drop_first(), d));
    assert forall|x: int| 0 <= x < parts[0].len() implies #[trigger] j[x] == parts[0][x] by {
        assert(a[x] == parts[0][x]);
    }
    assert forall|x: int| 0 <= x < join_with(parts.drop_first(), d).len() implies #[trigger] j[parts[0].len() + 1 + x]
        == join_with(parts.drop_first(), d)[x] by {
        assert(j[a.len() + x] == join_with(parts.drop_first(), d)[x]);
    }
}

/// Splitting joined text at delimiters gives the parts back: where part `i`
/// starts, the first delimiter ends the stretch `parts[i]` followed by `d`,
/// and is not the end of the last part.
///
/// With the contract of `DelimitingReader::read_until`, which hands out the
/// decoded text up to and including the first delimiter, successive calls on
/// a decoded stream `join_with(parts, d)` thus yield `parts[0]` with `d`,
/// `parts[1]` with `d`, and so on.
pub proof fn lemma_split_round_trip(parts: Seq<Seq<char>>, d: char, i: int, end: int)
    requires
        free_of(parts, d),
        0 <= i < parts.len(),
        part_start(parts, i) < end <= join_with(parts, d).len(),
        no_match_in(&d, join_with(parts, d), part_start(parts, i), end - 1),
        join_with(parts, d)[end - 1] == d,
    ensures
        i + 1 < parts.len(),
        end == part_start(parts, i + 1),
        join_with(parts, d).subrange(part_start(parts, i), end) == parts[i].push(d),
    decreases i,
{
    let j = join_with(parts, d);
    let rest = parts.drop_first();
    if parts.len() == 1 {
        assert(j == parts[0]);
        assert(parts[0][end - 1] != d);
    } else {
        lemma_join_shape(parts, d);
        lemma_part_start_nonneg(rest, i - 1);
        let k = parts[0].len() + 1;
        if i == 0 {
            if end - 1 > parts[0].len() {
                assert(!d.spec_matches(j[parts[0].len() as int]));
            } else if end - 1 < parts[0].len() {
                assert(j[end - 1] == parts[0][end - 1]);
            }
            assert(end == k);
            assert(part_start(rest, 0) == 0);
            assert(j.subrange(0, end) =~= parts[0].push(d));
        } else {
            let jr = join_with(rest, d);
            assert(free_of(rest, d)) by {
                assert forall|a: int, b: int| 0 <= a < rest.len() && 0 <= b < rest[a].len() implies #[trigger] rest[a][b]
                    != d by {
                    assert(rest[a] == parts[a + 1]);
                }
            }
            assert(no_match_in(&d, jr, part_start(rest, i - 1), end - k - 1)) by {
                assert forall|x: int| part_start(rest, i - 1) <= x < end - k - 1 implies !d.spec_matches(
                    #[trigger] jr[x]) by {
                    assert(j[k + x] == jr[x]);
                }
            }
            assert(j[k + (end - k - 1)] == jr[end - k - 1]);
            lemma_split_round_trip(rest, d, i - 1, end - k);
            assert(rest[i - 1] == parts[i]);
            assert(j.subrange(part_start(parts, i), end) =~= jr.subrange(part_start(rest, i - 1), end - k)) by {
                assert forall|x: int| 0 <= x < end - part_start(parts, i) implies j.subrange(part_start(parts, i), end)[x]
                    == jr.subrange(part_start(rest, i - 1), end - k)[x] by {
                    assert(j[k + (part_start(rest, i - 1) + x)] == jr[part_start(rest, i - 1) + x]);
                }
            }
        }
    }
}

/// What a `Found` call of `read_until` with delimiter `d` hands out, when the
/// text decoded so far is a prefix of `join_with(parts, d)` and the call
/// started where part `i` starts: exactly `parts[i]` followed by `d`, and the
/// next call starts where part `i + 1` starts.
pub proof fn lemma_found_is_next_part(parts: Seq<Seq<char>>, d: char, decoded: Seq<char>, i: int, end: int)
    requires
        free_of(parts, d),
        0 <= i < parts.len(),
        decoded.len() <= join_with(parts, d).len(),
        decoded == join_with(parts, d).subrange(0, decoded.len() as int),
        part_start(parts, i) < end <= decoded.len(),
        no_match_in(&d, decoded, part_start(parts, i), end - 1),
        d.spec_matches(decoded[end - 1]),
    ensures
        end == part_start(parts, i + 1),
        decoded.subrange(part_start(parts, i), end) == parts[i].push(d),
{
    let j = join_with(parts, d);
    lemma_part_start_nonneg(parts, i);
    assert forall|x: int| 0 <= x < decoded.len() implies #[trigger] decoded[x] == j[x] by {
        assert(j.subrange(0, decoded.len() as int)[x] == j[x]);
    }
    assert forall|x: int| part_start(parts, i) <= x < end - 1 implies !d.spec_matches(#[trigger] j[x]) by {
        assert(decoded[x] == j[x]);
    }
    lemma_split_round_trip(parts, d, i, end);
    assert(decoded.subrange(part_start(parts, i), end) =~= j.subrange(part_start(parts, i), end));
}

/// Where part `i` starts and no delimiter follows, `i` is the last part and
/// the rest of the joined text is exactly that part.
pub proof fn lemma_split_last(parts: Seq<Seq<char>>, d: char, i: int)
    requires
        free_of(parts, d),
        0 <= i < parts.len(),
        part_start(parts, i) <= join_with(parts, d).len(),
        no_match_in(&d, join_with(parts, d), part_start(parts, i), join_with(parts, d).len() as int),
    ensures
        i == parts.len() - 1,
        join_with(parts, d).subrange(part_start(parts, i), join_with(parts, d).len() as int) == parts[i],
    decreases i,
{
    let j = join_with(parts, d);
    let rest = parts.drop_first();
    if parts.len() == 1 {
        assert(j == parts[0]);
        assert(j.subrange(0, j.len() as int) =~= parts[0]);
    } else {
        lemma_join_shape(parts, d);
        lemma_part_start_nonneg(rest, i - 1);
        let k = parts[0].len() + 1;
        if i == 0 {
            assert(!d.spec_matches(j[parts[0].len() as int]));
        } else {
            let jr = join_with(rest, d);
            assert(free_of(rest, d)) by {
                assert forall|a: int, b: int| 0 <= a < rest.len() && 0 <= b < rest[a].len() implies #[trigger] rest[a][b]
                    != d by {
                    assert(rest[a] == parts[a + 1]);
                }
            }
            assert(no_match_in(&d, jr, part_start(rest, i - 1), jr.len() as int)) by {
                assert forall|x: int| part_start(rest, i - 1) <= x < jr.len() implies !d.spec_matches(#[trigger] jr[x]) by {
                    assert(j[k + x] == jr[x]);
                }
            }
            lemma_split_last(rest, d, i - 1);
            assert(rest[i - 1] == parts[i]);
            assert(j.subrange(part_start(parts, i), j.len() as int) =~= jr.subrange(part_start(rest, i - 1), jr.len() as int)) by {
                assert forall|x: int| 0 <= x < j.len() - part_start(parts, i) implies j.subrange(part_start(parts, i), j.len() as int)[x]
                    == jr.subrange(part_start(rest, i - 1), jr.len() as int)[x] by {
                    assert(j[k + (part_start(rest, i - 1) + x)] == jr[part_start(rest, i - 1) + x]);
                }
            }
        }
    }
}

/// Every cut of a chain of delimiter cuts that starts at 0 is where a part
/// starts.
proof fn lemma_cuts_are_part_starts(parts: Seq<Seq<char>>, d: char, cuts: Seq<int>, k: int)
    requires
        free_of(parts, d),
        parts.len() > 0,
        0 <= k < cuts.len(),
        cuts[0] == 0,
        forall|x: int| 0 <= x < cuts.len() - 1 ==> #[trigger] cuts[x + 1] <= join_with(parts, d).len() && cuts[x]
            < cuts[x + 1] && no_match_in(&d, join_with(parts, d), cuts[x], cuts[x + 1] - 1) && join_with(parts, d)[cuts[x
            + 1] - 1] == d,
    ensures
        k < parts.len(),
        cuts[k] == part_start(parts, k),
    decreases k,
{
    if k > 0 {
        lemma_cuts_are_part_starts(parts, d, cuts, k - 1);
        assert(cuts[(k - 1) + 1] <= join_with(parts, d).len());
        lemma_split_round_trip(parts, d, k - 1, cuts[k]);
    }
}

/// Splitting and joining round trip: cut `join_with(parts, d)` repeatedly
/// just after the first delimiter from the previous cut, starting at 0, until
/// no delimiter follows. Then there is one stretch per part; each stretch but
/// the last is its part followed by `d`, and the last is the last part.
///
/// The cuts are the ends of the text that successive `Found` calls of
/// `DelimitingReader::read_until` hand out, and the last stretch is what the
/// final `EndOfInput` call hands out.
pub proof fn lemma_round_trip(parts: Seq<Seq<char>>, d: char, cuts: Seq<int>)
    requires
        free_of(parts, d),
        parts.len() > 0,
        cuts.len() > 0,
        cuts[0] == 0,
        forall|x: int| 0 <= x < cuts.len() - 1 ==> #[trigger] cuts[x + 1] <= join_with(parts, d).len() && cuts[x]
            < cuts[x + 1] && no_match_in(&d, join_with(parts, d), cuts[x], cuts[x + 1] - 1) && join_with(parts, d)[cuts[x
            + 1] - 1] == d,
        no_match_in(&d, join_with(parts, d), cuts.last(), join_with(parts, d).len() as int),
    ensures
        cuts.len() == parts.len(),
        forall|x: int| 0 <= x < cuts.len() - 1 ==> join_with(parts, d).subrange(cuts[x], #[trigger] cuts[x + 1])
            == parts[x].push(d),
        join_with(parts, d).subrange(cuts.last(), join_with(parts, d).len() as int) == parts.last(),
{
    let l = cuts.len() - 1;
    lemma_cuts_are_part_starts(parts, d, cuts, l);
    if l > 0 {
        assert(cuts[(l - 1) + 1] <= join_with(parts, d).len());
    }
    lemma_split_last(parts, d, l);
    assert forall|x: int| 0 <= x < cuts.len() - 1 implies join_with(parts, d).subrange(cuts[x], #[trigger] cuts[x + 1])
        == parts[x].push(d) by {
        lemma_cuts_are_part_starts(parts, d, cuts, x);
        lemma_split_round_trip(parts, d, x, cuts[x + 1]);
    }
}

} // verus!
