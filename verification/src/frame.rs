//! Length-delimited framing: every packet on the stream is a four-byte
//! big-endian length followed by that many payload bytes.

use bytes::BytesMut;
use tokio_util::codec::{Decoder, Encoder, LengthDelimitedCodec};
use vstd::prelude::*;

use crate::error::BogoBarfError;
use vstd::slice::{slice_subrange, slice_to_vec};

verus! {

/// The largest payload a frame may carry: the default of the codec, 8 MiB.
pub const MAX_FRAME_LEN: usize = 8388608;

/// The four big-endian bytes of a frame length `n` (below 2^32).
pub open spec fn length_header(n: nat) -> Seq<u8> {
    seq![
        ((n / 16777216) % 256) as u8,
        ((n / 65536) % 256) as u8,
        ((n / 256) % 256) as u8,
        (n % 256) as u8,
    ]
}

/// The length announced by the first four bytes of `buf`.
pub open spec fn header_value(buf: Seq<u8>) -> nat
    recommends
        buf.len() >= 4,
{
    (buf[0] as nat) * 16777216 + (buf[1] as nat) * 65536 + (buf[2] as nat) * 256 + (buf[3] as nat)
}

/// The bytes that carry `payload` as one frame.
pub open spec fn spec_encode_frame(payload: Seq<u8>) -> Seq<u8> {
    length_header(payload.len()) + payload
}

/// What the front of a buffer holds.
pub enum FrameDecoding {
    /// Not yet a whole frame: more bytes are needed.
    Incomplete,
    /// The header announces more than `MAX_FRAME_LEN` bytes.
    TooLong,
    /// A whole frame: its payload, and the bytes after it.
    Complete(Seq<u8>, Seq<u8>),
}

/// Decoding the first frame of `buf`.
pub open spec fn spec_decode_frame(buf: Seq<u8>) -> FrameDecoding {
    if buf.len() < 4 {
        FrameDecoding::Incomplete
    } else if header_value(buf) > MAX_FRAME_LEN {
        FrameDecoding::TooLong
    } else if buf.len() < 4 + header_value(buf) {
        FrameDecoding::Incomplete
    } else {
        FrameDecoding::Complete(
            buf.subrange(4, 4 + header_value(buf) as int),
            buf.subrange(4 + header_value(buf) as int, buf.len() as int),
        )
    }
}

/// Calls `Encoder::encode` of a fresh `tokio_util` `LengthDelimitedCodec`
/// (default settings) on an empty buffer. Claimed: the codec refuses a
/// payload longer than its 8 MiB maximum, and otherwise writes the length as
/// four big-endian bytes followed by the payload.
#[verifier::external_body]
fn codec_encode(payload: &[u8]) -> (r: Result<Vec<u8>, std::io::Error>)
    ensures
        match r {
            Ok(bytes) => payload@.len() <= MAX_FRAME_LEN && bytes@ == spec_encode_frame(payload@),
            Err(_) => payload@.len() > MAX_FRAME_LEN,
        },
{
    let mut dst = BytesMut::new();
    match LengthDelimitedCodec::new().encode(payload, &mut dst) {
        Ok(()) => Ok(dst.to_vec()),
        Err(e) => Err(e),
    }
}

/// Calls `Decoder::decode` of a fresh `tokio_util` `LengthDelimitedCodec`
/// (default settings) on a copy of `buffered`, and hands back the frame and
/// the bytes the codec left in the buffer. Claimed: the codec reads a
/// four-byte big-endian length, refuses one above 8 MiB, waits while the
/// buffer is shorter than the frame, and otherwise splits the frame off.
#[verifier::external_body]
fn codec_decode(buffered: &[u8]) -> (r: Result<Option<(Vec<u8>, Vec<u8>)>, std::io::Error>)
    ensures
        match r {
            Ok(Some((frame, rest))) => spec_decode_frame(buffered@) == FrameDecoding::Complete(
                frame@,
                rest@,
            ),
            Ok(None) => spec_decode_frame(buffered@) == FrameDecoding::Incomplete,
            Err(_) => spec_decode_frame(buffered@) == FrameDecoding::TooLong,
        },
{
    let mut src = BytesMut::from(buffered);
    match LengthDelimitedCodec::new().decode(&mut src) {
        Ok(Some(frame)) => Ok(Some((frame.to_vec(), src.to_vec()))),
        Ok(None) => Ok(None),
        Err(e) => Err(e),
    }
}


/// Calls `Decoder::decode_eof` of a fresh `tokio_util`
/// `LengthDelimitedCodec` (default settings; the codec keeps the trait's
/// own `decode_eof`) on a copy of `buffered`, as the stream has ended.
/// Claimed: a whole frame is split off as by `decode`; a header above
/// 8 MiB is refused; otherwise, when no byte is left over after the codec
/// read what it could (nothing at all, or just a header whose payload is
/// missing) the stream ends cleanly, and with bytes left over it is an
/// error.
#[verifier::external_body]
fn codec_decode_eof(buffered: &[u8]) -> (r: Result<Option<(Vec<u8>, Vec<u8>)>, std::io::Error>)
    ensures
        match r {
            Ok(Some((frame, rest))) => spec_decode_frame(buffered@) == FrameDecoding::Complete(
                frame@,
                rest@,
            ),
            Ok(None) => spec_decode_frame(buffered@) == FrameDecoding::Incomplete && (
            buffered@.len() == 0 || buffered@.len() == 4),
            Err(_) => spec_decode_frame(buffered@) == FrameDecoding::TooLong || (spec_decode_frame(
                buffered@,
            ) == FrameDecoding::Incomplete && buffered@.len() != 0 && buffered@.len() != 4),
        },
{
    let mut src = BytesMut::from(buffered);
    match LengthDelimitedCodec::new().decode_eof(&mut src) {
        Ok(Some(frame)) => Ok(Some((frame.to_vec(), src.to_vec()))),
        Ok(None) => Ok(None),
        Err(e) => Err(e),
    }
}

/// Splitting `buf` into all the whole frames at its front and the bytes
/// after them; `None` where a header on the way announces a frame that is too
/// long.
pub open spec fn spec_split_frames(buf: Seq<u8>) -> Option<(Seq<Seq<u8>>, Seq<u8>)>
    decreases buf.len(),
{
    if buf.len() < 4 {
        Some((seq![], buf))
    } else if header_value(buf) > MAX_FRAME_LEN {
        None
    } else if buf.len() < 4 + header_value(buf) {
        Some((seq![], buf))
    } else {
        let rest = buf.subrange(4 + header_value(buf) as int, buf.len() as int);
        match spec_split_frames(rest) {
            None => None,
            Some((frames, left)) => Some(
                (seq![buf.subrange(4, 4 + header_value(buf) as int)] + frames, left),
            ),
        }
    }
}

/// The stream that carries `payloads` one frame after another.
pub open spec fn spec_encode_frames(payloads: Seq<Seq<u8>>) -> Seq<u8>
    decreases payloads.len(),
{
    if payloads.len() == 0 {
        Seq::empty()
    } else {
        spec_encode_frame(payloads[0]) + spec_encode_frames(payloads.drop_first())
    }
}

/// `frames` put in front of what a split gives.
pub open spec fn prepend_frames(
    frames: Seq<Seq<u8>>,
    split: Option<(Seq<Seq<u8>>, Seq<u8>)>,
) -> Option<(Seq<Seq<u8>>, Seq<u8>)> {
    match split {
        None => None,
        Some((more, left)) => Some((frames + more, left)),
    }
}

/// A header reads back the length it was written for.
pub proof fn lemma_header_roundtrip(n: nat)
    requires
        n < 4294967296,
    ensures
        length_header(n).len() == 4,
        header_value(length_header(n)) == n,
{
    let b0 = (n / 16777216) % 256;
    let b1 = (n / 65536) % 256;
    let b2 = (n / 256) % 256;
    let b3 = n % 256;
    assert(b0 * 16777216 + b1 * 65536 + b2 * 256 + b3 == n) by (nonlinear_arith)
        requires
            n < 4294967296,
            b0 == (n / 16777216) % 256,
            b1 == (n / 65536) % 256,
            b2 == (n / 256) % 256,
            b3 == n % 256,
    ;
}

/// Decoding a frame followed by anything gives back the payload and what
/// followed it.
pub proof fn lemma_decode_encoded(payload: Seq<u8>, after: Seq<u8>)
    requires
        payload.len() <= MAX_FRAME_LEN,
    ensures
        spec_decode_frame(spec_encode_frame(payload) + after) == FrameDecoding::Complete(
            payload,
            after,
        ),
{
    let buf = spec_encode_frame(payload) + after;
    lemma_header_roundtrip(payload.len());
    assert(buf.subrange(0, 4) =~= length_header(payload.len()));
    assert(header_value(buf) == header_value(length_header(payload.len())));
    assert(buf.subrange(4, 4 + payload.len() as int) =~= payload);
    assert(buf.subrange(4 + payload.len() as int, buf.len() as int) =~= after);
}


/// The first four bytes of a buffer are the header of the length they
/// announce.
pub proof fn lemma_header_of_bytes(buf: Seq<u8>)
    requires
        buf.len() >= 4,
    ensures
        header_value(buf) < 4294967296,
        length_header(header_value(buf)) == buf.subrange(0, 4),
{
    let b0 = buf[0] as int;
    let b1 = buf[1] as int;
    let b2 = buf[2] as int;
    let b3 = buf[3] as int;
    let n = header_value(buf) as int;
    assert(n / 16777216 == b0 && (n / 65536) % 256 == b1 && (n / 256) % 256 == b2 && n % 256
        == b3) by (nonlinear_arith)
        requires
            0 <= b0 < 256,
            0 <= b1 < 256,
            0 <= b2 < 256,
            0 <= b3 < 256,
            n == b0 * 16777216 + b1 * 65536 + b2 * 256 + b3,
    ;
    assert(length_header(header_value(buf)) =~= buf.subrange(0, 4));
}

/// A buffer that decodes to a frame is that frame followed by the rest.
pub proof fn lemma_decoded_frame(buf: Seq<u8>)
    ensures
        spec_decode_frame(buf) matches FrameDecoding::Complete(payload, rest) ==> payload.len()
            <= MAX_FRAME_LEN && buf == spec_encode_frame(payload) + rest,
{
    if let FrameDecoding::Complete(payload, rest) = spec_decode_frame(buf) {
        lemma_header_of_bytes(buf);
        assert(buf =~= buf.subrange(0, 4) + payload + rest);
        assert(spec_encode_frame(payload) + rest =~= buf.subrange(0, 4) + payload + rest);
    }
}

/// Framing one more payload appends its frame to the stream.
pub proof fn lemma_encode_frames_push(payloads: Seq<Seq<u8>>, payload: Seq<u8>)
    ensures
        spec_encode_frames(payloads.push(payload)) == spec_encode_frames(payloads)
            + spec_encode_frame(payload),
    decreases payloads.len(),
{
    if payloads.len() == 0 {
        assert(payloads.push(payload).drop_first() =~= Seq::<Seq<u8>>::empty());
        assert(spec_encode_frames(Seq::<Seq<u8>>::empty()) =~= Seq::<u8>::empty());
        assert(spec_encode_frames(payloads.push(payload)) =~= spec_encode_frame(payload));
        assert(spec_encode_frames(payloads) =~= Seq::<u8>::empty());
        assert(spec_encode_frames(payloads) + spec_encode_frame(payload) =~= spec_encode_frame(payload));
    } else {
        lemma_encode_frames_push(payloads.drop_first(), payload);
        assert(payloads.push(payload).drop_first() =~= payloads.drop_first().push(payload));
        assert(spec_encode_frames(payloads.push(payload)) =~= spec_encode_frames(payloads)
            + spec_encode_frame(payload));
    }
}

/// A frame is not handed out before its last byte has arrived: every proper
/// prefix of a frame is incomplete.
pub proof fn lemma_partial_frame_incomplete(payload: Seq<u8>, received: int)
    requires
        payload.len() <= MAX_FRAME_LEN,
        0 <= received < spec_encode_frame(payload).len(),
    ensures
        spec_decode_frame(spec_encode_frame(payload).take(received)) == FrameDecoding::Incomplete,
{
    let part = spec_encode_frame(payload).take(received);
    if received >= 4 {
        lemma_header_roundtrip(payload.len());
        assert(part.subrange(0, 4) =~= length_header(payload.len()));
        assert(header_value(part) == header_value(length_header(payload.len())));
    }
}

/// One step of a split: the first frame, then the split of what follows it.
pub proof fn lemma_split_step(buf: Seq<u8>)
    ensures
        spec_split_frames(buf) == match spec_decode_frame(buf) {
            FrameDecoding::Incomplete => Some((Seq::<Seq<u8>>::empty(), buf)),
            FrameDecoding::TooLong => None,
            FrameDecoding::Complete(payload, rest) => prepend_frames(
                seq![payload],
                spec_split_frames(rest),
            ),
        },
{
    assert(seq![] =~= Seq::<Seq<u8>>::empty());
}

/// Splitting is the same whether the bytes come at once or in two pieces:
/// the frames of `first + second` are the frames of `first`, then the frames
/// of what `first` left over followed by `second`.
pub proof fn lemma_split_append(first: Seq<u8>, second: Seq<u8>)
    ensures
        match spec_split_frames(first) {
            None => spec_split_frames(first + second) is None,
            Some((frames, left)) => spec_split_frames(first + second) == prepend_frames(
                frames,
                spec_split_frames(left + second),
            ),
        },
    decreases first.len(),
{
    let whole = first + second;
    lemma_split_step(first);
    lemma_split_step(whole);
    if first.len() >= 4 {
        assert(whole.subrange(0, 4) =~= first.subrange(0, 4));
        assert(header_value(whole) == header_value(first));
    }
    match spec_decode_frame(first) {
        FrameDecoding::Incomplete => {
            match spec_split_frames(whole) {
                None => {},
                Some((more, left)) => {
                    assert(Seq::<Seq<u8>>::empty() + more =~= more);
                },
            }
        },
        FrameDecoding::TooLong => {},
        FrameDecoding::Complete(payload, rest) => {
            let n = header_value(first);
            assert(whole.subrange(4, 4 + n as int) =~= payload);
            assert(whole.subrange(4 + n as int, whole.len() as int) =~= rest + second);
            lemma_split_append(rest, second);
            match spec_split_frames(rest) {
                None => {},
                Some((frames, left)) => {
                    match spec_split_frames(left + second) {
                        None => {},
                        Some((more, last)) => {
                            assert(seq![payload] + (frames + more) =~= (seq![payload] + frames)
                                + more);
                        },
                    }
                },
            }
        },
    }
}

/// A stream of frames splits back into exactly the payloads it carries,
/// with nothing left over.
pub proof fn lemma_split_encoded(payloads: Seq<Seq<u8>>)
    requires
        forall|i: int| 0 <= i < payloads.len() ==> #[trigger] payloads[i].len() <= MAX_FRAME_LEN,
    ensures
        spec_split_frames(spec_encode_frames(payloads)) == Some(
            (payloads, Seq::<u8>::empty()),
        ),
    decreases payloads.len(),
{
    if payloads.len() == 0 {
        assert(spec_encode_frames(payloads).len() == 0);
        assert(seq![] =~= payloads);
    } else {
        let tail = payloads.drop_first();
        assert forall|i: int| 0 <= i < tail.len() implies #[trigger] tail[i].len()
            <= MAX_FRAME_LEN by {
            assert(tail[i] == payloads[i + 1]);
        }
        lemma_split_encoded(tail);
        lemma_decode_encoded(payloads[0], spec_encode_frames(tail));
        lemma_split_step(spec_encode_frames(payloads));
        assert(seq![payloads[0]] + tail =~= payloads);
    }
}


/// The length that the first four bytes of `buf` announce.
fn read_header(buf: &Vec<u8>) -> (n: u64)
    requires
        buf@.len() >= 4,
    ensures
        n == header_value(buf@),
{
    (buf[0] as u64) * 16777216 + (buf[1] as u64) * 65536 + (buf[2] as u64) * 256 + (buf[3] as u64)
}

/// The frame of a payload of up to 8 MiB is four bytes more than the
/// payload: the payload's length, most significant byte first, then the
/// payload itself.
pub proof fn lemma_frame_layout(payload: Seq<u8>)
    requires
        payload.len() <= 8388608,
    ensures
        spec_encode_frame(payload).len() == payload.len() + 4,
        spec_encode_frame(payload)[0] as int * 16777216 + spec_encode_frame(payload)[1] as int
            * 65536 + spec_encode_frame(payload)[2] as int * 256 + spec_encode_frame(payload)[3]
            as int == payload.len(),
        spec_encode_frame(payload).subrange(4, payload.len() + 4 as int) == payload,
{
    lemma_header_roundtrip(payload.len());
    assert(spec_encode_frame(payload).subrange(4, payload.len() + 4 as int) =~= payload);
}

/// Reading a frame: whatever the payload (up to 8 MiB) and whatever comes
/// after it, bytes that begin with the payload's length, most significant
/// byte first, then the payload, give back the payload and leave what came
/// after it.
pub proof fn lemma_frame_read_back(payload: Seq<u8>, after: Seq<u8>)
    requires
        payload.len() <= 8388608,
    ensures
        spec_decode_frame(
            seq![
                (payload.len() / 16777216) as u8,
                ((payload.len() / 65536) % 256) as u8,
                ((payload.len() / 256) % 256) as u8,
                (payload.len() % 256) as u8,
            ] + payload + after,
        ) == FrameDecoding::Complete(payload, after),
{
    let n = payload.len();
    assert((n / 16777216) as u8 == ((n / 16777216) % 256) as u8);
    assert(seq![
        (n / 16777216) as u8,
        ((n / 65536) % 256) as u8,
        ((n / 256) % 256) as u8,
        (n % 256) as u8,
    ] =~= length_header(n));
    lemma_decode_encoded(payload, after);
}

/// A header that announces more than 8 MiB, read most significant byte
/// first, is refused, whatever follows it.
pub proof fn lemma_frame_too_long(buf: Seq<u8>)
    requires
        buf.len() >= 4,
        buf[0] as int * 16777216 + buf[1] as int * 65536 + buf[2] as int * 256 + buf[3] as int
            > 8388608,
    ensures
        spec_decode_frame(buf) == FrameDecoding::TooLong,
{
}

/// Fewer than four bytes, or a header of at most 8 MiB whose payload has
/// not fully arrived, is no frame yet.
pub proof fn lemma_frame_waits(buf: Seq<u8>)
    requires
        buf.len() < 4 || ({
            let n = buf[0] as int * 16777216 + buf[1] as int * 65536 + buf[2] as int * 256
                + buf[3] as int;
            n <= 8388608 && buf.len() < 4 + n
        }),
    ensures
        spec_decode_frame(buf) == FrameDecoding::Incomplete,
{
}

/// Frames `payload` for the wire: its length as four big-endian bytes, then
/// the payload. A payload longer than `MAX_FRAME_LEN` is refused.
pub fn encode_frame(payload: &[u8]) -> (r: Result<Vec<u8>, BogoBarfError>)
    ensures
        match r {
            Ok(bytes) => payload@.len() <= MAX_FRAME_LEN && bytes@ == spec_encode_frame(payload@),
            Err(e) => payload@.len() > MAX_FRAME_LEN && e is Io,
        },
        r is Ok ==> (r->Ok_0)@.len() == payload@.len() + 4 && (r->Ok_0)@.subrange(
            4,
            payload@.len() + 4 as int,
        ) == payload@,
{
    if payload.len() > MAX_FRAME_LEN {
        // The codec refuses the payload; its error is what is reported.
        return match codec_encode(payload) {
            Err(e) => Err(BogoBarfError::from(e)),
            Ok(bytes) => Ok(bytes),
        };
    }
    let n = payload.len() as u64;
    let mut bytes: Vec<u8> = Vec::new();
    bytes.push(((n / 16777216) % 256) as u8);
    bytes.push(((n / 65536) % 256) as u8);
    bytes.push(((n / 256) % 256) as u8);
    bytes.push((n % 256) as u8);
    bytes.extend_from_slice(payload);
    assert(bytes@ =~= spec_encode_frame(payload@));
    Ok(bytes)
}

/// The receiving end of a framed stream: the bytes read so far that do not
/// yet form a frame that was handed out.
pub struct FrameReader {
    buffered: Vec<u8>,
}

impl View for FrameReader {
    type V = Seq<u8>;

    closed spec fn view(&self) -> Seq<u8> {
        self.buffered@
    }
}

impl FrameReader {
    /// A reader that has read nothing yet.
    pub fn new() -> (r: Self)
        ensures
            r@ == Seq::<u8>::empty(),
    {
        FrameReader { buffered: Vec::new() }
    }

    /// Appends bytes read from the stream.
    pub fn extend(&mut self, data: &[u8])
        ensures
            final(self)@ == old(self)@ + data@,
    {
        self.buffered.extend_from_slice(data);
        assert(self.buffered@ =~= old(self)@ + data@);
    }

    /// The number of bytes held.
    pub fn buffered_len(&self) -> (n: usize)
        ensures
            n == self@.len(),
    {
        self.buffered.len()
    }

    /// Takes the next whole frame off the front of what was read: `None`
    /// while it has not fully arrived, an error where its header announces
    /// more than `MAX_FRAME_LEN` bytes (what was read then stays as it was).
    pub fn next_frame(&mut self) -> (r: Result<Option<Vec<u8>>, BogoBarfError>)
        ensures
            match r {
                Ok(Some(frame)) => spec_decode_frame(old(self)@) == FrameDecoding::Complete(
                    frame@,
                    final(self)@,
                ),
                Ok(None) => spec_decode_frame(old(self)@) == FrameDecoding::Incomplete
                    && final(self)@ == old(self)@,
                Err(e) => spec_decode_frame(old(self)@) == FrameDecoding::TooLong && final(self)@
                    == old(self)@ && e is Io,
            },
    {
        let len = self.buffered.len();
        if len < 4 {
            return Ok(None);
        }
        let n = read_header(&self.buffered);
        if n > MAX_FRAME_LEN as u64 {
            // The codec refuses the header; its error is what is reported.
            return match codec_decode(self.buffered.as_slice()) {
                Err(e) => Err(BogoBarfError::from(e)),
                Ok(_) => Ok(None),
            };
        }
        if ((len - 4) as u64) < n {
            return Ok(None);
        }
        Ok(Some(self.take_frame(n as usize)))
    }

    /// Splits off the frame of `n` payload bytes at the front.
    fn take_frame(&mut self, n: usize) -> (frame: Vec<u8>)
        requires
            old(self)@.len() >= 4 + n,
        ensures
            frame@ == old(self)@.subrange(4, 4 + n),
            final(self)@ == old(self)@.subrange(4 + n, old(self)@.len() as int),
    {
        let len = self.buffered.len();
        assert(len >= 4 + n);
        let frame = slice_to_vec(slice_subrange(self.buffered.as_slice(), 4, 4 + n));
        let rest = slice_to_vec(
            slice_subrange(self.buffered.as_slice(), 4 + n, self.buffered.len()),
        );
        self.buffered = rest;
        frame
    }

    /// The error for what is left when the stream ends, as the codec
    /// reports it.
    fn end_of_stream_error(&self) -> (r: Result<Option<Vec<u8>>, BogoBarfError>)
        requires
            spec_decode_frame(self@) == FrameDecoding::TooLong || (spec_decode_frame(self@)
                == FrameDecoding::Incomplete && self@.len() != 0 && self@.len() != 4),
        ensures
            r matches Err(e) && e is Io,
    {
        match codec_decode_eof(self.buffered.as_slice()) {
            Err(e) => Err(BogoBarfError::from(e)),
            Ok(_) => Ok(None),
        }
    }

    /// Takes every whole frame off the front of what was read, in order,
    /// and stops at the first frame that has not fully arrived or whose
    /// header announces more than `MAX_FRAME_LEN` bytes (then with an
    /// error). What was read is the frames handed out followed by what is
    /// left.
    pub fn drain(&mut self) -> (r: (Vec<Vec<u8>>, Option<BogoBarfError>))
        ensures
            forall|i: int| 0 <= i < (r.0)@.len() ==> #[trigger] (r.0)@[i]@.len() <= MAX_FRAME_LEN,
            old(self)@ == spec_encode_frames((r.0)@.map_values(|frame: Vec<u8>| frame@))
                + final(self)@,
            match r.1 {
                None => spec_decode_frame(final(self)@) == FrameDecoding::Incomplete,
                Some(e) => spec_decode_frame(final(self)@) == FrameDecoding::TooLong && e is Io,
            },
            spec_split_frames(old(self)@) == match r.1 {
                None => Some(((r.0)@.map_values(|frame: Vec<u8>| frame@), final(self)@)),
                Some(_) => None,
            },
    {
        let mut frames: Vec<Vec<u8>> = Vec::new();
        loop
            invariant
                forall|i: int| 0 <= i < frames@.len() ==> #[trigger] frames@[i]@.len()
                    <= MAX_FRAME_LEN,
                old(self)@ == spec_encode_frames(frames@.map_values(|frame: Vec<u8>| frame@))
                    + self@,
            decreases self@.len(),
        {
            let ghost before = self@;
            match self.next_frame() {
                Ok(Some(frame)) => {
                    proof {
                        lemma_decoded_frame(before);
                        let views = frames@.map_values(|f: Vec<u8>| f@);
                        lemma_encode_frames_push(views, frame@);
                        assert(frames@.push(frame).map_values(|f: Vec<u8>| f@) =~= views.push(
                            frame@,
                        ));
                    }
                    frames.push(frame);
                },
                Ok(None) => {
                    proof {
                        self.lemma_drained_split(frames@.map_values(|f: Vec<u8>| f@), old(self)@);
                    }
                    return (frames, None);
                },
                Err(e) => {
                    proof {
                        self.lemma_drained_split(frames@.map_values(|f: Vec<u8>| f@), old(self)@);
                    }
                    return (frames, Some(e));
                },
            }
        }
    }

    /// Takes the next whole frame off the front of what was read once the
    /// stream has ended: as `next_frame`, except that bytes that can no
    /// longer become a frame are an error. The stream ends cleanly
    /// (`Ok(None)`) when nothing is left, or only a header whose payload
    /// never came.
    pub fn finish(&mut self) -> (r: Result<Option<Vec<u8>>, BogoBarfError>)
        ensures
            match r {
                Ok(Some(frame)) => spec_decode_frame(old(self)@) == FrameDecoding::Complete(
                    frame@,
                    final(self)@,
                ),
                Ok(None) => spec_decode_frame(old(self)@) == FrameDecoding::Incomplete && (old(
                    self,
                )@.len() == 0 || old(self)@.len() == 4) && final(self)@ == old(self)@,
                Err(e) => final(self)@ == old(self)@ && e is Io && (spec_decode_frame(old(self)@)
                    == FrameDecoding::TooLong || (spec_decode_frame(old(self)@)
                    == FrameDecoding::Incomplete && old(self)@.len() != 0 && old(self)@.len()
                    != 4)),
            },
    {
        let len = self.buffered.len();
        if len == 0 {
            return Ok(None);
        }
        if len < 4 {
            return self.end_of_stream_error();
        }
        let n = read_header(&self.buffered);
        if n > MAX_FRAME_LEN as u64 {
            return self.end_of_stream_error();
        }
        if ((len - 4) as u64) < n {
            if len == 4 {
                return Ok(None);
            }
            return self.end_of_stream_error();
        }
        Ok(Some(self.take_frame(n as usize)))
    }

    proof fn lemma_drained_split(&self, frames: Seq<Seq<u8>>, whole: Seq<u8>)
        requires
            forall|i: int| 0 <= i < frames.len() ==> #[trigger] frames[i].len() <= MAX_FRAME_LEN,
            whole == spec_encode_frames(frames) + self@,
        ensures
            spec_split_frames(whole) == match spec_decode_frame(self@) {
                FrameDecoding::Incomplete => Some((frames, self@)),
                FrameDecoding::TooLong => None,
                FrameDecoding::Complete(_, _) => spec_split_frames(whole),
            },
    {
        lemma_split_encoded(frames);
        lemma_split_append(spec_encode_frames(frames), self@);
        assert(Seq::<u8>::empty() + self@ =~= self@);
        lemma_split_step(self@);
        assert(frames + Seq::<Seq<u8>>::empty() =~= frames);
    }
}

} // verus!
