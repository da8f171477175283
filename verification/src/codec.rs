//! `mimic-mct-v1`: the token stream of a small transform speech codec.
//!
//! Frames of 20 ms (320 samples at 16 kHz) are analysed by a 50%-lapped
//! transform and stored one by one: a silence flag, or a scale, a 320-bit
//! significance bitmap and 3-bit quantized coefficients. Streams are cut and
//! joined frame by frame, without decoding.
//!
//! Token stream layout:
//!   header: "MCT1" | original samples u32 | sample rate u32 | frame count u32
//!   per frame: type u8
//!     0 = silence (1 byte in total)
//!     1 = tonal: scale u16 | bitmap 40 B | 3-bit packed values

use crate::audio::{WavAudio, WavView};
use crate::bytes::{
    copy_range, extend_all, get16, get32, le16, le32, lemma_read16_le16, lemma_read32_le32,
    lemma_read32_shift, push_le16, push_le32, read16, read32,
};
use crate::error::{outcome, ErrorView, MimicError, Result};
use crate::frac::{all_of_a_length, frac_of, lemma_frac_bound, none_of_a_length, Frac};
use crate::text::{dec, decimal};
use vstd::prelude::*;
use vstd::string::*;

verus! {

/// Samples per frame: 20 ms at 16 kHz.
pub const FRAME: usize = 320;

/// Samples per analysis window, 50% lapped.
pub const WINDOW: usize = 640;

/// A codec between audio and token streams. Both directions are functions of
/// their input, which each codec fixes for itself.
pub trait AudioCodec {
    /// The tokens of `audio`.
    closed spec fn encoded(&self, audio: WavView) -> Seq<u8> {
        arbitrary()
    }

    /// The audio of `tokens`.
    closed spec fn decoded(&self, tokens: Seq<u8>) -> core::result::Result<WavView, ErrorView> {
        arbitrary()
    }

    /// The name that token streams of this codec are stored under.
    closed spec fn codec_name(&self) -> Seq<char> {
        arbitrary()
    }

    fn name(&self) -> (r: &str)
        ensures
            r@ == self.codec_name(),
    ;

    fn encode(&self, audio: &WavAudio) -> (r: Vec<u8>)
        ensures
            r@ == self.encoded(audio@),
    ;

    fn decode(&self, tokens: &[u8]) -> (r: Result<WavAudio>)
        ensures
            outcome(r) == self.decoded(tokens@),
    ;
}

/// The number of analysis frames for a sample count. One more than covers the
/// samples, so that two lapped windows cover the tail.
pub open spec fn frames_of(samples: nat) -> nat {
    (samples + 319) / 320 + 1
}

/// The number of frames that `samples` samples are analysed in.
pub fn frames_for(samples: usize) -> (r: usize)
    ensures
        r == frames_of(samples as nat),
{
    let whole: usize = samples / FRAME;
    if samples % FRAME == 0 {
        whole + 1
    } else {
        whole + 2
    }
}

/// Every sample lies in two lapped windows: that of the frame it falls in and
/// the next one, and both are analysed.
pub proof fn every_sample_is_lapped(samples: nat, i: nat)
    requires
        i < samples,
    ensures
        i / 320 + 1 < frames_of(samples),
        (i / 320) * 320 <= i < (i / 320) * 320 + 320,
{
}

/// The samples under the analysis window of frame `f`: the frame before and
/// the frame itself, zero outside of the audio.
pub open spec fn window_at(s: Seq<i16>, f: nat) -> Seq<i16> {
    Seq::new(
        640,
        |i: int|
            {
                let at = f * 320 + i - 320;
                if 0 <= at < s.len() {
                    s[at]
                } else {
                    0
                }
            },
    )
}

/// The samples under the analysis window of frame `f`.
pub fn analysis_window(audio: &WavAudio, f: usize) -> (r: Vec<i16>)
    requires
        f < frames_of(audio@.samples.len()),
    ensures
        r@ == window_at(audio@.samples, f as nat),
{
    let n: usize = audio.samples.len();
    let mut out: Vec<i16> = Vec::new();
    let mut i: usize = 0;
    while i < WINDOW
        invariant
            n == audio.samples@.len(),
            f < frames_of(n as nat),
            i <= 640,
            out@.len() == i,
            forall|k: int| 0 <= k < i ==> out@[k] == window_at(audio.samples@, f as nat)[k],
        decreases 640 - i,
    {
        let at: u128 = (f as u128) * 320 + (i as u128);
        if at >= 320 && at - 320 < n as u128 {
            out.push(audio.samples[(at - 320) as usize]);
        } else {
            out.push(0);
        }
        i += 1;
    }
    assert(out@ =~= window_at(audio.samples@, f as nat));
    out
}

/// How many samples a stream decodes to: the declared count, or all that its
/// frames synthesise where it declares more.
pub open spec fn decoded_len(orig_samples: u32, frames: nat) -> nat {
    if orig_samples <= frames * 320 + 320 {
        orig_samples as nat
    } else {
        frames * 320 + 320
    }
}

// ---- bits ----

/// The weight of bit `j` in a byte.
pub open spec fn weight(j: int) -> nat {
    if j == 0 {
        1
    } else if j == 1 {
        2
    } else if j == 2 {
        4
    } else if j == 3 {
        8
    } else if j == 4 {
        16
    } else if j == 5 {
        32
    } else if j == 6 {
        64
    } else {
        128
    }
}

fn bit_weight(j: usize) -> (r: u8)
    requires
        j < 8,
    ensures
        r == weight(j as int),
{
    if j == 0 {
        1
    } else if j == 1 {
        2
    } else if j == 2 {
        4
    } else if j == 3 {
        8
    } else if j == 4 {
        16
    } else if j == 5 {
        32
    } else if j == 6 {
        64
    } else {
        128
    }
}

/// Bit `k` of a byte sequence, the least significant bit of a byte first.
pub open spec fn bit_at(s: Seq<u8>, k: int) -> bool {
    (s[k / 8] as nat / weight(k % 8)) % 2 == 1
}

/// The number of bytes that hold `n` bits.
pub open spec fn bytes_for_bits(n: nat) -> nat {
    (n + 7) / 8
}

/// One where bit `k` of `bits` is set, zero where it is clear or missing.
pub open spec fn unit_bit(bits: Seq<bool>, k: int) -> nat {
    if 0 <= k < bits.len() && bits[k] {
        1
    } else {
        0
    }
}

/// The byte made of eight bits from `k` on, the first one least significant.
pub open spec fn byte_at(bits: Seq<bool>, k: int) -> nat {
    unit_bit(bits, k) + 2 * unit_bit(bits, k + 1) + 4 * unit_bit(bits, k + 2) + 8 * unit_bit(
        bits,
        k + 3,
    ) + 16 * unit_bit(bits, k + 4) + 32 * unit_bit(bits, k + 5) + 64 * unit_bit(bits, k + 6) + 128
        * unit_bit(bits, k + 7)
}

/// Bits packed into bytes, the last byte filled with zeros.
pub open spec fn packed(bits: Seq<bool>) -> Seq<u8> {
    Seq::new(bytes_for_bits(bits.len()), |i: int| byte_at(bits, 8 * i) as u8)
}

/// Packed bits are read back.
pub proof fn packed_bits_read_back(bits: Seq<bool>, k: int)
    requires
        0 <= k < bits.len(),
    ensures
        bit_at(packed(bits), k) == bits[k],
{
    let i = k / 8;
    let b = byte_at(bits, 8 * i);
    assert(0 <= i < bytes_for_bits(bits.len()));
    assert(packed(bits)[i] == b);
    assert(k == 8 * i + k % 8);
    let u0 = unit_bit(bits, 8 * i);
    let u1 = unit_bit(bits, 8 * i + 1);
    let u2 = unit_bit(bits, 8 * i + 2);
    let u3 = unit_bit(bits, 8 * i + 3);
    let u4 = unit_bit(bits, 8 * i + 4);
    let u5 = unit_bit(bits, 8 * i + 5);
    let u6 = unit_bit(bits, 8 * i + 6);
    let u7 = unit_bit(bits, 8 * i + 7);
    let j = k % 8;
    if j == 0 {
        assert(b % 2 == u0);
    } else if j == 1 {
        assert(b / 2 == u1 + 2 * u2 + 4 * u3 + 8 * u4 + 16 * u5 + 32 * u6 + 64 * u7);
    } else if j == 2 {
        assert(b / 4 == u2 + 2 * u3 + 4 * u4 + 8 * u5 + 16 * u6 + 32 * u7);
    } else if j == 3 {
        assert(b / 8 == u3 + 2 * u4 + 4 * u5 + 8 * u6 + 16 * u7);
    } else if j == 4 {
        assert(b / 16 == u4 + 2 * u5 + 4 * u6 + 8 * u7);
    } else if j == 5 {
        assert(b / 32 == u5 + 2 * u6 + 4 * u7);
    } else if j == 6 {
        assert(b / 64 == u6 + 2 * u7);
    } else {
        assert(b / 128 == u7);
    }
}

fn one_if(bits: &Vec<bool>, k: u128, w: u8) -> (r: u8)
    ensures
        r == (if unit_bit(bits@, k as int) == 1 {
            w as int
        } else {
            0
        }),
{
    if k < bits.len() as u128 && bits[k as usize] {
        w
    } else {
        0
    }
}

/// Packs bits into bytes.
pub fn pack_bits(bits: &Vec<bool>) -> (r: Vec<u8>)
    ensures
        r@ == packed(bits@),
{
    let total: usize = bits.len();
    let n: usize = total / 8 + (if total % 8 == 0 {
        0
    } else {
        1
    });
    let mut out: Vec<u8> = Vec::new();
    let mut i: usize = 0;
    while i < n
        invariant
            n == bytes_for_bits(bits@.len()),
            i <= n,
            out@.len() == i,
            forall|k: int| 0 <= k < i ==> out@[k] == packed(bits@)[k],
        decreases n - i,
    {
        let k: u128 = 8 * (i as u128);
        let low: u8 = one_if(bits, k, 1) + one_if(bits, k + 1, 2) + one_if(bits, k + 2, 4) + one_if(
            bits,
            k + 3,
            8,
        );
        let high: u8 = one_if(bits, k + 4, 16) + one_if(bits, k + 5, 32) + one_if(bits, k + 6, 64)
            + one_if(bits, k + 7, 128);
        assert(low + high == byte_at(bits@, k as int));
        out.push(low + high);
        i += 1;
    }
    assert(out@ =~= packed(bits@));
    out
}

/// Reads one bit.
fn get_bit(s: &[u8], k: usize) -> (r: bool)
    requires
        k / 8 < s@.len(),
    ensures
        r == bit_at(s@, k as int),
{
    (s[k / 8] / bit_weight(k % 8)) % 2 == 1
}

/// How many of the first `k` bits are set.
pub open spec fn rank(s: Seq<u8>, k: nat) -> nat
    decreases k,
{
    if k == 0 {
        0
    } else {
        rank(s, (k - 1) as nat) + (if bit_at(s, k - 1) {
            1nat
        } else {
            0nat
        })
    }
}

proof fn lemma_rank_bound(s: Seq<u8>, j: nat, k: nat)
    requires
        j <= k,
    ensures
        rank(s, j) <= rank(s, k) <= rank(s, j) + (k - j),
    decreases k,
{
    if j < k {
        lemma_rank_bound(s, j, (k - 1) as nat);
    }
}

/// How many bits are set among the first 320 from byte `at` on.
fn count_bits(s: &[u8], at: usize) -> (r: usize)
    requires
        at + 40 <= s@.len(),
    ensures
        r == rank(s@.subrange(at as int, at + 40), 320),
        r <= 320,
{
    let ghost map = s@.subrange(at as int, at + 40);
    let total: usize = s.len();
    let mut n: usize = 0;
    let mut k: usize = 0;
    while k < FRAME
        invariant
            total == s@.len(),
            at + 40 <= total,
            map == s@.subrange(at as int, at + 40),
            k <= 320,
            n <= k,
            n == rank(map, k as nat),
        decreases 320 - k,
    {
        let byte: u8 = s[at + k / 8];
        assert(byte == map[k as int / 8]);
        if (byte / bit_weight(k % 8)) % 2 == 1 {
            n += 1;
        }
        k += 1;
    }
    n
}

// ---- streams ----

/// The four bytes that a token stream starts with.
pub open spec fn magic() -> Seq<u8> {
    seq![0x4d, 0x43, 0x54, 0x31]
}

pub open spec fn is_stream(s: Seq<u8>) -> bool {
    s.len() >= 16 && s.subrange(0, 4) == magic()
}

/// The size of the frame at `pos`, or what is wrong with it.
pub open spec fn frame_size(s: Seq<u8>, pos: int) -> core::result::Result<nat, ErrorView> {
    if pos >= s.len() {
        Err(ErrorView::Wav("truncated token stream"@))
    } else if s[pos] == 0 {
        Ok(1)
    } else if s[pos] == 1 {
        if pos + 43 > s.len() {
            Err(ErrorView::Wav("truncated tonal frame"@))
        } else {
            let size = 43 + bytes_for_bits(3 * rank(s.subrange(pos + 3, pos + 43), 320));
            if pos + size > s.len() {
                Err(ErrorView::Wav("truncated values"@))
            } else {
                Ok(size)
            }
        }
    } else {
        Err(ErrorView::Wav("bad frame type "@ + dec(s[pos] as nat)))
    }
}

/// `done` in front of the content of `rest`.
pub open spec fn after(
    done: Seq<Seq<u8>>,
    rest: core::result::Result<Seq<Seq<u8>>, ErrorView>,
) -> core::result::Result<Seq<Seq<u8>>, ErrorView> {
    match rest {
        Ok(r) => Ok(done + r),
        Err(e) => Err(e),
    }
}

/// The bytes of `n` frames from `pos` on, each its own sequence.
pub open spec fn frames_from(s: Seq<u8>, pos: int, n: nat) -> core::result::Result<
    Seq<Seq<u8>>,
    ErrorView,
>
    decreases n,
{
    if n == 0 {
        Ok(Seq::empty())
    } else {
        match frame_size(s, pos) {
            Err(e) => Err(e),
            Ok(size) => after(
                seq![s.subrange(pos, pos + size)],
                frames_from(s, pos + size, (n - 1) as nat),
            ),
        }
    }
}

/// A token stream: its header fields and the bytes of its frames.
#[verifier::ext_equal]
pub struct StreamView {
    pub sample_rate: u32,
    pub orig_samples: u32,
    pub frames: Seq<Seq<u8>>,
}

/// The parsed form of a token stream, or what is wrong with it.
pub open spec fn parsed_stream(s: Seq<u8>) -> core::result::Result<StreamView, ErrorView> {
    if !is_stream(s) {
        Err(ErrorView::Wav("not an MCT1 token stream"@))
    } else {
        match frames_from(s, 16, read32(s, 12) as nat) {
            Err(e) => Err(e),
            Ok(frames) => Ok(
                StreamView { sample_rate: read32(s, 8), orig_samples: read32(s, 4), frames },
            ),
        }
    }
}

/// Sequences one after the other.
pub open spec fn flat(parts: Seq<Seq<u8>>) -> Seq<u8>
    decreases parts.len(),
{
    if parts.len() == 0 {
        Seq::empty()
    } else {
        flat(parts.drop_last()) + parts.last()
    }
}

/// The header of a token stream.
pub open spec fn stream_header(orig_samples: u32, sample_rate: u32, frames: u32) -> Seq<u8> {
    magic() + le32(orig_samples) + le32(sample_rate) + le32(frames)
}

/// The bytes of a token stream. The frame count wraps at 2^32.
#[verifier::opaque]
pub open spec fn emitted(v: StreamView) -> Seq<u8> {
    stream_header(v.orig_samples, v.sample_rate, (v.frames.len() % 0x1_0000_0000) as u32) + flat(
        v.frames,
    )
}

/// The views of a sequence of byte vectors.
pub open spec fn rows(v: Seq<Vec<u8>>) -> Seq<Seq<u8>> {
    Seq::new(v.len(), |i: int| v[i]@)
}

/// A parsed token stream.
pub struct ParsedStream {
    pub sample_rate: u32,
    pub orig_samples: u32,
    pub frames: Vec<Vec<u8>>,
}

impl View for ParsedStream {
    type V = StreamView;

    open spec fn view(&self) -> StreamView {
        StreamView {
            sample_rate: self.sample_rate,
            orig_samples: self.orig_samples,
            frames: rows(self.frames@),
        }
    }
}

fn has_magic(s: &[u8]) -> (r: bool)
    ensures
        r == is_stream(s@),
{
    if s.len() < 16 {
        return false;
    }
    let r = s[0] == 0x4d && s[1] == 0x43 && s[2] == 0x54 && s[3] == 0x31;
    proof {
        let w = s@.subrange(0, 4);
        assert(w[0] == s@[0] && w[1] == s@[1] && w[2] == s@[2] && w[3] == s@[3]);
        if r {
            assert(w =~= magic());
        } else if w == magic() {
            assert(magic()[0] == 0x4d && magic()[1] == 0x43 && magic()[2] == 0x54 && magic()[3]
                == 0x31);
        }
    }
    r
}

fn bad_type(t: u8) -> (r: MimicError)
    ensures
        r@ == ErrorView::Wav("bad frame type "@ + dec(t as nat)),
{
    let mut m = "bad frame type ".to_owned();
    m.append(decimal(t as u64).as_str());
    MimicError::Wav(m)
}

/// The size of the frame at `pos`.
fn size_at(s: &[u8], pos: usize) -> (r: core::result::Result<usize, MimicError>)
    requires
        pos <= s@.len(),
    ensures
        match r {
            Ok(size) => frame_size(s@, pos as int) == Ok::<nat, ErrorView>(size as nat),
            Err(e) => frame_size(s@, pos as int) == Err::<nat, ErrorView>(e@),
        },
{
    let total: usize = s.len();
    if pos >= total {
        return Err(MimicError::Wav("truncated token stream".to_owned()));
    }
    if s[pos] == 0 {
        return Ok(1);
    }
    if s[pos] != 1 {
        return Err(bad_type(s[pos]));
    }
    if total - pos < 43 {
        return Err(MimicError::Wav("truncated tonal frame".to_owned()));
    }
    let n: usize = count_bits(s, pos + 3);
    let size: usize = 43 + (3 * n + 7) / 8;
    if size > total - pos {
        return Err(MimicError::Wav("truncated values".to_owned()));
    }
    Ok(size)
}

/// Parses a token stream into header fields and the bytes of each frame.
pub fn parse_stream(tokens: &[u8]) -> (r: Result<ParsedStream>)
    ensures
        outcome(r) == parsed_stream(tokens@),
{
    if !has_magic(tokens) {
        return Err(MimicError::Wav("not an MCT1 token stream".to_owned()));
    }
    let orig_samples: u32 = get32(tokens, 4);
    let sample_rate: u32 = get32(tokens, 8);
    let count: u32 = get32(tokens, 12);
    let total: usize = tokens.len();
    let mut frames: Vec<Vec<u8>> = Vec::new();
    let mut pos: usize = 16;
    let mut left: u32 = count;
    assert(after(rows(frames@), frames_from(tokens@, 16, count as nat)) == frames_from(
        tokens@,
        16,
        count as nat,
    )) by {
        if let Ok(r) = frames_from(tokens@, 16, count as nat) {
            assert(rows(frames@) + r =~= r);
        }
    }
    while left > 0
        invariant
            is_stream(tokens@),
            total == tokens@.len(),
            count == read32(tokens@, 12),
            16 <= pos <= total,
            frames_from(tokens@, 16, count as nat) == after(
                rows(frames@),
                frames_from(tokens@, pos as int, left as nat),
            ),
        decreases left,
    {
        let ghost done = rows(frames@);
        let ghost here = frames_from(tokens@, pos as int, left as nat);
        match size_at(tokens, pos) {
            Err(e) => {
                return Err(e);
            },
            Ok(size) => {
                let next: usize = pos + size;
                frames.push(copy_range(tokens, pos, next));
                proof {
                    let f = tokens@.subrange(pos as int, next as int);
                    let rest = frames_from(tokens@, next as int, (left - 1) as nat);
                    assert(here == after(seq![f], rest));
                    assert(rows(frames@) =~= done + seq![f]);
                    if let Ok(r) = rest {
                        assert(done + (seq![f] + r) =~= (done + seq![f]) + r);
                    }
                }
                pos = next;
                left -= 1;
            },
        }
    }
    assert(rows(frames@) + Seq::<Seq<u8>>::empty() =~= rows(frames@));
    Ok(ParsedStream { sample_rate, orig_samples, frames })
}

/// Serializes the frames `start..end` of a stream.
fn emit_range(
    sample_rate: u32,
    orig_samples: u32,
    frames: &Vec<Vec<u8>>,
    start: usize,
    end: usize,
) -> (r: Vec<u8>)
    requires
        start <= end <= frames@.len(),
    ensures
        r@ == emitted(
            StreamView {
                sample_rate,
                orig_samples,
                frames: rows(frames@).subrange(start as int, end as int),
            },
        ),
{
    let ghost all = rows(frames@);
    proof {
        reveal(emitted);
    }
    let mut out: Vec<u8> = Vec::new();
    out.push(0x4d);
    out.push(0x43);
    out.push(0x54);
    out.push(0x31);
    assert(out@ =~= magic());
    push_le32(&mut out, orig_samples);
    push_le32(&mut out, sample_rate);
    let n: usize = end - start;
    push_le32(&mut out, ((n as u64) % 0x1_0000_0000) as u32);
    let ghost head = out@;
    let mut i: usize = start;
    assert(out@ =~= head + flat(all.subrange(start as int, start as int)));
    while i < end
        invariant
            all == rows(frames@),
            start <= i <= end <= frames@.len(),
            out@ == head + flat(all.subrange(start as int, i as int)),
        decreases end - i,
    {
        let ghost before = out@;
        extend_all(&mut out, &frames[i]);
        proof {
            let now = all.subrange(start as int, i + 1);
            assert(now.drop_last() =~= all.subrange(start as int, i as int));
            assert(now.last() == frames@[i as int]@);
            assert(head + (flat(now.drop_last()) + now.last()) =~= (head + flat(now.drop_last()))
                + now.last());
        }
        i += 1;
    }
    out
}

/// Serializes a stream.
pub fn emit_stream(stream: &ParsedStream) -> (r: Vec<u8>)
    ensures
        r@ == emitted(stream@),
{
    let r = emit_range(
        stream.sample_rate,
        stream.orig_samples,
        &stream.frames,
        0,
        stream.frames.len(),
    );
    assert(rows(stream.frames@).subrange(0, stream.frames@.len() as int) =~= rows(stream.frames@));
    r
}

/// Number of frames that a token stream declares (header read, no decode).
pub fn token_frames(tokens: &[u8]) -> (r: core::result::Result<u32, MimicError>)
    ensures
        match r {
            Ok(n) => is_stream(tokens@) && n == read32(tokens@, 12),
            Err(e) => !is_stream(tokens@) && e@ == ErrorView::Wav("not an MCT1 token stream"@),
        },
{
    if !has_magic(tokens) {
        return Err(MimicError::Wav("not an MCT1 token stream".to_owned()));
    }
    Ok(get32(tokens, 12))
}

/// The frames of `v` from fraction `f0` to fraction `f1`.
pub open spec fn sliced_stream(v: StreamView, f0: Frac, f1: Frac) -> StreamView {
    let s = frac_of(f0, v.frames.len());
    let e = frac_of(f1, v.frames.len());
    let end = if e < s {
        s
    } else {
        e
    };
    StreamView {
        sample_rate: v.sample_rate,
        orig_samples: ((end - s) * 320 % 0x1_0000_0000) as u32,
        frames: v.frames.subrange(s as int, end as int),
    }
}

/// The stream cut out of `tokens`, or what is wrong with `tokens`.
pub open spec fn sliced_tokens(tokens: Seq<u8>, f0: Frac, f1: Frac) -> core::result::Result<
    Seq<u8>,
    ErrorView,
> {
    match parsed_stream(tokens) {
        Err(e) => Err(e),
        Ok(v) => Ok(emitted(sliced_stream(v, f0, f1))),
    }
}

/// Slices a token stream by fractional offsets (frame-aligned), without
/// decoding it.
pub fn slice_tokens(tokens: &[u8], f0: Frac, f1: Frac) -> (r: Result<Vec<u8>>)
    ensures
        outcome(r) == sliced_tokens(tokens@, f0, f1),
{
    match parse_stream(tokens) {
        Err(e) => Err(e),
        Ok(p) => {
            let nf: usize = p.frames.len();
            let s: usize = f0.of(nf);
            let e: usize = f1.of(nf);
            let end: usize = if e < s {
                s
            } else {
                e
            };
            let samples: u32 = (((end - s) as u128 * 320) % 0x1_0000_0000) as u32;
            Ok(emit_range(p.sample_rate, samples, &p.frames, s, end))
        },
    }
}

/// `acc` followed by the stream `p`. The rate is that of the first stream that
/// declares one; the sample count wraps at 2^32.
pub open spec fn joined_streams(acc: StreamView, p: StreamView) -> core::result::Result<
    StreamView,
    ErrorView,
> {
    let rate = if acc.sample_rate == 0 {
        p.sample_rate
    } else {
        acc.sample_rate
    };
    if p.sample_rate != rate {
        Err(ErrorView::SampleRateMismatch(rate, p.sample_rate))
    } else {
        Ok(
            StreamView {
                sample_rate: rate,
                orig_samples: ((acc.orig_samples + p.orig_samples) % 0x1_0000_0000) as u32,
                frames: acc.frames + p.frames,
            },
        )
    }
}

/// All streams joined in order, or the first problem met.
pub open spec fn gathered(streams: Seq<Seq<u8>>) -> core::result::Result<StreamView, ErrorView>
    decreases streams.len(),
{
    if streams.len() == 0 {
        Ok(StreamView { sample_rate: 0, orig_samples: 0, frames: Seq::empty() })
    } else {
        match gathered(streams.drop_last()) {
            Err(e) => Err(e),
            Ok(acc) => match parsed_stream(streams.last()) {
                Err(e) => Err(e),
                Ok(p) => joined_streams(acc, p),
            },
        }
    }
}

/// The bytes of all streams joined in order, or the first problem met.
pub open spec fn concatenated(streams: Seq<Seq<u8>>) -> core::result::Result<Seq<u8>, ErrorView> {
    match gathered(streams) {
        Err(e) => Err(e),
        Ok(v) => Ok(emitted(v)),
    }
}

/// The byte sequences behind a sequence of slices.
pub open spec fn slices(v: Seq<&[u8]>) -> Seq<Seq<u8>> {
    Seq::new(v.len(), |i: int| v[i]@)
}

/// A problem that comes up early stays the first.
proof fn lemma_gathered_error(streams: Seq<Seq<u8>>, n: int)
    requires
        0 <= n <= streams.len(),
        gathered(streams.take(n)) is Err,
    ensures
        gathered(streams) == gathered(streams.take(n)),
    decreases streams.len(),
{
    if n == streams.len() {
        assert(streams.take(n) =~= streams);
    } else {
        assert(streams.drop_last().take(n) =~= streams.take(n));
        lemma_gathered_error(streams.drop_last(), n);
    }
}

/// Appends copies of all rows.
fn append_rows(out: &mut Vec<Vec<u8>>, more: Vec<Vec<u8>>)
    ensures
        rows(final(out)@) == rows(old(out)@) + rows(more@),
{
    let mut i: usize = 0;
    assert(rows(out@) =~= rows(old(out)@) + rows(more@).take(0));
    while i < more.len()
        invariant
            i <= more@.len(),
            rows(out@) == rows(old(out)@) + rows(more@).take(i as int),
        decreases more@.len() - i,
    {
        let ghost before = out@;
        let row: Vec<u8> = copy_range(&more[i], 0, more[i].len());
        assert(row@ =~= more@[i as int]@);
        out.push(row);
        assert(rows(out@) =~= rows(before).push(more@[i as int]@));
        assert(rows(out@) =~= rows(old(out)@) + rows(more@).take(i + 1));
        i += 1;
    }
    assert(rows(more@).take(i as int) =~= rows(more@));
}

/// Concatenates token streams frame by frame (no resampling, no re-encode).
pub fn concat_tokens(streams: &[&[u8]]) -> (r: Result<Vec<u8>>)
    ensures
        outcome(r) == concatenated(slices(streams@)),
{
    let ghost all = slices(streams@);
    let mut acc = ParsedStream { sample_rate: 0, orig_samples: 0, frames: Vec::new() };
    let mut i: usize = 0;
    assert(acc@ =~= StreamView { sample_rate: 0, orig_samples: 0, frames: Seq::empty() });
    while i < streams.len()
        invariant
            all == slices(streams@),
            i <= streams@.len(),
            gathered(all.take(i as int)) == Ok::<StreamView, ErrorView>(acc@),
        decreases streams@.len() - i,
    {
        proof {
            assert(all.take(i + 1).drop_last() =~= all.take(i as int));
            assert(all.take(i + 1).last() == streams@[i as int]@);
        }
        match parse_stream(streams[i]) {
            Err(e) => {
                proof {
                    lemma_gathered_error(all, i + 1);
                }
                return Err(e);
            },
            Ok(p) => {
                let rate: u32 = if acc.sample_rate == 0 {
                    p.sample_rate
                } else {
                    acc.sample_rate
                };
                if p.sample_rate != rate {
                    proof {
                        lemma_gathered_error(all, i + 1);
                    }
                    return Err(MimicError::SampleRateMismatch(rate, p.sample_rate));
                }
                acc.sample_rate = rate;
                acc.orig_samples =
                ((acc.orig_samples as u64 + p.orig_samples as u64) % 0x1_0000_0000) as u32;
                append_rows(&mut acc.frames, p.frames);
            },
        }
        i += 1;
    }
    assert(all.take(i as int) =~= all);
    Ok(emit_stream(&acc))
}

// ---- frames ----

/// One frame: silence, or 320 quantized coefficients. A value `q` stands for
/// the coefficient `q / 3 * scale / 32768`.
#[derive(Debug, PartialEq)]
pub enum Frame {
    Silence,
    Tonal { scale: u16, values: Vec<i8> },
}

/// The value of a frame.
#[verifier::ext_equal]
pub enum FrameView {
    Silence,
    Tonal { scale: u16, values: Seq<i8> },
}

impl View for Frame {
    type V = FrameView;

    open spec fn view(&self) -> FrameView {
        match self {
            Frame::Silence => FrameView::Silence,
            Frame::Tonal { scale, values } => FrameView::Tonal { scale: *scale, values: values@ },
        }
    }
}

/// A frame that the stream can hold: 320 values from -3 to 3.
pub open spec fn storable(f: FrameView) -> bool {
    match f {
        FrameView::Silence => true,
        FrameView::Tonal { scale, values } => values.len() == 320 && forall|k: int|
            0 <= k < 320 ==> -3 <= #[trigger] values[k] <= 3,
    }
}

/// Which values are significant.
pub open spec fn significance(values: Seq<i8>) -> Seq<bool> {
    Seq::new(values.len(), |k: int| values[k] != 0)
}

/// The three low bits of `v`, the least significant one first.
pub open spec fn three_bits(v: int) -> Seq<bool> {
    seq![v % 2 == 1, (v / 2) % 2 == 1, (v / 4) % 2 == 1]
}

/// The bits of the significant values, shifted up by 4.
pub open spec fn value_bits(values: Seq<i8>) -> Seq<bool>
    decreases values.len(),
{
    if values.len() == 0 {
        Seq::empty()
    } else if values.last() == 0 {
        value_bits(values.drop_last())
    } else {
        value_bits(values.drop_last()) + three_bits(values.last() + 4)
    }
}

/// The bytes of a frame.
pub open spec fn encoded_frame(f: FrameView) -> Seq<u8> {
    match f {
        FrameView::Silence => seq![0u8],
        FrameView::Tonal { scale, values } => seq![1u8] + le16(scale) + packed(
            significance(values),
        ) + packed(value_bits(values)),
    }
}

/// Three bits from bit `p` on, as a number.
pub open spec fn raw_at(s: Seq<u8>, p: int) -> int {
    (if bit_at(s, p) {
        1int
    } else {
        0
    }) + (if bit_at(s, p + 1) {
        2int
    } else {
        0
    }) + (if bit_at(s, p + 2) {
        4int
    } else {
        0
    })
}

/// Value `k` of a tonal frame with significance `map` and packed values `s`.
pub open spec fn value_at(map: Seq<u8>, s: Seq<u8>, k: int) -> i8 {
    if bit_at(map, k) {
        (raw_at(s, 3 * rank(map, k as nat) as int) - 4) as i8
    } else {
        0
    }
}

/// The frame behind the bytes of one.
pub open spec fn decoded_frame(f: Seq<u8>) -> FrameView {
    if f[0] == 0 {
        FrameView::Silence
    } else {
        FrameView::Tonal {
            scale: read16(f, 1),
            values: Seq::new(320, |k: int| value_at(f.subrange(3, 43), f.skip(43), k)),
        }
    }
}

/// Serializes one frame.
pub fn encode_frame(f: &Frame) -> (r: Vec<u8>)
    requires
        storable(f@),
    ensures
        r@ == encoded_frame(f@),
{
    match f {
        Frame::Silence => {
            let mut out: Vec<u8> = Vec::new();
            out.push(0);
            assert(out@ =~= seq![0u8]);
            out
        },
        Frame::Tonal { scale, values } => {
            let mut flags: Vec<bool> = Vec::new();
            let mut bits: Vec<bool> = Vec::new();
            let mut k: usize = 0;
            assert(bits@ =~= value_bits(values@.take(0)));
            while k < values.len()
                invariant
                    k <= values@.len(),
                    forall|i: int| 0 <= i < values@.len() ==> -3 <= #[trigger] values@[i] <= 3,
                    flags@.len() == k,
                    forall|i: int| 0 <= i < k ==> flags@[i] == (values@[i] != 0),
                    bits@ == value_bits(values@.take(k as int)),
                decreases values@.len() - k,
            {
                let v: i8 = values[k];
                let ghost before = bits@;
                flags.push(v != 0);
                if v != 0 {
                    let raw: u8 = (v + 4) as u8;
                    bits.push(raw % 2 == 1);
                    bits.push((raw / 2) % 2 == 1);
                    bits.push((raw / 4) % 2 == 1);
                    assert(bits@ =~= before + three_bits(v + 4));
                }
                assert(values@.take(k + 1).drop_last() =~= values@.take(k as int));
                assert(values@.take(k + 1).last() == v);
                k += 1;
            }
            assert(values@.take(k as int) =~= values@);
            assert(flags@ =~= significance(values@));
            let mut out: Vec<u8> = Vec::new();
            out.push(1);
            assert(out@ =~= seq![1u8]);
            push_le16(&mut out, *scale);
            extend_all(&mut out, &pack_bits(&flags));
            extend_all(&mut out, &pack_bits(&bits));
            out
        },
    }
}

fn three_at(s: &[u8], p: usize) -> (r: i8)
    requires
        p <= 1_000_000,
        (p + 2) / 8 < s@.len(),
    ensures
        r == raw_at(s@, p as int),
        0 <= r <= 7,
{
    let a: i8 = if get_bit(s, p) {
        1
    } else {
        0
    };
    let b: i8 = if get_bit(s, p + 1) {
        2
    } else {
        0
    };
    let c: i8 = if get_bit(s, p + 2) {
        4
    } else {
        0
    };
    a + b + c
}

/// Reads one frame from its bytes.
pub fn decode_frame(f: &[u8]) -> (r: Frame)
    requires
        frame_size(f@, 0) == Ok::<nat, ErrorView>(f@.len()),
    ensures
        r@ == decoded_frame(f@),
{
    if f[0] == 0 {
        return Frame::Silence;
    }
    let total: usize = f.len();
    let ghost map = f@.subrange(3, 43);
    let ghost vals = f@.skip(43);
    let bitmap: Vec<u8> = copy_range(f, 3, 43);
    let packed_values: Vec<u8> = copy_range(f, 43, total);
    assert(packed_values@ =~= vals);
    let scale: u16 = get16(f, 1);
    let mut values: Vec<i8> = Vec::new();
    let mut n: usize = 0;
    let mut k: usize = 0;
    while k < FRAME
        invariant
            bitmap@ == map,
            packed_values@ == vals,
            map.len() == 40,
            vals.len() == bytes_for_bits(3 * rank(map, 320)),
            k <= 320,
            n <= k,
            n == rank(map, k as nat),
            values@.len() == k,
            forall|i: int| 0 <= i < k ==> values@[i] == value_at(map, vals, i),
        decreases 320 - k,
    {
        if get_bit(&bitmap, k) {
            proof {
                lemma_rank_bound(map, (k + 1) as nat, 320);
                assert(rank(map, (k + 1) as nat) == n + 1);
            }
            values.push(three_at(&packed_values, 3 * n) - 4);
            n += 1;
        } else {
            values.push(0);
        }
        k += 1;
    }
    assert(values@ =~= Seq::new(320, |i: int| value_at(map, vals, i)));
    Frame::Tonal { scale, values }
}

// ---- the codec's stream format ----

/// A decoded token stream: what the synthesis transform works on.
#[derive(Debug, PartialEq)]
pub struct MctStream {
    pub sample_rate: u32,
    /// How many samples the synthesis yields.
    pub samples: usize,
    pub frames: Vec<Frame>,
}

/// The value of a decoded token stream.
#[verifier::ext_equal]
pub struct MctView {
    pub sample_rate: u32,
    pub samples: nat,
    pub frames: Seq<FrameView>,
}

/// The values of a sequence of frames.
pub open spec fn frame_views(v: Seq<Frame>) -> Seq<FrameView> {
    Seq::new(v.len(), |i: int| v[i]@)
}

impl View for MctStream {
    type V = MctView;

    open spec fn view(&self) -> MctView {
        MctView {
            sample_rate: self.sample_rate,
            samples: self.samples as nat,
            frames: frame_views(self.frames@),
        }
    }
}

/// The stream of `samples` samples whose analysis gave `frames`.
pub open spec fn mct_stream(samples: nat, sample_rate: u32, frames: Seq<FrameView>) -> StreamView {
    StreamView {
        sample_rate,
        orig_samples: (samples % 0x1_0000_0000) as u32,
        frames: Seq::new(frames.len(), |i: int| encoded_frame(frames[i])),
    }
}

/// The frames behind a token stream, or what is wrong with it.
pub open spec fn mct_decoded(tokens: Seq<u8>) -> core::result::Result<MctView, ErrorView> {
    match parsed_stream(tokens) {
        Err(e) => Err(e),
        Ok(v) => Ok(
            MctView {
                sample_rate: v.sample_rate,
                samples: decoded_len(v.orig_samples, v.frames.len()),
                frames: Seq::new(v.frames.len(), |i: int| decoded_frame(v.frames[i])),
            },
        ),
    }
}

/// The format `mimic-mct-v1`, between quantized frames and token streams.
#[derive(Debug, Default, Clone, Copy)]
pub struct MimicMct;

impl MimicMct {
    pub fn name(&self) -> (r: &str)
        ensures
            r@ == "mimic-mct-v1"@,
    {
        "mimic-mct-v1"
    }

    /// The token stream of `samples` samples whose analysis gave `frames`.
    pub fn encode(&self, samples: usize, sample_rate: u32, frames: &Vec<Frame>) -> (r: Vec<u8>)
        requires
            forall|i: int| 0 <= i < frames@.len() ==> storable(#[trigger] frames@[i]@),
        ensures
            r@ == emitted(mct_stream(samples as nat, sample_rate, frame_views(frames@))),
    {
        let orig_samples: u32 = ((samples as u64) % 0x1_0000_0000) as u32;
        let mut out: Vec<Vec<u8>> = Vec::new();
        let mut i: usize = 0;
        while i < frames.len()
            invariant
                i <= frames@.len(),
                forall|k: int| 0 <= k < frames@.len() ==> storable(#[trigger] frames@[k]@),
                out@.len() == i,
                forall|k: int| 0 <= k < i ==> (#[trigger] out@[k])@ == encoded_frame(frames@[k]@),
            decreases frames@.len() - i,
        {
            out.push(encode_frame(&frames[i]));
            i += 1;
        }
        let stream = ParsedStream { sample_rate, orig_samples, frames: out };
        assert(stream@ =~= mct_stream(samples as nat, sample_rate, frame_views(frames@)));
        emit_stream(&stream)
    }

    /// The frames behind a token stream.
    pub fn decode(&self, tokens: &[u8]) -> (r: Result<MctStream>)
        ensures
            outcome(r) == mct_decoded(tokens@),
    {
        match parse_stream(tokens) {
            Err(e) => Err(e),
            Ok(p) => {
                proof {
                    parsed_frames_are_whole(tokens@);
                }
                let mut frames: Vec<Frame> = Vec::new();
                let mut i: usize = 0;
                while i < p.frames.len()
                    invariant
                        i <= p.frames@.len(),
                        forall|k: int| 0 <= k < p.frames@.len() ==> whole(#[trigger] p@.frames[k]),
                        frames@.len() == i,
                        forall|k: int|
                            0 <= k < i ==> (#[trigger] frames@[k])@ == decoded_frame(
                                p.frames@[k]@,
                            ),
                    decreases p.frames@.len() - i,
                {
                    assert(whole(p@.frames[i as int]));
                    frames.push(decode_frame(&p.frames[i]));
                    i += 1;
                }
                let n: usize = p.frames.len();
                let most: u128 = n as u128 * 320 + 320;
                let samples: usize = if p.orig_samples as u128 <= most {
                    p.orig_samples as usize
                } else {
                    most as usize
                };
                let r = MctStream { sample_rate: p.sample_rate, samples, frames };
                assert(frame_views(frames@) =~= Seq::new(
                    p@.frames.len(),
                    |k: int| decoded_frame(p@.frames[k]),
                ));
                Ok(r)
            },
        }
    }
}

/// A byte sequence that is exactly one frame.
pub open spec fn whole(f: Seq<u8>) -> bool {
    frame_size(f, 0) == Ok::<nat, ErrorView>(f.len())
}

/// The size of a frame depends on its own bytes alone.
proof fn lemma_frame_in_context(s: Seq<u8>, pos: int, f: Seq<u8>)
    requires
        0 <= pos,
        pos + f.len() <= s.len(),
        s.subrange(pos, pos + f.len()) == f,
        whole(f),
    ensures
        frame_size(s, pos) == Ok::<nat, ErrorView>(f.len()),
{
    assert(f.len() > 0);
    assert(s[pos] == f[0]);
    if f[0] == 1 {
        assert(f.subrange(3, 43) =~= s.subrange(pos + 3, pos + 43));
    }
}

proof fn lemma_cut_frame_is_whole(s: Seq<u8>, pos: int, size: nat)
    requires
        0 <= pos,
        frame_size(s, pos) == Ok::<nat, ErrorView>(size),
    ensures
        pos + size <= s.len(),
        size > 0,
        whole(s.subrange(pos, pos + size)),
{
    let f = s.subrange(pos, pos + size);
    assert(f[0] == s[pos]);
    if f[0] == 1 {
        assert(f.subrange(3, 43) =~= s.subrange(pos + 3, pos + 43));
    }
}

proof fn lemma_frames_are_whole(s: Seq<u8>, pos: int, n: nat)
    requires
        0 <= pos,
    ensures
        frames_from(s, pos, n) matches Ok(frames) ==> frames.len() == n && forall|i: int|
            0 <= i < frames.len() ==> whole(#[trigger] frames[i]),
    decreases n,
{
    if n > 0 {
        if let Ok(size) = frame_size(s, pos) {
            lemma_cut_frame_is_whole(s, pos, size);
            lemma_frames_are_whole(s, pos + size, (n - 1) as nat);
        }
    }
}

/// Every frame that a stream parses into is exactly one frame, and there are
/// as many as the header declares.
pub proof fn parsed_frames_are_whole(tokens: Seq<u8>)
    ensures
        parsed_stream(tokens) matches Ok(v) ==> v.frames.len() == read32(tokens, 12) && forall|
            i: int,
        |
            0 <= i < v.frames.len() ==> whole(#[trigger] v.frames[i]),
{
    lemma_frames_are_whole(tokens, 16, read32(tokens, 12) as nat);
}

proof fn lemma_flat_append(a: Seq<Seq<u8>>, b: Seq<Seq<u8>>)
    ensures
        flat(a + b) == flat(a) + flat(b),
    decreases b.len(),
{
    if b.len() == 0 {
        assert(a + b =~= a);
        assert(flat(a) + flat(b) =~= flat(a));
    } else {
        lemma_flat_append(a, b.drop_last());
        assert((a + b).drop_last() =~= a + b.drop_last());
        assert(flat(a) + (flat(b.drop_last()) + b.last()) =~= (flat(a) + flat(b.drop_last()))
            + b.last());
    }
}

proof fn lemma_flat_first(frames: Seq<Seq<u8>>)
    requires
        frames.len() > 0,
    ensures
        flat(frames) == frames[0] + flat(frames.drop_first()),
{
    let first = seq![frames[0]];
    lemma_flat_append(first, frames.drop_first());
    assert(first + frames.drop_first() =~= frames);
    assert(first.drop_last() =~= Seq::<Seq<u8>>::empty());
    assert(flat(first) =~= frames[0]) by {
        reveal_with_fuel(flat, 2);
    }
}

/// Whole frames written one after the other are found again.
proof fn lemma_frames_found(head: Seq<u8>, frames: Seq<Seq<u8>>)
    requires
        forall|i: int| 0 <= i < frames.len() ==> whole(#[trigger] frames[i]),
    ensures
        frames_from(head + flat(frames), head.len() as int, frames.len()) == Ok::<
            Seq<Seq<u8>>,
            ErrorView,
        >(frames),
    decreases frames.len(),
{
    if frames.len() == 0 {
        assert(frames =~= Seq::<Seq<u8>>::empty());
    } else {
        let f = frames[0];
        let rest = frames.drop_first();
        let s = head + flat(frames);
        assert(whole(frames[0]));
        assert forall|i: int| 0 <= i < rest.len() implies whole(#[trigger] rest[i]) by {
            assert(rest[i] == frames[i + 1]);
        }
        lemma_flat_first(frames);
        lemma_frames_found(head + f, rest);
        assert(s =~= (head + f) + flat(rest));
        assert(s.subrange(head.len() as int, (head.len() + f.len()) as int) =~= f);
        lemma_frame_in_context(s, head.len() as int, f);
        assert(seq![f] + rest =~= frames);
    }
}

/// The fields of a header.
proof fn lemma_header(orig: u32, rate: u32, count: u32, body: Seq<u8>)
    ensures
        ({
            let s = stream_header(orig, rate, count) + body;
            &&& stream_header(orig, rate, count).len() == 16
            &&& is_stream(s)
            &&& read32(s, 4) == orig
            &&& read32(s, 8) == rate
            &&& read32(s, 12) == count
        }),
{
    let s = stream_header(orig, rate, count) + body;
    assert(s.subrange(0, 4) =~= magic());
    lemma_read32_le32(orig);
    lemma_read32_le32(rate);
    lemma_read32_le32(count);
    assert(s.subrange(4, 8) =~= le32(orig).subrange(0, 4));
    assert(s.subrange(8, 12) =~= le32(rate).subrange(0, 4));
    assert(s.subrange(12, 16) =~= le32(count).subrange(0, 4));
    lemma_read32_shift(s, le32(orig), 4, 0);
    lemma_read32_shift(s, le32(rate), 8, 0);
    lemma_read32_shift(s, le32(count), 12, 0);
}

/// A stream of whole frames parses back to what it was made of.
pub proof fn stream_round_trip(v: StreamView)
    requires
        v.frames.len() <= u32::MAX,
        forall|i: int| 0 <= i < v.frames.len() ==> whole(#[trigger] v.frames[i]),
    ensures
        parsed_stream(emitted(v)) == Ok::<StreamView, ErrorView>(v),
{
    reveal(emitted);
    let count = v.frames.len() as u32;
    let head = stream_header(v.orig_samples, v.sample_rate, count);
    lemma_header(v.orig_samples, v.sample_rate, count, flat(v.frames));
    lemma_frames_found(head, v.frames);
}

/// Cutting a stream keeps exactly the frames in the range, unchanged.
pub proof fn slicing_keeps_frames(tokens: Seq<u8>, f0: Frac, f1: Frac)
    requires
        parsed_stream(tokens) is Ok,
    ensures
        sliced_tokens(tokens, f0, f1) matches Ok(t) && parsed_stream(t) == Ok::<
            StreamView,
            ErrorView,
        >(sliced_stream(parsed_stream(tokens)->Ok_0, f0, f1)),
{
    let v = parsed_stream(tokens)->Ok_0;
    let cut = sliced_stream(v, f0, f1);
    parsed_frames_are_whole(tokens);
    lemma_frac_bound(f0, v.frames.len());
    lemma_frac_bound(f1, v.frames.len());
    let s = frac_of(f0, v.frames.len());
    assert forall|i: int| 0 <= i < cut.frames.len() implies whole(#[trigger] cut.frames[i]) by {
        assert(cut.frames[i] == v.frames[s + i]);
    }
    stream_round_trip(cut);
}

/// The frames of streams, one behind the other.
pub open spec fn all_frames(streams: Seq<Seq<u8>>) -> Seq<Seq<u8>>
    decreases streams.len(),
{
    if streams.len() == 0 {
        Seq::empty()
    } else {
        all_frames(streams.drop_last()) + parsed_stream(streams.last())->Ok_0.frames
    }
}

/// The samples that streams declare, together.
pub open spec fn all_samples(streams: Seq<Seq<u8>>) -> nat
    decreases streams.len(),
{
    if streams.len() == 0 {
        0
    } else {
        all_samples(streams.drop_last()) + parsed_stream(streams.last())->Ok_0.orig_samples as nat
    }
}

/// The bytes of the frames of a stream.
pub open spec fn frame_bytes(s: Seq<u8>) -> Seq<u8> {
    flat(parsed_stream(s)->Ok_0.frames)
}

/// Whether all streams can be read and have one rate.
pub open spec fn of_one_rate(streams: Seq<Seq<u8>>, rate: u32) -> bool {
    forall|k: int|
        0 <= k < streams.len() ==> (parsed_stream(#[trigger] streams[k]) matches Ok(v)
            && v.sample_rate == rate)
}

/// The frames of a stream are its bytes behind the header, as far as it declares
/// frames.
pub proof fn frames_are_the_bytes(s: Seq<u8>)
    requires
        parsed_stream(s) is Ok,
    ensures
        16 + frame_bytes(s).len() <= s.len(),
        frame_bytes(s) == s.subrange(16, (16 + frame_bytes(s).len()) as int),
{
    lemma_frames_are_bytes(s, 16, read32(s, 12) as nat);
}

proof fn lemma_frames_are_bytes(s: Seq<u8>, pos: int, count: nat)
    requires
        0 <= pos <= s.len(),
        frames_from(s, pos, count) is Ok,
    ensures
        ({
            let b = flat(frames_from(s, pos, count)->Ok_0);
            pos + b.len() <= s.len() && b == s.subrange(pos, pos + b.len())
        }),
    decreases count,
{
    let frames = frames_from(s, pos, count)->Ok_0;
    if count > 0 {
        let n = frame_size(s, pos)->Ok_0;
        let rest = frames_from(s, pos + n, (count - 1) as nat)->Ok_0;
        lemma_frames_are_bytes(s, pos + n, (count - 1) as nat);
        let first = s.subrange(pos, pos + n);
        lemma_flat_append(seq![first], rest);
        assert(flat(seq![first]) =~= first) by {
            reveal_with_fuel(flat, 2);
            assert(seq![first].drop_last() =~= Seq::<Seq<u8>>::empty());
        }
        assert(flat(frames) =~= s.subrange(pos, pos + flat(frames).len()));
    } else {
        assert(flat(frames) =~= s.subrange(pos, pos));
    }
}

proof fn lemma_gathered_streams(streams: Seq<Seq<u8>>, rate: u32)
    requires
        of_one_rate(streams, rate),
    ensures
        gathered(streams) == Ok::<StreamView, ErrorView>(
            StreamView {
                sample_rate: if streams.len() == 0 {
                    0
                } else {
                    rate
                },
                orig_samples: (all_samples(streams) % 0x1_0000_0000) as u32,
                frames: all_frames(streams),
            },
        ),
        forall|i: int|
            0 <= i < all_frames(streams).len() ==> whole(#[trigger] all_frames(streams)[i]),
        flat(all_frames(streams)) == flat(
            Seq::new(streams.len(), |k: int| frame_bytes(streams[k])),
        ),
    decreases streams.len(),
{
    let bytes = Seq::new(streams.len(), |k: int| frame_bytes(streams[k]));
    if streams.len() > 0 {
        let init = streams.drop_last();
        let last = streams.last();
        assert(streams[streams.len() - 1] == last);
        let v = parsed_stream(last)->Ok_0;
        assert(of_one_rate(init, rate)) by {
            assert forall|k: int| 0 <= k < init.len() implies (parsed_stream(
                #[trigger] init[k],
            ) matches Ok(v) && v.sample_rate == rate) by {
                assert(init[k] == streams[k]);
            }
        }
        lemma_gathered_streams(init, rate);
        parsed_frames_are_whole(last);
        assert forall|i: int| 0 <= i < all_frames(streams).len() implies whole(
            #[trigger] all_frames(streams)[i],
        ) by {
            let n = all_frames(init).len();
            if i < n {
                assert(all_frames(streams)[i] == all_frames(init)[i]);
            } else {
                assert(all_frames(streams)[i] == v.frames[i - n]);
            }
        }
        lemma_flat_append(all_frames(init), v.frames);
        assert(bytes.drop_last() =~= Seq::new(init.len(), |k: int| frame_bytes(init[k])));
        let a = all_samples(init) as int;
        let b = v.orig_samples as int;
        assert(((a % 0x1_0000_0000) + b) % 0x1_0000_0000 == (a + b) % 0x1_0000_0000);
    } else {
        assert(bytes =~= Seq::<Seq<u8>>::empty());
    }
}

proof fn lemma_emitted(v: StreamView)
    requires
        v.frames.len() <= u32::MAX,
    ensures
        is_stream(emitted(v)),
        read32(emitted(v), 4) == v.orig_samples,
        read32(emitted(v), 8) == v.sample_rate,
        read32(emitted(v), 12) == v.frames.len(),
        emitted(v).skip(16) == flat(v.frames),
{
    reveal(emitted);
    let count = v.frames.len() as u32;
    let head = stream_header(v.orig_samples, v.sample_rate, count);
    let body = flat(v.frames);
    assert(emitted(v) == head + body);
    lemma_header(v.orig_samples, v.sample_rate, count, body);
    lemma_behind(head, body);
}

proof fn lemma_behind(head: Seq<u8>, body: Seq<u8>)
    ensures
        (head + body).skip(head.len() as int) == body,
{
    assert((head + body).skip(head.len() as int) =~= body);
}

/// Joining streams of one rate keeps the rate, adds up the samples, and gives
/// the frames of all of them in order, unchanged: behind the header, the bytes
/// of the frames follow one another.
pub proof fn concatenation_keeps_frames(streams: Seq<Seq<u8>>, rate: u32)
    requires
        streams.len() > 0,
        of_one_rate(streams, rate),
        all_frames(streams).len() <= u32::MAX,
    ensures
        concatenated(streams) matches Ok(t) && ({
            &&& parsed_stream(t) == Ok::<StreamView, ErrorView>(
                StreamView {
                    sample_rate: rate,
                    orig_samples: (all_samples(streams) % 0x1_0000_0000) as u32,
                    frames: all_frames(streams),
                },
            )
            &&& read32(t, 12) == all_frames(streams).len()
            &&& t.skip(16) == flat(Seq::new(streams.len(), |k: int| frame_bytes(streams[k])))
        }),
{
    lemma_gathered_streams(streams, rate);
    let v = gathered(streams)->Ok_0;
    stream_round_trip(v);
    lemma_emitted(v);
}

/// How many values are significant.
pub open spec fn nonzero(values: Seq<i8>) -> nat
    decreases values.len(),
{
    if values.len() == 0 {
        0
    } else {
        nonzero(values.drop_last()) + (if values.last() == 0 {
            0nat
        } else {
            1nat
        })
    }
}

proof fn lemma_value_bits_len(values: Seq<i8>)
    ensures
        value_bits(values).len() == 3 * nonzero(values),
    decreases values.len(),
{
    if values.len() > 0 {
        lemma_value_bits_len(values.drop_last());
    }
}

/// The three bits of value `k` stand behind those of the values before it.
proof fn lemma_value_bits_at(values: Seq<i8>, k: int)
    requires
        0 <= k < values.len(),
        values[k] != 0,
    ensures
        ({
            let p = 3 * nonzero(values.take(k)) as int;
            let b = value_bits(values);
            let t = three_bits(values[k] + 4);
            p + 3 <= b.len() && b[p] == t[0] && b[p + 1] == t[1] && b[p + 2] == t[2]
        }),
    decreases values.len(),
{
    let init = values.drop_last();
    lemma_value_bits_len(init);
    if k == values.len() - 1 {
        assert(values.take(k) =~= init);
    } else {
        assert(init.take(k) =~= values.take(k));
        lemma_value_bits_at(init, k);
    }
}

proof fn lemma_rank_of_significance(values: Seq<i8>, k: nat)
    requires
        k <= values.len(),
    ensures
        rank(packed(significance(values)), k) == nonzero(values.take(k as int)),
    decreases k,
{
    if k > 0 {
        lemma_rank_of_significance(values, (k - 1) as nat);
        packed_bits_read_back(significance(values), k - 1);
        assert(values.take(k as int).drop_last() =~= values.take(k - 1));
    }
}

/// Three packed bits are the number they stand for.
proof fn lemma_raw_of_bits(bits: Seq<bool>, p: int, v: int)
    requires
        0 <= p,
        p + 3 <= bits.len(),
        0 <= v < 8,
        bits[p] == three_bits(v)[0],
        bits[p + 1] == three_bits(v)[1],
        bits[p + 2] == three_bits(v)[2],
    ensures
        raw_at(packed(bits), p) == v,
{
    packed_bits_read_back(bits, p);
    packed_bits_read_back(bits, p + 1);
    packed_bits_read_back(bits, p + 2);
    assert(v == v % 2 + 2 * ((v / 2) % 2) + 4 * ((v / 4) % 2));
}

proof fn lemma_value_reads_back(values: Seq<i8>, k: int)
    requires
        0 <= k < values.len(),
        -3 <= values[k] <= 3,
    ensures
        value_at(packed(significance(values)), packed(value_bits(values)), k) == values[k],
{
    packed_bits_read_back(significance(values), k);
    if values[k] != 0 {
        lemma_rank_of_significance(values, k as nat);
        lemma_value_bits_at(values, k);
        lemma_raw_of_bits(
            value_bits(values),
            3 * nonzero(values.take(k)) as int,
            values[k] + 4,
        );
    }
}

/// The parts of a tonal frame's bytes.
proof fn lemma_tonal_parts(scale: u16, map: Seq<u8>, vals: Seq<u8>)
    requires
        map.len() == 40,
    ensures
        ({
            let b = seq![1u8] + le16(scale) + map + vals;
            &&& b.len() == 43 + vals.len()
            &&& b[0] == 1
            &&& read16(b, 1) == scale
            &&& b.subrange(3, 43) == map
            &&& b.skip(43) == vals
        }),
{
    let b = seq![1u8] + le16(scale) + map + vals;
    assert(b.subrange(3, 43) =~= map);
    assert(b.skip(43) =~= vals);
    assert(b[1] == le16(scale)[0] && b[2] == le16(scale)[1]);
    lemma_read16_le16(scale);
}

/// A stored frame is exactly one frame and reads back unchanged.
pub proof fn frame_round_trip(f: FrameView)
    requires
        storable(f),
    ensures
        whole(encoded_frame(f)),
        decoded_frame(encoded_frame(f)) == f,
{
    if let FrameView::Tonal { scale, values } = f {
        let map = packed(significance(values));
        let vals = packed(value_bits(values));
        lemma_tonal_parts(scale, map, vals);
        lemma_rank_of_significance(values, 320);
        assert(values.take(320) =~= values);
        lemma_value_bits_len(values);
        assert forall|k: int| 0 <= k < 320 implies value_at(map, vals, k) == values[k] by {
            lemma_value_reads_back(values, k);
        }
        assert(Seq::new(320, |k: int| value_at(map, vals, k)) =~= values);
    }
}

/// Quantized frames survive storage: an encoded stream declares as many frames
/// as were encoded, and decodes to them at its rate. Where the frames are those
/// of the samples, it decodes to as many samples.
#[verifier::rlimit(60)]
#[verifier::spinoff_prover]
pub proof fn tokens_round_trip(samples: nat, sample_rate: u32, frames: Seq<FrameView>)
    requires
        frames.len() <= u32::MAX,
        forall|i: int| 0 <= i < frames.len() ==> storable(#[trigger] frames[i]),
    ensures
        ({
            let tokens = emitted(mct_stream(samples, sample_rate, frames));
            &&& is_stream(tokens)
            &&& read32(tokens, 12) == frames.len()
            &&& mct_decoded(tokens) matches Ok(v) && {
                &&& v.frames == frames
                &&& v.sample_rate == sample_rate
                &&& samples <= u32::MAX && frames.len() == frames_of(samples) ==> v.samples
                    == samples
            }
        }),
{
    let v = mct_stream(samples, sample_rate, frames);
    assert forall|i: int| 0 <= i < v.frames.len() implies whole(#[trigger] v.frames[i]) by {
        assert(storable(frames[i]));
        frame_round_trip(frames[i]);
    }
    stream_round_trip(v);
    lemma_emitted(v);
    let d = mct_decoded(emitted(v))->Ok_0;
    assert forall|i: int| 0 <= i < frames.len() implies d.frames[i] == frames[i] by {
        assert(storable(frames[i]));
        frame_round_trip(frames[i]);
    }
    assert(d.frames =~= frames);
}

/// Streams of samples that were encoded one by one decode, joined, to as many
/// samples as all of them together.
pub proof fn joined_streams_decode_to_all_samples(
    streams: Seq<Seq<u8>>,
    counts: Seq<nat>,
    rate: u32,
)
    requires
        streams.len() > 0,
        counts.len() == streams.len(),
        of_one_rate(streams, rate),
        forall|k: int|
            0 <= k < streams.len() ==> ({
                let v = parsed_stream(#[trigger] streams[k])->Ok_0;
                v.orig_samples == counts[k] && v.frames.len() == frames_of(counts[k])
            }),
        all_frames(streams).len() <= u32::MAX,
        all_samples(streams) <= u32::MAX,
    ensures
        concatenated(streams) matches Ok(t) && mct_decoded(t) matches Ok(v) && v.samples
            == all_samples(streams) && v.sample_rate == rate,
{
    let v = StreamView {
        sample_rate: rate,
        orig_samples: (all_samples(streams) % 0x1_0000_0000) as u32,
        frames: all_frames(streams),
    };
    assert(concatenated(streams) matches Ok(t) && parsed_stream(t) == Ok::<StreamView, ErrorView>(
        v,
    )) by {
        concatenation_keeps_frames(streams, rate);
    }
    lemma_samples_lapped(streams, counts);
    assert(decoded_len(v.orig_samples, v.frames.len()) == all_samples(streams));
}

proof fn lemma_samples_lapped(streams: Seq<Seq<u8>>, counts: Seq<nat>)
    requires
        counts.len() == streams.len(),
        forall|k: int|
            0 <= k < streams.len() ==> ({
                let v = parsed_stream(#[trigger] streams[k])->Ok_0;
                v.orig_samples == counts[k] && v.frames.len() == frames_of(counts[k])
            }),
    ensures
        all_samples(streams) <= all_frames(streams).len() * 320,
    decreases streams.len(),
{
    if streams.len() > 0 {
        let init = streams.drop_last();
        assert forall|k: int| 0 <= k < init.len() implies ({
            let v = parsed_stream(#[trigger] init[k])->Ok_0;
            v.orig_samples == counts.drop_last()[k] && v.frames.len() == frames_of(
                counts.drop_last()[k],
            )
        }) by {
            assert(init[k] == streams[k]);
        }
        lemma_samples_lapped(init, counts.drop_last());
        let last = streams[streams.len() - 1];
        assert(parsed_stream(last)->Ok_0.orig_samples == counts[streams.len() - 1]);
    }
}

/// Whether `n` frames lie one behind the other from `pos` on: a silent frame is
/// one byte, a tonal frame is 43 bytes and three bits for each value that its
/// map marks.
pub open spec fn frames_fit(s: Seq<u8>, pos: int, n: nat) -> bool
    decreases n,
{
    n == 0 || {
        &&& pos < s.len()
        &&& if s[pos] == 0 {
            frames_fit(s, pos + 1, (n - 1) as nat)
        } else if s[pos] == 1 {
            let size = 43 + bytes_for_bits(3 * rank(s.subrange(pos + 3, pos + 43), 320));
            &&& pos + 43 <= s.len()
            &&& pos + size <= s.len()
            &&& frames_fit(s, pos + size, (n - 1) as nat)
        } else {
            false
        }
    }
}

proof fn lemma_frames_fit(s: Seq<u8>, pos: int, n: nat)
    ensures
        frames_from(s, pos, n) is Ok <==> frames_fit(s, pos, n),
        frames_from(s, pos, n) matches Err(e) ==> e is Wav,
    decreases n,
{
    if n > 0 {
        if let Ok(size) = frame_size(s, pos) {
            lemma_frames_fit(s, pos + size, (n - 1) as nat);
        }
    }
}

/// Decoding fails exactly where parsing does, with the same problem, which is
/// always one of malformed audio. Both succeed exactly on a header with as many
/// frames behind it as it declares.
pub proof fn decoding_fails_where_parsing_does(tokens: Seq<u8>)
    ensures
        parsed_stream(tokens) is Ok <==> is_stream(tokens) && frames_fit(
            tokens,
            16,
            read32(tokens, 12) as nat,
        ),
        mct_decoded(tokens) is Ok <==> parsed_stream(tokens) is Ok,
        parsed_stream(tokens) matches Err(e) ==> e is Wav && mct_decoded(tokens) == Err::<
            MctView,
            ErrorView,
        >(e),
{
    lemma_frames_fit(tokens, 16, read32(tokens, 12) as nat);
}

/// Two neighbouring cuts of a stream together hold all its frames: the bytes of
/// the first are followed by those of the second. Each keeps the rate, declares
/// its own frames, and 320 samples for each of them.
#[verifier::rlimit(60)]
#[verifier::spinoff_prover]
pub proof fn neighbouring_cuts_hold_all_frames(tokens: Seq<u8>, x: Frac)
    requires
        parsed_stream(tokens) is Ok,
    ensures
        ({
            let none = Frac { num: 0, den: 1 };
            let all = Frac { num: 1, den: 1 };
            let v = parsed_stream(tokens)->Ok_0;
            let k = frac_of(x, v.frames.len());
            &&& sliced_tokens(tokens, none, x) matches Ok(a) && sliced_tokens(
                tokens,
                x,
                all,
            ) matches Ok(b) && {
                &&& a.skip(16) + b.skip(16) == frame_bytes(tokens)
                &&& read32(a, 12) == k
                &&& read32(b, 12) == v.frames.len() - k
                &&& read32(a, 8) == v.sample_rate && read32(b, 8) == v.sample_rate
                &&& read32(a, 4) == k * 320 % 0x1_0000_0000
                &&& read32(b, 4) == (v.frames.len() - k) * 320 % 0x1_0000_0000
            }
        }),
{
    let none = Frac { num: 0, den: 1 };
    let all = Frac { num: 1, den: 1 };
    let v = parsed_stream(tokens)->Ok_0;
    let n = v.frames.len();
    let k = frac_of(x, n);
    assert(n <= u32::MAX) by {
        parsed_frames_are_whole(tokens);
    }
    lemma_frac_bound(x, n);
    none_of_a_length(n);
    all_of_a_length(n);
    let a = sliced_stream(v, none, x);
    let b = sliced_stream(v, x, all);
    assert(a.frames + b.frames =~= v.frames);
    lemma_parts_emitted(a, b);
}

proof fn lemma_parts_emitted(a: StreamView, b: StreamView)
    requires
        a.frames.len() <= u32::MAX,
        b.frames.len() <= u32::MAX,
    ensures
        emitted(a).skip(16) + emitted(b).skip(16) == flat(a.frames + b.frames),
        read32(emitted(a), 4) == a.orig_samples,
        read32(emitted(a), 8) == a.sample_rate,
        read32(emitted(a), 12) == a.frames.len(),
        read32(emitted(b), 4) == b.orig_samples,
        read32(emitted(b), 8) == b.sample_rate,
        read32(emitted(b), 12) == b.frames.len(),
{
    lemma_emitted(a);
    lemma_emitted(b);
    lemma_flat_append(a.frames, b.frames);
}

} // verus!
