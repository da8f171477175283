//! Mono PCM audio: measures, the WAV file format, and splicing.

use crate::bytes::{
    get16, get32, le16, le32, lemma_read16_le16, lemma_read32_le32, lemma_read32_shift, pcm_bytes,
    pcm_range, pcm_round_trip, pcm_samples, push_le16, push_le32, push_pcm, read16, read32,
};
use crate::double::{
    apart, double, infinite, lemma_same_quotient, over, plus, small_is_whole, times, unit,
    units_do_not_vanish, whole, whole_is_positive, whole_part, Double,
};
use crate::error::{outcome, ErrorView, MimicError, Result};
use crate::fade::{
    fade_at, join, join_overlaps_by_the_fade, join_stays_between, joined, FadeCurve, Gains,
};
use crate::frac::{frac_of, Frac};
use crate::measure::{crossing_rate, crossing_rate_of, level, level_of};
use crate::text::{dec, decimal};
use crate::SAMPLE_RATE;
use vstd::prelude::*;
use vstd::string::*;

verus! {

/// Mono 16-bit PCM audio.
#[derive(Debug, PartialEq)]
pub struct WavAudio {
    pub samples: Vec<i16>,
    pub sample_rate: u32,
}

/// The value of a [`WavAudio`].
#[verifier::ext_equal]
pub struct WavView {
    pub samples: Seq<i16>,
    pub sample_rate: u32,
}

impl View for WavAudio {
    type V = WavView;

    open spec fn view(&self) -> WavView {
        WavView { samples: self.samples@, sample_rate: self.sample_rate }
    }
}

/// The values of several pieces of audio.
pub open spec fn wavs(parts: Seq<WavAudio>) -> Seq<WavView> {
    parts.map_values(|p: WavAudio| p@)
}

impl Clone for WavAudio {
    fn clone(&self) -> (r: WavAudio)
        ensures
            r@ == self@,
    {
        WavAudio { samples: copy_samples(&self.samples, 0, self.samples.len()), sample_rate: self.sample_rate }
    }
}

/// The samples `start..end` of `src`.
pub fn copy_samples(src: &[i16], start: usize, end: usize) -> (r: Vec<i16>)
    requires
        start <= end <= src@.len(),
    ensures
        r@ == src@.subrange(start as int, end as int),
        start == 0 && end == src@.len() ==> r@ == src@,
{
    let mut out: Vec<i16> = Vec::new();
    let mut i: usize = start;
    while i < end
        invariant
            start <= i <= end <= src@.len(),
            out@ == src@.subrange(start as int, i as int),
        decreases end - i,
    {
        out.push(src[i]);
        i += 1;
        assert(out@ =~= src@.subrange(start as int, i as int));
    }
    proof {
        if start == 0 && end == src@.len() {
            assert(out@ =~= src@);
        }
    }
    out
}

/// The absolute amplitude of a sample.
pub open spec fn amplitude(x: i16) -> int {
    if x < 0 {
        -x
    } else {
        x as int
    }
}

/// The largest absolute amplitude; 0 for no samples.
pub open spec fn peak_of(s: Seq<i16>) -> int
    decreases s.len(),
{
    if s.len() == 0 {
        0
    } else {
        let p = peak_of(s.drop_last());
        if amplitude(s.last()) > p {
            amplitude(s.last())
        } else {
            p
        }
    }
}

/// How long so many samples last, in milliseconds. What has no rate does not
/// end, and none of it lasts no time.
pub open spec fn duration(n: nat, sample_rate: u32) -> nat {
    if sample_rate == 0 {
        if n == 0 {
            0
        } else {
            infinite()
        }
    } else {
        over(times(whole(n), whole(1000)), whole(sample_rate as nat))
    }
}

/// How long so many samples last, in whole milliseconds.
pub open spec fn duration_of(n: nat, sample_rate: u32) -> nat {
    let ms = whole_part(duration(n, sample_rate));
    if ms < i64::MAX {
        ms
    } else {
        i64::MAX as nat
    }
}

/// The part of `a` between two fractions of its length. An end before the
/// start gives nothing.
pub open spec fn sliced(a: WavView, start: Frac, end: Frac) -> WavView {
    let n = a.samples.len();
    let s = frac_of(start, n) as int;
    let e = frac_of(end, n) as int;
    WavView {
        samples: a.samples.subrange(
            s,
            if e < s {
                s
            } else {
                e
            },
        ),
        sample_rate: a.sample_rate,
    }
}

impl WavAudio {
    pub fn new(samples: Vec<i16>, sample_rate: u32) -> (r: WavAudio)
        ensures
            r.samples == samples,
            r.sample_rate == sample_rate,
    {
        WavAudio { samples, sample_rate }
    }

    pub fn len(&self) -> (r: usize)
        ensures
            r == self@.samples.len(),
    {
        self.samples.len()
    }

    pub fn is_empty(&self) -> (r: bool)
        ensures
            r == (self@.samples.len() == 0),
    {
        self.samples.len() == 0
    }

    /// Duration in milliseconds.
    pub fn duration_ms(&self) -> (r: Double)
        ensures
            r@ == duration(self@.samples.len(), self@.sample_rate),
    {
        let n: u64 = self.samples.len() as u64;
        if self.sample_rate == 0 {
            return if n == 0 {
                Double::zero()
            } else {
                Double::infinity()
            };
        }
        proof {
            whole_is_positive(self.sample_rate as nat);
        }
        Double::of(n).times(Double::of(1000)).over(Double::of(self.sample_rate as u64))
    }

    /// Duration in whole milliseconds.
    pub fn whole_ms(&self) -> (r: i64)
        ensures
            r == duration_of(self@.samples.len(), self@.sample_rate),
    {
        let ms: u64 = self.duration_ms().to_whole();
        if ms < 0x7fff_ffff_ffff_ffff {
            ms as i64
        } else {
            i64::MAX
        }
    }

    /// Largest absolute amplitude, as `i32` so that the lowest sample fits.
    pub fn peak(&self) -> (r: i32)
        ensures
            r == peak_of(self@.samples),
            0 <= r <= 32768,
    {
        let mut best: i32 = 0;
        let mut i: usize = 0;
        while i < self.samples.len()
            invariant
                i <= self.samples@.len(),
                best == peak_of(self.samples@.take(i as int)),
                0 <= best <= 32768,
            decreases self.samples@.len() - i,
        {
            let x: i32 = self.samples[i] as i32;
            let a: i32 = if x < 0 {
                -x
            } else {
                x
            };
            assert(self.samples@.take(i + 1).drop_last() =~= self.samples@.take(i as int));
            if a > best {
                best = a;
            }
            i += 1;
        }
        assert(self.samples@.take(i as int) =~= self.samples@);
        best
    }

    /// Root-mean-square level as a share of full scale.
    pub fn rms(&self) -> (r: Double)
        ensures
            r@ == level(self@.samples),
    {
        assert(self.samples@.subrange(0, self.samples@.len() as int) =~= self.samples@);
        level_of(&self.samples, 0, self.samples.len())
    }

    /// Share of neighbouring samples that cross zero: a crude voicing and pitch
    /// indicator.
    pub fn zero_crossing_rate(&self) -> (r: Double)
        ensures
            r@ == crossing_rate(self@.samples),
    {
        assert(self.samples@.subrange(0, self.samples@.len() as int) =~= self.samples@);
        crossing_rate_of(&self.samples, 0, self.samples.len())
    }

    /// The part between two fractions of the length.
    pub fn slice_frac(&self, start: Frac, end: Frac) -> (r: WavAudio)
        ensures
            r@ == sliced(self@, start, end),
    {
        let n: usize = self.samples.len();
        let s: usize = start.of(n);
        let e: usize = end.of(n);
        let to: usize = if e < s {
            s
        } else {
            e
        };
        WavAudio::new(copy_samples(&self.samples, s, to), self.sample_rate)
    }

    /// Whether two pieces of audio hold the same samples at the same rate.
    pub fn same(&self, other: &WavAudio) -> (r: bool)
        ensures
            r == (self@ == other@),
    {
        if self.sample_rate != other.sample_rate || self.samples.len() != other.samples.len() {
            return false;
        }
        let mut i: usize = 0;
        while i < self.samples.len()
            invariant
                self.samples@.len() == other.samples@.len(),
                i <= self.samples@.len(),
                forall|k: int| 0 <= k < i ==> self.samples@[k] == other.samples@[k],
            decreases self.samples@.len() - i,
        {
            if self.samples[i] != other.samples[i] {
                return false;
            }
            i += 1;
        }
        assert(self@ =~= other@);
        true
    }
}

/// No sample exceeds the peak, and some sample reaches it.
pub proof fn peak_is_the_largest_amplitude(s: Seq<i16>)
    ensures
        forall|i: int| 0 <= i < s.len() ==> amplitude(#[trigger] s[i]) <= peak_of(s),
        s.len() > 0 ==> exists|i: int| 0 <= i < s.len() && amplitude(#[trigger] s[i]) == peak_of(s),
    decreases s.len(),
{
    if s.len() > 0 {
        let d = s.drop_last();
        peak_is_the_largest_amplitude(d);
        assert forall|i: int| 0 <= i < s.len() implies amplitude(#[trigger] s[i]) <= peak_of(s) by {
            if i < d.len() {
                assert(amplitude(d[i]) <= peak_of(d));
            }
        }
        if amplitude(s.last()) > peak_of(d) {
            assert(amplitude(s[s.len() - 1]) == peak_of(s));
        } else if d.len() == 0 {
            assert(amplitude(s[0]) == peak_of(s));
        } else {
            let i = choose|i: int| 0 <= i < d.len() && amplitude(#[trigger] d[i]) == peak_of(d);
            assert(amplitude(s[i]) == peak_of(s));
        }
    }
}

// ---- the WAV file format ----

pub open spec fn tag_riff() -> Seq<u8> {
    seq![0x52u8, 0x49, 0x46, 0x46]
}

pub open spec fn tag_wave() -> Seq<u8> {
    seq![0x57u8, 0x41, 0x56, 0x45]
}

pub open spec fn tag_fmt() -> Seq<u8> {
    seq![0x66u8, 0x6d, 0x74, 0x20]
}

pub open spec fn tag_data() -> Seq<u8> {
    seq![0x64u8, 0x61, 0x74, 0x61]
}

/// Whether the four bytes at `at` are the tag `t`.
pub open spec fn tagged(s: Seq<u8>, at: int, t: Seq<u8>) -> bool {
    s.subrange(at, at + 4) == t
}

/// The size of the sample data in bytes, as its 32-bit header field holds it.
pub open spec fn data_size(samples: nat) -> u32 {
    (2 * samples % 0x1_0000_0000) as u32
}

/// The 44-byte header of a PCM file.
pub open spec fn wav_header(samples: nat, sample_rate: u32) -> Seq<u8> {
    tag_riff() + le32(((36 + data_size(samples)) % 0x1_0000_0000) as u32) + tag_wave() + tag_fmt()
        + le32(16) + le16(1) + le16(1) + le32(sample_rate) + le32(
        ((2 * sample_rate) % 0x1_0000_0000) as u32,
    ) + le16(2) + le16(16) + tag_data() + le32(data_size(samples))
}

/// A PCM file: header, then samples.
pub open spec fn wav_bytes(a: WavView) -> Seq<u8> {
    wav_header(a.samples.len(), a.sample_rate) + pcm_bytes(a.samples)
}

/// What a `fmt ` chunk declares.
#[derive(Clone, Copy)]
pub struct Fmt {
    pub format: u16,
    pub channels: u16,
    pub rate: u32,
    pub bits: u16,
}

/// What a walk over the chunks of a file has found.
pub struct Chunks {
    pub fmt: Option<Fmt>,
    pub data: Option<Seq<i16>>,
}

/// The declaration held by a `fmt ` chunk body at `at`.
pub open spec fn fmt_at(s: Seq<u8>, at: int) -> Fmt {
    Fmt {
        format: read16(s, at),
        channels: read16(s, at + 2),
        rate: read32(s, at + 4),
        bits: read16(s, at + 14),
    }
}

/// Walks the chunks from `pos` on. A later chunk of a kind replaces an earlier
/// one, unknown chunks are skipped, and chunks are padded to an even size.
pub open spec fn walk_chunks(s: Seq<u8>, pos: int, found: Chunks) -> core::result::Result<
    Chunks,
    ErrorView,
>
    decreases s.len() + 1 - pos,
{
    if pos < 0 || pos + 8 > s.len() {
        Ok(found)
    } else {
        let size = read32(s, pos + 4) as int;
        let body = pos + 8;
        let next = body + size + size % 2;
        if body + size > s.len() {
            Err(ErrorView::Wav("truncated chunk"@))
        } else if tagged(s, pos, tag_fmt()) {
            if size < 16 {
                Err(ErrorView::Wav("fmt chunk too small"@))
            } else {
                walk_chunks(s, next, Chunks { fmt: Some(fmt_at(s, body)), data: found.data })
            }
        } else if tagged(s, pos, tag_data()) {
            walk_chunks(
                s,
                next,
                Chunks {
                    fmt: found.fmt,
                    data: Some(pcm_samples(s.subrange(body, body + size))),
                },
            )
        } else {
            walk_chunks(s, next, found)
        }
    }
}

/// Half the sum of two samples, rounded toward zero.
pub open spec fn half_sum(l: i16, r: i16) -> i16 {
    (if l + r >= 0 {
        (l + r) / 2
    } else {
        -((-(l + r)) / 2)
    }) as i16
}

/// Interleaved stereo mixed down to mono. A trailing odd sample is dropped.
pub open spec fn mono(s: Seq<i16>) -> Seq<i16> {
    Seq::new(s.len() / 2, |i: int| half_sum(s[2 * i], s[2 * i + 1]))
}

/// The audio that the chunks of a file describe.
pub open spec fn chunks_audio(c: Chunks) -> core::result::Result<WavView, ErrorView> {
    match c.fmt {
        None => Err(
            ErrorView::Wav("missing fmt chunk; provide a valid WAV file and try again"@),
        ),
        Some(f) => if f.format != 1 {
            Err(ErrorView::Wav("only PCM (format 1) supported; convert the source to PCM"@))
        } else if f.bits != 16 {
            Err(ErrorView::Wav("only 16-bit samples supported; convert the source to 16-bit"@))
        } else {
            match c.data {
                None => Err(
                    ErrorView::Wav("missing data chunk; provide a valid WAV file and try again"@),
                ),
                Some(d) => if f.channels == 1 {
                    Ok(WavView { samples: d, sample_rate: f.rate })
                } else if f.channels == 2 {
                    Ok(WavView { samples: mono(d), sample_rate: f.rate })
                } else {
                    Err(
                        ErrorView::Wav("unsupported channel count: "@ + dec(f.channels as nat)),
                    )
                },
            }
        },
    }
}

/// The audio in a RIFF/WAVE file, or why there is none.
pub open spec fn parsed_wav(s: Seq<u8>) -> core::result::Result<WavView, ErrorView> {
    if s.len() < 12 || !tagged(s, 0, tag_riff()) || !tagged(s, 8, tag_wave()) {
        Err(ErrorView::Wav("not a RIFF/WAVE file"@))
    } else {
        match walk_chunks(s, 12, Chunks { fmt: None, data: None }) {
            Err(e) => Err(e),
            Ok(c) => chunks_audio(c),
        }
    }
}

/// Whether the four bytes at `at` are `a b c d`.
fn has_tag(s: &[u8], at: usize, a: u8, b: u8, c: u8, d: u8) -> (r: bool)
    requires
        at + 4 <= s@.len(),
    ensures
        r == tagged(s@, at as int, seq![a, b, c, d]),
{
    let r = s[at] == a && s[at + 1] == b && s[at + 2] == c && s[at + 3] == d;
    proof {
        let w = s@.subrange(at as int, at + 4);
        let t = seq![a, b, c, d];
        assert(w[0] == s@[at as int] && w[1] == s@[at + 1] && w[2] == s@[at + 2] && w[3] == s@[at
            + 3]);
        if r {
            assert(w =~= t);
        } else if w == t {
            assert(t[0] == a && t[1] == b && t[2] == c && t[3] == d);
        }
    }
    r
}

/// Appends four bytes.
fn push_tag(out: &mut Vec<u8>, a: u8, b: u8, c: u8, d: u8)
    ensures
        final(out)@ == old(out)@ + seq![a, b, c, d],
{
    out.push(a);
    out.push(b);
    out.push(c);
    out.push(d);
    assert(out@ =~= old(out)@ + seq![a, b, c, d]);
}

/// Serializes as a standard 44-byte-header RIFF/WAVE PCM file.
pub fn to_wav_bytes(audio: &WavAudio) -> (r: Vec<u8>)
    ensures
        r@ == wav_bytes(audio@),
{
    let n: u64 = audio.samples.len() as u64;
    let data_len: u32 = ((2 * (n % 0x8000_0000)) % 0x1_0000_0000) as u32;
    assert(data_len == data_size(n as nat));
    let mut buf: Vec<u8> = Vec::new();
    push_tag(&mut buf, 0x52, 0x49, 0x46, 0x46);
    assert(buf@ =~= tag_riff());
    push_le32(&mut buf, ((36 + data_len as u64) % 0x1_0000_0000) as u32);
    push_tag(&mut buf, 0x57, 0x41, 0x56, 0x45);
    push_tag(&mut buf, 0x66, 0x6d, 0x74, 0x20);
    push_le32(&mut buf, 16);
    push_le16(&mut buf, 1);
    push_le16(&mut buf, 1);
    push_le32(&mut buf, audio.sample_rate);
    push_le32(&mut buf, ((2 * audio.sample_rate as u64) % 0x1_0000_0000) as u32);
    push_le16(&mut buf, 2);
    push_le16(&mut buf, 16);
    push_tag(&mut buf, 0x64, 0x61, 0x74, 0x61);
    push_le32(&mut buf, data_len);
    push_pcm(&mut buf, &audio.samples);
    buf
}

/// Mixes interleaved stereo down to mono.
fn mix_down(raw: &Vec<i16>) -> (r: Vec<i16>)
    ensures
        r@ == mono(raw@),
{
    let total: usize = raw.len();
    let n: usize = total / 2;
    let mut out: Vec<i16> = Vec::new();
    let mut i: usize = 0;
    while i < n
        invariant
            total == raw@.len(),
            n == total / 2,
            i <= n,
            out@.len() == i,
            forall|k: int| 0 <= k < i ==> out@[k] == mono(raw@)[k],
        decreases n - i,
    {
        let sum: i32 = raw[2 * i] as i32 + raw[2 * i + 1] as i32;
        let half: i32 = if sum >= 0 {
            sum / 2
        } else {
            -((-sum) / 2)
        };
        out.push(half as i16);
        i += 1;
    }
    assert(out@ =~= mono(raw@));
    out
}

/// Parses a RIFF/WAVE PCM file. The chunk walk is defensive: a `fmt ` chunk
/// may be longer than needed, unknown chunks are skipped, and chunks are
/// padded to even sizes.
pub fn parse_wav(data: &[u8]) -> (r: Result<WavAudio>)
    ensures
        outcome(r) == parsed_wav(data@),
{
    if data.len() < 12 || !has_tag(data, 0, 0x52, 0x49, 0x46, 0x46) || !has_tag(
        data,
        8,
        0x57,
        0x41,
        0x56,
        0x45,
    ) {
        return Err(MimicError::Wav("not a RIFF/WAVE file".to_owned()));
    }
    let ghost start = Chunks { fmt: None, data: None };
    let mut fmt: Option<Fmt> = None;
    let mut raw: Option<Vec<i16>> = None;
    let mut pos: usize = 12;
    let n: usize = data.len();
    let ghost found = start;
    while pos <= n && n - pos >= 8
        invariant
            n == data@.len(),
            12 <= pos,
            found == (Chunks {
                fmt,
                data: match raw {
                    Some(v) => Some(v@),
                    None => None,
                },
            }),
            walk_chunks(data@, 12, start) == walk_chunks(data@, pos as int, found),
            parsed_wav(data@) == match walk_chunks(data@, 12, start) {
                Err(e) => Err(e),
                Ok(c) => chunks_audio(c),
            },
        decreases n + 1 - pos,
    {
        let size: usize = get32(data, pos + 4) as usize;
        let body: usize = pos + 8;
        if size > n - body {
            return Err(MimicError::Wav("truncated chunk".to_owned()));
        }
        if has_tag(data, pos, 0x66, 0x6d, 0x74, 0x20) {
            if size < 16 {
                return Err(MimicError::Wav("fmt chunk too small".to_owned()));
            }
            fmt =
            Some(
                Fmt {
                    format: get16(data, body),
                    channels: get16(data, body + 2),
                    rate: get32(data, body + 4),
                    bits: get16(data, body + 14),
                },
            );
            proof {
                found = Chunks { fmt: Some(fmt_at(data@, body as int)), data: found.data };
            }
        } else if has_tag(data, pos, 0x64, 0x61, 0x74, 0x61) {
            raw = Some(pcm_range(data, body, body + size));
            proof {
                found =
                Chunks {
                    fmt: found.fmt,
                    data: Some(pcm_samples(data@.subrange(body as int, body + size))),
                };
            }
        }
        if size % 2 == 1 && body + size == n {
            // the padding of the last chunk is missing: nothing follows
            pos = n;
            assert(walk_chunks(data@, n + 1, found) == walk_chunks(data@, n as int, found));
        } else {
            pos = body + size + size % 2;
        }
    }
    assert(walk_chunks(data@, pos as int, found) == Ok::<Chunks, ErrorView>(found));
    let f = match fmt {
        None => {
            return Err(
                MimicError::Wav(
                    "missing fmt chunk; provide a valid WAV file and try again".to_owned(),
                ),
            );
        },
        Some(f) => f,
    };
    if f.format != 1 {
        return Err(
            MimicError::Wav("only PCM (format 1) supported; convert the source to PCM".to_owned()),
        );
    }
    if f.bits != 16 {
        return Err(
            MimicError::Wav(
                "only 16-bit samples supported; convert the source to 16-bit".to_owned(),
            ),
        );
    }
    let d = match raw {
        None => {
            return Err(
                MimicError::Wav(
                    "missing data chunk; provide a valid WAV file and try again".to_owned(),
                ),
            );
        },
        Some(d) => d,
    };
    if f.channels == 1 {
        Ok(WavAudio::new(d, f.rate))
    } else if f.channels == 2 {
        Ok(WavAudio::new(mix_down(&d), f.rate))
    } else {
        let mut msg = "unsupported channel count: ".to_owned();
        msg.append(decimal(f.channels as u64).as_str());
        Err(MimicError::Wav(msg))
    }
}

/// The bytes of a header, field by field.
proof fn lemma_header_fields(samples: nat, rate: u32)
    ensures
        header_declares(wav_header(samples, rate), samples, rate),
{
    let h = wav_header(samples, rate);
    assert(h.subrange(0, 4) =~= tag_riff());
    assert(h.subrange(8, 12) =~= tag_wave());
    assert(h.subrange(12, 16) =~= tag_fmt());
    assert(h.subrange(16, 20) =~= le32(16));
    assert(h.subrange(20, 22) =~= le16(1));
    assert(h.subrange(22, 24) =~= le16(1));
    assert(h.subrange(24, 28) =~= le32(rate));
    assert(h.subrange(34, 36) =~= le16(16));
    assert(h.subrange(36, 40) =~= tag_data());
    assert(h.subrange(40, 44) =~= le32(data_size(samples)));
}

/// Reading a field of `s` that equals an encoded integer.
proof fn lemma_field32(s: Seq<u8>, at: int, x: u32)
    requires
        0 <= at,
        at + 4 <= s.len(),
        s.subrange(at, at + 4) == le32(x),
    ensures
        read32(s, at) == x,
{
    assert(le32(x).subrange(0, 4) =~= le32(x));
    lemma_read32_shift(s, le32(x), at, 0);
    lemma_read32_le32(x);
}

proof fn lemma_field16(s: Seq<u8>, at: int, x: u16)
    requires
        0 <= at,
        at + 2 <= s.len(),
        s.subrange(at, at + 2) == le16(x),
    ensures
        read16(s, at) == x,
{
    let w = s.subrange(at, at + 2);
    assert(w[0] == s[at] && w[1] == s[at + 1]);
    lemma_read16_le16(x);
}

/// A file with one `fmt ` and one `data` chunk holds what they say.
proof fn lemma_plain_file(s: Seq<u8>, rate: u32, d: Seq<i16>)
    requires
        s.len() == 44 + 2 * d.len(),
        2 * d.len() <= u32::MAX,
        tagged(s, 0, tag_riff()),
        tagged(s, 8, tag_wave()),
        tagged(s, 12, tag_fmt()),
        tagged(s, 36, tag_data()),
        read32(s, 16) == 16,
        read16(s, 20) == 1,
        read16(s, 22) == 1,
        read32(s, 24) == rate,
        read16(s, 34) == 16,
        read32(s, 40) == 2 * d.len(),
        pcm_samples(s.skip(44)) == d,
    ensures
        parsed_wav(s) == Ok::<WavView, ErrorView>(WavView { samples: d, sample_rate: rate }),
{
    let n = d.len();
    assert(s.subrange(44, 44 + 2 * n as int) =~= s.skip(44));
    let c0 = Chunks { fmt: None, data: None };
    let c1 = Chunks { fmt: Some(fmt_at(s, 20)), data: None };
    let c2 = Chunks { fmt: c1.fmt, data: Some(d) };
    assert(walk_chunks(s, 12, c0) == walk_chunks(s, 36, c1));
    assert(tag_data()[0] != tag_fmt()[0]);
    assert(!tagged(s, 36, tag_fmt()));
    assert(walk_chunks(s, 36, c1) == walk_chunks(s, 44 + 2 * n as int, c2));
    assert(walk_chunks(s, 44 + 2 * n as int, c2) == Ok::<Chunks, ErrorView>(c2));
}

/// What a header must hold for the file that starts with it to be plain.
spec fn header_declares(h: Seq<u8>, samples: nat, rate: u32) -> bool {
    &&& h.len() == 44
    &&& h.subrange(0, 4) == tag_riff()
    &&& h.subrange(8, 12) == tag_wave()
    &&& h.subrange(12, 16) == tag_fmt()
    &&& h.subrange(16, 20) == le32(16)
    &&& h.subrange(20, 22) == le16(1)
    &&& h.subrange(22, 24) == le16(1)
    &&& h.subrange(24, 28) == le32(rate)
    &&& h.subrange(34, 36) == le16(16)
    &&& h.subrange(36, 40) == tag_data()
    &&& h.subrange(40, 44) == le32(data_size(samples))
}

proof fn lemma_headed_file(h: Seq<u8>, samples: Seq<i16>, rate: u32)
    requires
        2 * samples.len() <= u32::MAX,
        header_declares(h, samples.len(), rate),
    ensures
        parsed_wav(h + pcm_bytes(samples)) == Ok::<WavView, ErrorView>(
            WavView { samples, sample_rate: rate },
        ),
{
    let s = h + pcm_bytes(samples);
    lemma_within(h, pcm_bytes(samples));
    lemma_field32(s, 16, 16);
    lemma_field16(s, 20, 1);
    lemma_field16(s, 22, 1);
    lemma_field32(s, 24, rate);
    lemma_field16(s, 34, 16);
    lemma_field32(s, 40, data_size(samples.len()));
    assert(s.skip(44) =~= pcm_bytes(samples));
    pcm_round_trip(samples);
    lemma_plain_file(s, rate, samples);
}

/// A serialized file parses back to the audio it was made of, as long as its
/// size fits the header.
pub proof fn wav_round_trip(a: WavView)
    requires
        2 * a.samples.len() <= u32::MAX,
    ensures
        parsed_wav(wav_bytes(a)) == Ok::<WavView, ErrorView>(a),
{
    lemma_header_fields(a.samples.len(), a.sample_rate);
    lemma_headed_file(wav_header(a.samples.len(), a.sample_rate), a.samples, a.sample_rate);
}

/// Parts of a sequence are parts of its continuations.
proof fn lemma_within(h: Seq<u8>, t: Seq<u8>)
    ensures
        forall|i: int, j: int|
            0 <= i <= j <= h.len() ==> #[trigger] (h + t).subrange(i, j) == h.subrange(i, j),
{
    assert forall|i: int, j: int| 0 <= i <= j <= h.len() implies #[trigger] (h + t).subrange(i, j)
        == h.subrange(i, j) by {
        assert((h + t).subrange(i, j) =~= h.subrange(i, j));
    }
}

// ---- seams and splicing ----

/// How many samples one side of a seam measure covers: 10 ms, at least one.
pub open spec fn seam_window(sample_rate: u32) -> nat {
    if sample_rate / 100 == 0 {
        1
    } else {
        (sample_rate / 100) as nat
    }
}

/// The last samples of `s`, at most `w`.
pub open spec fn tail_of(s: Seq<i16>, w: nat) -> Seq<i16> {
    if s.len() <= w {
        s
    } else {
        s.skip(s.len() - w)
    }
}

/// The first samples of `s`, at most `w`.
pub open spec fn head_of(s: Seq<i16>, w: nat) -> Seq<i16> {
    if s.len() <= w {
        s
    } else {
        s.take(w as int)
    }
}

/// The step in level plus the step in zero-crossing rate across a join.
pub open spec fn seam(a: WavView, b: WavView) -> nat {
    let w = seam_window(a.sample_rate);
    let t = tail_of(a.samples, w);
    let h = head_of(b.samples, w);
    plus(apart(level(t), level(h)), apart(crossing_rate(t), crossing_rate(h)))
}

/// Discontinuity across a join between two parts: the step in level plus the
/// step in zero-crossing rate over 10 ms windows. Lower is smoother.
pub fn seam_discontinuity(a: &WavAudio, b: &WavAudio) -> (r: Double)
    ensures
        r@ == seam(a@, b@),
{
    let tenth: usize = (a.sample_rate / 100) as usize;
    let w: usize = if tenth == 0 {
        1
    } else {
        tenth
    };
    let n: usize = a.samples.len();
    let from: usize = if n <= w {
        0
    } else {
        n - w
    };
    let m: usize = b.samples.len();
    let to: usize = if m <= w {
        m
    } else {
        w
    };
    proof {
        assert(a.samples@.subrange(from as int, n as int) =~= tail_of(a.samples@, w as nat));
        assert(b.samples@.subrange(0, to as int) =~= head_of(b.samples@, w as nat));
    }
    let step = level_of(&a.samples, from, n).apart(level_of(&b.samples, 0, to));
    let rate = crossing_rate_of(&a.samples, from, n).apart(crossing_rate_of(&b.samples, 0, to));
    step.plus(rate)
}

/// The first part whose rate differs from `rate`, if any, gives the mismatch.
pub open spec fn rate_mismatch(parts: Seq<WavView>, rate: u32) -> Option<u32>
    decreases parts.len(),
{
    if parts.len() == 0 {
        None
    } else if parts[0].sample_rate != rate {
        Some(parts[0].sample_rate)
    } else {
        rate_mismatch(parts.drop_first(), rate)
    }
}

/// The nominal fade length in samples.
pub open spec fn nominal_fade(rate: u32, crossfade_ms: u32) -> nat {
    (rate * crossfade_ms / 1000) as nat
}

/// The samples of all parts joined in order.
pub open spec fn joined_all(parts: Seq<WavView>, nominal: nat, t: Gains) -> Seq<i16>
    decreases parts.len(),
{
    if parts.len() == 0 {
        Seq::empty()
    } else {
        joined(joined_all(parts.drop_last(), nominal, t), parts.last().samples, nominal, t)
    }
}

/// All parts joined with a crossfade at each join. Parts must agree in rate.
pub open spec fn spliced(
    parts: Seq<WavView>,
    crossfade_ms: u32,
    t: Gains,
) -> core::result::Result<WavView, ErrorView> {
    if parts.len() == 0 {
        Ok(WavView { samples: Seq::empty(), sample_rate: SAMPLE_RATE })
    } else {
        let rate = parts[0].sample_rate;
        match rate_mismatch(parts, rate) {
            Some(other) => Err(ErrorView::SampleRateMismatch(rate, other)),
            None => Ok(
                WavView {
                    samples: joined_all(parts, nominal_fade(rate, crossfade_ms), t),
                    sample_rate: rate,
                },
            ),
        }
    }
}

/// Concatenates parts with a crossfade at each join.
pub fn splice<F: FadeCurve + ?Sized>(
    parts: &[WavAudio],
    crossfade_ms: u32,
    fades: &F,
) -> (r: Result<WavAudio>)
    ensures
        outcome(r) == spliced(wavs(parts@), crossfade_ms, fades.gains()),
{
    let ghost all = wavs(parts@);
    if parts.len() == 0 {
        let r = WavAudio::new(Vec::new(), SAMPLE_RATE);
        assert(r@ =~= WavView { samples: Seq::empty(), sample_rate: SAMPLE_RATE });
        return Ok(r);
    }
    let rate: u32 = parts[0].sample_rate;
    let mut i: usize = 0;
    assert(all.skip(0) =~= all);
    while i < parts.len()
        invariant
            all == wavs(parts@),
            all.len() > 0,
            rate == all[0].sample_rate,
            i <= parts@.len(),
            rate_mismatch(all.skip(i as int), rate) == rate_mismatch(all, rate),
        decreases parts@.len() - i,
    {
        assert(all.skip(i as int)[0] == parts@[i as int]@);
        assert(all.skip(i as int).drop_first() =~= all.skip(i + 1));
        if parts[i].sample_rate != rate {
            return Err(MimicError::SampleRateMismatch(rate, parts[i].sample_rate));
        }
        i += 1;
    }
    assert(rate * crossfade_ms <= 0xffff_ffff * 0xffff_ffff) by (nonlinear_arith)
        requires
            rate <= 0xffff_ffff,
            crossfade_ms <= 0xffff_ffff,
    ;
    let wide: u64 = (rate as u64) * (crossfade_ms as u64) / 1000;
    let nominal: usize = if wide > usize::MAX as u64 {
        usize::MAX
    } else {
        wide as usize
    };
    let ghost exact = nominal_fade(rate, crossfade_ms);
    let mut out: Vec<i16> = Vec::new();
    let mut j: usize = 0;
    assert(out@ =~= joined_all(all.take(0), exact, fades.gains()));
    while j < parts.len()
        invariant
            all == wavs(parts@),
            j <= parts@.len(),
            nominal == exact || (nominal == usize::MAX && exact > usize::MAX),
            out@ == joined_all(all.take(j as int), exact, fades.gains()),
        decreases parts@.len() - j,
    {
        let done: usize = out.len();
        let ghost before = out@;
        join(&mut out, &parts[j].samples, nominal, fades);
        proof {
            let next = parts@[j as int].samples@;
            assert(before.len() == done);
            assert(joined(before, next, nominal as nat, fades.gains()) == joined(
                before,
                next,
                exact,
                fades.gains(),
            ));
            assert(all.take(j + 1).drop_last() =~= all.take(j as int));
            assert(all.take(j + 1).last() == parts@[j as int]@);
        }
        j += 1;
    }
    assert(all.take(j as int) =~= all);
    Ok(WavAudio::new(out, rate))
}

/// Splicing one part returns it unchanged.
pub proof fn splicing_one_part_is_lossless(a: WavView, crossfade_ms: u32, t: Gains)
    ensures
        spliced(seq![a], crossfade_ms, t) == Ok::<WavView, ErrorView>(a),
{
    let parts = seq![a];
    assert(parts.drop_first() =~= Seq::<WavView>::empty());
    assert(parts.drop_last() =~= Seq::<WavView>::empty());
    reveal_with_fuel(rate_mismatch, 2);
    reveal_with_fuel(joined_all, 2);
    assert(joined_all(parts, nominal_fade(a.sample_rate, crossfade_ms), t) =~= a.samples);
}

/// The joined samples stay within any range that all the parts lie in.
proof fn lemma_joined_all_between(
    parts: Seq<WavView>,
    nominal: nat,
    t: Gains,
    lo: int,
    hi: int,
)
    requires
        -32768 <= lo,
        hi <= 32767,
        forall|p: int, i: int|
            0 <= p < parts.len() && 0 <= i < parts[p].samples.len() ==> lo
                <= #[trigger] parts[p].samples[i] <= hi,
    ensures
        forall|i: int|
            0 <= i < joined_all(parts, nominal, t).len() ==> lo <= #[trigger] joined_all(
                parts,
                nominal,
                t,
            )[i] <= hi,
    decreases parts.len(),
{
    if parts.len() > 0 {
        let init = parts.drop_last();
        assert forall|p: int, i: int|
            0 <= p < init.len() && 0 <= i < init[p].samples.len() implies lo
            <= #[trigger] init[p].samples[i] <= hi by {
            assert(init[p] == parts[p]);
            assert(lo <= parts[p].samples[i] <= hi);
        }
        lemma_joined_all_between(init, nominal, t, lo, hi);
        let last = parts.last().samples;
        assert forall|i: int| 0 <= i < last.len() implies lo <= #[trigger] last[i] <= hi by {
            assert(lo <= parts[parts.len() - 1].samples[i] <= hi);
        }
        join_stays_between(joined_all(init, nominal, t), last, nominal, t, lo, hi);
    }
}

/// Splicing cannot come out louder than the loudest part: the output stays
/// within any range of amplitudes that all the parts lie in.
pub proof fn splicing_cannot_clip(
    parts: Seq<WavView>,
    crossfade_ms: u32,
    t: Gains,
    lo: int,
    hi: int,
)
    requires
        -32768 <= lo,
        hi <= 32767,
        forall|p: int, i: int|
            0 <= p < parts.len() && 0 <= i < parts[p].samples.len() ==> lo
                <= #[trigger] parts[p].samples[i] <= hi,
    ensures
        spliced(parts, crossfade_ms, t) matches Ok(out) ==> forall|i: int|
            0 <= i < out.samples.len() ==> lo <= #[trigger] out.samples[i] <= hi,
{
    if parts.len() > 0 {
        lemma_joined_all_between(
            parts,
            nominal_fade(parts[0].sample_rate, crossfade_ms),
            t,
            lo,
            hi,
        );
    }
}

/// Two parts of one rate overlap by exactly one fade: the first is kept up to
/// the fade, and the second from behind it.
pub proof fn splicing_two_parts_overlaps_by_the_fade(
    a: WavView,
    b: WavView,
    crossfade_ms: u32,
    t: Gains,
)
    requires
        a.sample_rate == b.sample_rate,
        a.samples.len() > 0,
    ensures
        spliced(seq![a, b], crossfade_ms, t) matches Ok(out) && ({
            let n = a.samples.len();
            let f = fade_at(n, b.samples.len(), nominal_fade(a.sample_rate, crossfade_ms));
            &&& out.sample_rate == a.sample_rate
            &&& out.samples.len() == n + b.samples.len() - f
            &&& out.samples.take(n - f) == a.samples.take(n - f)
            &&& out.samples.skip(n as int) == b.samples.skip(f as int)
        }),
{
    let parts = seq![a, b];
    let nominal = nominal_fade(a.sample_rate, crossfade_ms);
    reveal_with_fuel(rate_mismatch, 3);
    assert(parts.drop_first() =~= seq![b]);
    assert(parts.drop_first().drop_first() =~= Seq::<WavView>::empty());
    assert(parts.drop_last() =~= seq![a]);
    assert(seq![a].drop_last() =~= Seq::<WavView>::empty());
    reveal_with_fuel(joined_all, 3);
    assert(joined_all(seq![a], nominal, t) =~= a.samples);
    join_overlaps_by_the_fade(a.samples, b.samples, nominal, t);
}

/// Splicing fails exactly where some part has another rate than the first, and
/// says which rate that part has.
pub proof fn splicing_fails_on_the_first_other_rate(
    parts: Seq<WavView>,
    k: int,
    crossfade_ms: u32,
    t: Gains,
)
    requires
        0 <= k <= parts.len(),
        parts.len() > 0,
        forall|i: int|
            0 <= i < k ==> (#[trigger] parts[i]).sample_rate == parts[0].sample_rate,
        k < parts.len() ==> parts[k].sample_rate != parts[0].sample_rate,
    ensures
        if k < parts.len() {
            spliced(parts, crossfade_ms, t) == Err::<WavView, ErrorView>(
                ErrorView::SampleRateMismatch(parts[0].sample_rate, parts[k].sample_rate),
            )
        } else {
            spliced(parts, crossfade_ms, t) is Ok
        },
{
    lemma_first_other_rate(parts, parts[0].sample_rate, k);
}

proof fn lemma_first_other_rate(parts: Seq<WavView>, rate: u32, k: int)
    requires
        0 <= k <= parts.len(),
        forall|i: int| 0 <= i < k ==> (#[trigger] parts[i]).sample_rate == rate,
        k < parts.len() ==> parts[k].sample_rate != rate,
    ensures
        rate_mismatch(parts, rate) == (if k < parts.len() {
            Some(parts[k].sample_rate)
        } else {
            None
        }),
    decreases parts.len(),
{
    if parts.len() > 0 && k > 0 {
        assert(parts[0].sample_rate == rate);
        let rest = parts.drop_first();
        assert forall|i: int| 0 <= i < k - 1 implies (#[trigger] rest[i]).sample_rate == rate by {
            assert(rest[i] == parts[i + 1]);
        }
        if k < parts.len() {
            assert(rest[k - 1] == parts[k]);
        }
        lemma_first_other_rate(rest, rate, k - 1);
    }
}

/// The samples of parts, one part behind the other.
pub open spec fn end_to_end(parts: Seq<WavView>) -> Seq<i16>
    decreases parts.len(),
{
    if parts.len() == 0 {
        Seq::empty()
    } else {
        end_to_end(parts.drop_last()) + parts.last().samples
    }
}

proof fn lemma_joined_without_fade(parts: Seq<WavView>, t: Gains)
    ensures
        joined_all(parts, 0, t) == end_to_end(parts),
    decreases parts.len(),
{
    if parts.len() > 0 {
        lemma_joined_without_fade(parts.drop_last(), t);
        assert(joined_all(parts, 0, t) =~= end_to_end(parts));
    }
}

/// Without a crossfade, splicing is plain concatenation.
pub proof fn splicing_without_a_fade_concatenates(parts: Seq<WavView>, t: Gains)
    ensures
        spliced(parts, 0, t) matches Ok(out) ==> out.samples == end_to_end(parts),
{
    lemma_joined_without_fade(parts, t);
    if parts.len() > 0 {
        assert(nominal_fade(parts[0].sample_rate, 0) == 0);
    }
}

proof fn lemma_joined_empty(parts: Seq<WavView>, i: int, nominal: nat, t: Gains)
    requires
        0 <= i < parts.len(),
        parts[i].samples.len() == 0,
    ensures
        joined_all(parts.remove(i), nominal, t) == joined_all(parts, nominal, t),
    decreases parts.len(),
{
    let init = parts.drop_last();
    let rest = parts.remove(i);
    if i == parts.len() - 1 {
        assert(rest =~= init);
        let done = joined_all(init, nominal, t);
        assert(joined(done, parts.last().samples, nominal, t) =~= done);
    } else {
        assert(rest.drop_last() =~= init.remove(i));
        assert(rest.last() == parts.last());
        lemma_joined_empty(init, i, nominal, t);
    }
}

proof fn lemma_mismatch_without(parts: Seq<WavView>, i: int, rate: u32)
    requires
        0 <= i < parts.len(),
        parts[i].sample_rate == rate,
    ensures
        rate_mismatch(parts.remove(i), rate) == rate_mismatch(parts, rate),
    decreases parts.len(),
{
    if i == 0 {
        assert(parts.remove(0) =~= parts.drop_first());
    } else if parts[0].sample_rate == rate {
        assert(parts.remove(i).drop_first() =~= parts.drop_first().remove(i - 1));
        lemma_mismatch_without(parts.drop_first(), i - 1, rate);
    }
}

/// An empty part of the same rate changes nothing, as long as another part is
/// left that says the rate.
pub proof fn empty_parts_change_nothing(
    parts: Seq<WavView>,
    i: int,
    crossfade_ms: u32,
    t: Gains,
)
    requires
        parts.len() > 1,
        0 <= i < parts.len(),
        parts[i].samples.len() == 0,
        parts[i].sample_rate == parts[0].sample_rate,
        i == 0 ==> parts[1].sample_rate == parts[0].sample_rate,
    ensures
        spliced(parts.remove(i), crossfade_ms, t) == spliced(parts, crossfade_ms, t),
{
    let rate = parts[0].sample_rate;
    lemma_joined_empty(parts, i, nominal_fade(rate, crossfade_ms), t);
    lemma_mismatch_without(parts, i, rate);
    assert(parts.remove(i)[0].sample_rate == rate);
}

/// The greatest amplitude of all parts.
pub open spec fn loudest(parts: Seq<WavView>) -> int
    decreases parts.len(),
{
    if parts.len() == 0 {
        0
    } else {
        let p = loudest(parts.drop_last());
        if peak_of(parts.last().samples) > p {
            peak_of(parts.last().samples)
        } else {
            p
        }
    }
}

proof fn lemma_peak(s: Seq<i16>, p: int)
    requires
        0 <= p,
    ensures
        peak_of(s) <= p <==> forall|i: int| 0 <= i < s.len() ==> -p <= #[trigger] s[i] <= p,
    decreases s.len(),
{
    if s.len() > 0 {
        let init = s.drop_last();
        lemma_peak(init, p);
        if peak_of(s) <= p {
            assert forall|i: int| 0 <= i < s.len() implies -p <= #[trigger] s[i] <= p by {
                if i < init.len() {
                    assert(s[i] == init[i]);
                }
            }
        }
        if forall|i: int| 0 <= i < s.len() ==> -p <= #[trigger] s[i] <= p {
            assert forall|i: int| 0 <= i < init.len() implies -p <= #[trigger] init[i] <= p by {
                assert(init[i] == s[i]);
            }
            assert(-p <= s[s.len() - 1] <= p);
        }
    }
}

proof fn lemma_loudest(parts: Seq<WavView>, k: int)
    requires
        0 <= k < parts.len(),
    ensures
        peak_of(parts[k].samples) <= loudest(parts),
        0 <= loudest(parts) <= 32768,
    decreases parts.len(),
{
    reveal_with_fuel(loudest, 2);
    let last = parts.last().samples;
    lemma_peak(last, 32768);
    if parts.len() > 1 {
        lemma_loudest(
            parts.drop_last(),
            if k < parts.len() - 1 {
                k
            } else {
                0
            },
        );
    }
}

/// What is spliced is no louder than the loudest part.
pub proof fn splicing_is_no_louder(parts: Seq<WavView>, crossfade_ms: u32, t: Gains)
    ensures
        spliced(parts, crossfade_ms, t) matches Ok(out) ==> peak_of(out.samples) <= loudest(parts),
{
    if parts.len() > 0 {
        lemma_loudest(parts, 0);
        let p = loudest(parts);
        let hi = if p > 32767 {
            32767
        } else {
            p
        };
        assert forall|k: int, i: int|
            0 <= k < parts.len() && 0 <= i < parts[k].samples.len() implies -p
            <= #[trigger] parts[k].samples[i] <= hi by {
            lemma_loudest(parts, k);
            lemma_peak(parts[k].samples, p);
        }
        splicing_cannot_clip(parts, crossfade_ms, t, -p, hi);
        if let Ok(out) = spliced(parts, crossfade_ms, t) {
            assert forall|i: int| 0 <= i < out.samples.len() implies -p <= #[trigger] out.samples[i]
                <= p by {}
            lemma_peak(out.samples, p);
        }
    } else {
        lemma_peak(Seq::<i16>::empty(), 0);
    }
}

/// Whether part `k` ends at `at[k + 1]`, and overlaps what is before it by no
/// more than a fade and half of itself.
pub open spec fn part_fits(parts: Seq<WavView>, at: Seq<nat>, fade: nat, k: int) -> bool {
    let len = parts[k].samples.len();
    &&& at[k] <= at[k + 1] <= at[k] + len <= at[k + 1] + fade
    &&& 2 * (at[k] + len - at[k + 1]) <= len
}

/// Whether what is a fade away from the end of part `k` is heard as it is.
pub open spec fn part_is_heard(
    out: Seq<i16>,
    parts: Seq<WavView>,
    at: Seq<nat>,
    fade: nat,
    k: int,
) -> bool {
    let len = parts[k].samples.len() as int;
    forall|i: int|
        at[k] <= i && i + fade < at[k + 1] ==> #[trigger] out[i] == parts[k].samples[i + len - at[k
            + 1]]
}

/// Whether parts are heard one behind the other in `out`, the last of them to its
/// end.
pub open spec fn heard_one_by_one(
    out: Seq<i16>,
    parts: Seq<WavView>,
    at: Seq<nat>,
    fade: nat,
) -> bool {
    let n = parts.len() as int;
    &&& at.len() == n + 1
    &&& at[0] == 0
    &&& at[n] == out.len()
    &&& forall|k: int| 0 <= k < n ==> #[trigger] part_fits(parts, at, fade, k)
    &&& forall|k: int| 0 <= k < n ==> #[trigger] part_is_heard(out, parts, at, fade, k)
    &&& n > 0 ==> part_is_heard(out, parts, at, 0, n - 1)
}

/// One more part behind those that are heard.
proof fn lemma_heard_more(
    done: Seq<i16>,
    init: Seq<WavView>,
    before: Seq<nat>,
    fade: nat,
    last: WavView,
    f: nat,
    out: Seq<i16>,
)
    requires
        heard_one_by_one(done, init, before, fade),
        f <= fade,
        2 * f <= done.len(),
        2 * f <= last.samples.len(),
        out.len() == done.len() + last.samples.len() - f,
        forall|i: int| 0 <= i < done.len() - f ==> #[trigger] out[i] == done[i],
        forall|i: int| done.len() <= i < out.len() ==> #[trigger] out[i] == last.samples[i
            - done.len() + f],
    ensures
        heard_one_by_one(out, init.push(last), before.push(out.len()), fade),
{
    let parts = init.push(last);
    let at = before.push(out.len());
    let n = parts.len() as int;
    assert forall|k: int| 0 <= k < n implies #[trigger] part_fits(parts, at, fade, k) by {
        if k < n - 1 {
            assert(part_fits(init, before, fade, k));
        }
    }
    assert(part_is_heard(out, parts, at, 0, n - 1));
    assert forall|k: int| 0 <= k < n implies #[trigger] part_is_heard(out, parts, at, fade, k) by {
        if k < n - 1 {
            assert(part_is_heard(done, init, before, fade, k));
            lemma_places_ascend(init, before, done, fade, k + 1, n - 1);
        }
    }
}

proof fn lemma_heard(parts: Seq<WavView>, nominal: nat, t: Gains) -> (at: Seq<nat>)
    ensures
        heard_one_by_one(joined_all(parts, nominal, t), parts, at, nominal),
    decreases parts.len(),
{
    let out = joined_all(parts, nominal, t);
    if parts.len() == 0 {
        seq![0nat]
    } else {
        let init = parts.drop_last();
        let before = lemma_heard(init, nominal, t);
        let done = joined_all(init, nominal, t);
        let next = parts.last().samples;
        let f = fade_at(done.len(), next.len(), nominal);
        if done.len() > 0 {
            join_overlaps_by_the_fade(done, next, nominal, t);
            let a = (done.len() - f) as int;
            assert forall|i: int| 0 <= i < a implies #[trigger] out[i] == done[i] by {
                assert(out.take(a)[i] == done.take(a)[i]);
            }
            assert forall|i: int| done.len() <= i < out.len() implies #[trigger] out[i] == next[i
                - done.len() + f] by {
                assert(out.skip(done.len() as int)[i - done.len()] == next.skip(f as int)[i
                    - done.len()]);
            }
        }
        lemma_heard_more(done, init, before, nominal, parts.last(), f, out);
        assert(init.push(parts.last()) =~= parts);
        before.push(out.len())
    }
}

proof fn lemma_places_ascend(
    parts: Seq<WavView>,
    at: Seq<nat>,
    out: Seq<i16>,
    fade: nat,
    i: int,
    j: int,
)
    requires
        heard_one_by_one(out, parts, at, fade),
        0 <= i <= j <= parts.len(),
    ensures
        at[i] <= at[j],
    decreases j - i,
{
    if i < j {
        lemma_places_ascend(parts, at, out, fade, i, j - 1);
        assert(part_fits(parts, at, fade, j - 1));
    }
}

/// Spliced parts are heard one behind the other, in the order in which they are
/// given, with no more than a fade lost at each join.
pub proof fn parts_are_heard_one_by_one(parts: Seq<WavView>, crossfade_ms: u32, t: Gains) -> (at:
    Seq<nat>)
    requires
        parts.len() > 0,
        spliced(parts, crossfade_ms, t) is Ok,
    ensures
        spliced(parts, crossfade_ms, t) matches Ok(out) && out.sample_rate == parts[0].sample_rate
            && heard_one_by_one(
            out.samples,
            parts,
            at,
            (parts[0].sample_rate * crossfade_ms / 1000) as nat,
        ),
{
    lemma_heard(parts, nominal_fade(parts[0].sample_rate, crossfade_ms), t)
}

/// Whether bytes start as a wav file of one channel of `n` 16-bit samples does.
pub open spec fn declares_wav(b: Seq<u8>, n: nat, rate: u32) -> bool {
    &&& b[0] == 0x52 && b[1] == 0x49 && b[2] == 0x46 && b[3] == 0x46
    &&& b[8] == 0x57 && b[9] == 0x41 && b[10] == 0x56 && b[11] == 0x45
    &&& b[20] + 256 * b[21] == 1
    &&& b[22] + 256 * b[23] == 1
    &&& b[24] + 256 * b[25] + 65536 * b[26] + 16777216 * b[27] == rate
    &&& b[34] + 256 * b[35] == 16
    &&& b[36] == 0x64 && b[37] == 0x61 && b[38] == 0x74 && b[39] == 0x61
    &&& b[40] + 256 * b[41] + 65536 * b[42] + 16777216 * b[43] == 2 * n
}

/// Whether sample `i` stands behind the 44 bytes that declare the file, in two
/// bytes with the least significant first.
pub open spec fn holds_sample(b: Seq<u8>, samples: Seq<i16>, i: int) -> bool {
    let v = samples[i];
    b[44 + 2 * i] + 256 * b[45 + 2 * i] == (if v < 0 {
        v + 65536
    } else {
        v as int
    })
}

#[verifier::rlimit(60)]
#[verifier::spinoff_prover]
proof fn lemma_declares(h: Seq<u8>, n: nat, rate: u32)
    requires
        2 * n <= u32::MAX,
        header_declares(h, n, rate),
    ensures
        declares_wav(h, n, rate),
{
    lemma_four(h, 0, tag_riff());
    lemma_four(h, 8, tag_wave());
    lemma_four(h, 24, le32(rate));
    lemma_four(h, 36, tag_data());
    lemma_four(h, 40, le32(data_size(n)));
    lemma_two(h, 20, le16(1));
    lemma_two(h, 22, le16(1));
    lemma_two(h, 34, le16(16));
}

#[verifier::rlimit(60)]
#[verifier::spinoff_prover]
proof fn lemma_declares_more(h: Seq<u8>, body: Seq<u8>, n: nat, rate: u32)
    requires
        h.len() == 44,
        declares_wav(h, n, rate),
    ensures
        declares_wav(h + body, n, rate),
{
}

/// Audio is written as a wav file that every player reads: one channel of 16-bit
/// samples at its rate, and then the samples in order.
pub proof fn wav_files_are_laid_out(a: WavView, i: int)
    requires
        2 * a.samples.len() <= u32::MAX,
        0 <= i < a.samples.len(),
    ensures
        wav_bytes(a).len() == 44 + 2 * a.samples.len(),
        declares_wav(wav_bytes(a), a.samples.len(), a.sample_rate),
        holds_sample(wav_bytes(a), a.samples, i),
{
    let n = a.samples.len();
    let h = wav_header(n, a.sample_rate);
    lemma_header_fields(n, a.sample_rate);
    lemma_declares(h, n, a.sample_rate);
    lemma_declares_more(h, pcm_bytes(a.samples), n, a.sample_rate);
    lemma_body(h, a.samples, i);
}

proof fn lemma_four(h: Seq<u8>, at: int, t: Seq<u8>)
    requires
        0 <= at,
        at + 4 <= h.len(),
        h.subrange(at, at + 4) == t,
    ensures
        h[at] == t[0],
        h[at + 1] == t[1],
        h[at + 2] == t[2],
        h[at + 3] == t[3],
{
    let w = h.subrange(at, at + 4);
    assert(w[0] == h[at] && w[1] == h[at + 1] && w[2] == h[at + 2] && w[3] == h[at + 3]);
}

proof fn lemma_two(h: Seq<u8>, at: int, t: Seq<u8>)
    requires
        0 <= at,
        at + 2 <= h.len(),
        h.subrange(at, at + 2) == t,
    ensures
        h[at] == t[0],
        h[at + 1] == t[1],
{
    let w = h.subrange(at, at + 2);
    assert(w[0] == h[at] && w[1] == h[at + 1]);
}

proof fn lemma_body(h: Seq<u8>, samples: Seq<i16>, i: int)
    requires
        h.len() == 44,
        0 <= i < samples.len(),
    ensures
        (h + pcm_bytes(samples)).len() == 44 + 2 * samples.len(),
        holds_sample(h + pcm_bytes(samples), samples, i),
{
    let b = h + pcm_bytes(samples);
    let body = pcm_bytes(samples);
    assert(b[44 + 2 * i] == body[2 * i] && b[45 + 2 * i] == body[2 * i + 1]);
    assert((2 * i) / 2 == i && (2 * i) % 2 == 0);
    assert((2 * i + 1) / 2 == i && (2 * i + 1) % 2 == 1);
}

/// A second of audio has as many samples as its rate says, and lasts a thousand
/// milliseconds.
pub proof fn seconds_last_a_thousand_milliseconds(rate: u32, k: nat)
    requires
        rate > 0,
        1000 * (rate * k) <= 0x20_0000_0000_0000,
    ensures
        duration((rate * k) as nat, rate) == 1000 * k * unit(),
{
    let u = unit();
    let n = (rate * k) as nat;
    let r = rate as nat;
    vstd::arithmetic::power2::lemma_pow2_pos(1074);
    small_is_whole(n);
    small_is_whole(1000);
    small_is_whole(r);
    assert(k <= n) by (nonlinear_arith)
        requires
            n == r * k,
            r > 0,
    ;
    small_is_whole(1000 * n);
    small_is_whole(1000 * k);
    lemma_same_quotient((1000 * n) * u, 1, u, crate::double::TOP as nat);
    assert(1 * u == u);
    assert((n * u) * (1000 * u) == ((1000 * n) * u) * u) by (nonlinear_arith);
    assert(times(whole(n), whole(1000)) == (1000 * n) * u);
    let d = r * u;
    assert(d > 0) by (nonlinear_arith)
        requires
            d == r * u,
            r > 0,
            u > 0,
    ;
    lemma_same_quotient((1000 * k) * u, 1, d, crate::double::TOP as nat);
    assert(1 * d == d);
    assert(((1000 * n) * u) * u == ((1000 * k) * u) * d) by (nonlinear_arith)
        requires
            n == r * k,
            d == r * u,
    ;
}

/// A join is measured over 10 ms on either side: there is no seam where what comes
/// after it sounds like what came before it, and there is one where they are not
/// equally loud.
pub proof fn seams_are_steps(a: WavView, b: WavView)
    requires
        a.sample_rate >= 100,
        a.samples.len() >= a.sample_rate / 100,
        b.samples.len() >= a.sample_rate / 100,
    ensures
        ({
            let w = (a.sample_rate / 100) as int;
            let before = a.samples.skip(a.samples.len() - w);
            let after = b.samples.take(w);
            &&& level(before) == level(after) && crossing_rate(before) == crossing_rate(after)
                ==> seam(a, b) == 0
            &&& level(before) != level(after) ==> seam(a, b) > 0
        }),
{
    let w = (a.sample_rate / 100) as nat;
    assert(tail_of(a.samples, w) =~= a.samples.skip(a.samples.len() - w));
    assert(head_of(b.samples, w) =~= b.samples.take(w as int));
    let (t, h) = (tail_of(a.samples, w), head_of(b.samples, w));
    assert(double(0, 1) == 0) by {
        vstd::arithmetic::power2::lemma_pow2_pos(2098);
        crate::double::doubles_are_exact(0, 0);
        assert(0 * vstd::arithmetic::power2::pow2(0) == 0);
    }
    if level(t) != level(h) {
        let gap: nat = if level(t) < level(h) {
            (level(h) - level(t)) as nat
        } else {
            (level(t) - level(h)) as nat
        };
        units_do_not_vanish(gap);
        units_do_not_vanish(
            apart(level(t), level(h)) + apart(crossing_rate(t), crossing_rate(h)),
        );
    }
}

/// Stereo is mixed down by taking the middle of both channels.
pub proof fn mono_is_the_middle_of_stereo(s: Seq<i16>, i: int)
    requires
        0 <= i < s.len() / 2,
    ensures
        mono(s).len() == s.len() / 2,
        -1 <= 2 * mono(s)[i] - (s[2 * i] + s[2 * i + 1]) <= 1,
{
}

} // verus!
