//! Little-endian integers and PCM samples as byte sequences.

use vstd::prelude::*;

verus! {

/// The two bytes of `x`, least significant first.
pub open spec fn le16(x: u16) -> Seq<u8> {
    seq![(x % 256) as u8, (x / 256) as u8]
}

/// The four bytes of `x`, least significant first.
pub open spec fn le32(x: u32) -> Seq<u8> {
    seq![
        (x % 256) as u8,
        (x / 256 % 256) as u8,
        (x / 65536 % 256) as u8,
        (x / 16777216) as u8,
    ]
}

/// The 16-bit integer at offset `at`, least significant byte first.
pub open spec fn read16(s: Seq<u8>, at: int) -> u16 {
    (s[at] + 256 * s[at + 1]) as u16
}

/// The 32-bit integer at offset `at`, least significant byte first.
pub open spec fn read32(s: Seq<u8>, at: int) -> u32 {
    (s[at] + 256 * s[at + 1] + 65536 * s[at + 2] + 16777216 * s[at + 3]) as u32
}

/// The unsigned 16-bit pattern of a sample.
pub open spec fn sample_pattern(x: i16) -> u16 {
    (if x < 0 {
        x + 65536
    } else {
        x as int
    }) as u16
}

/// The sample with an unsigned 16-bit pattern.
pub open spec fn pattern_sample(u: u16) -> i16 {
    (if u < 32768 {
        u as int
    } else {
        u - 65536
    }) as i16
}

/// Samples as 16-bit little-endian PCM.
pub open spec fn pcm_bytes(samples: Seq<i16>) -> Seq<u8> {
    Seq::new(
        2 * samples.len(),
        |i: int| le16(sample_pattern(samples[i / 2]))[i % 2],
    )
}

/// 16-bit little-endian PCM as samples. A trailing odd byte is dropped.
pub open spec fn pcm_samples(s: Seq<u8>) -> Seq<i16> {
    Seq::new(s.len() / 2, |i: int| pattern_sample(read16(s, 2 * i)))
}

/// A 32-bit integer is read back from its bytes.
pub proof fn lemma_read32_le32(x: u32)
    ensures
        read32(le32(x), 0) == x,
{
}

/// A 16-bit integer is read back from its bytes.
pub proof fn lemma_read16_le16(x: u16)
    ensures
        read16(le16(x), 0) == x,
{
}

/// PCM bytes hold exactly the samples they were made of.
pub proof fn pcm_round_trip(samples: Seq<i16>)
    ensures
        pcm_samples(pcm_bytes(samples)) == samples,
{
    let b = pcm_bytes(samples);
    assert forall|i: int| 0 <= i < samples.len() implies pcm_samples(b)[i] == samples[i] by {
        assert((2 * i) / 2 == i && (2 * i) % 2 == 0);
        assert((2 * i + 1) / 2 == i && (2 * i + 1) % 2 == 1);
    }
    assert(pcm_samples(b) =~= samples);
}

/// Reads depend only on the bytes they cover.
pub proof fn lemma_read32_shift(a: Seq<u8>, b: Seq<u8>, i: int, j: int)
    requires
        0 <= i,
        0 <= j,
        i + 4 <= a.len(),
        j + 4 <= b.len(),
        a.subrange(i, i + 4) == b.subrange(j, j + 4),
    ensures
        read32(a, i) == read32(b, j),
{
    let x = a.subrange(i, i + 4);
    let y = b.subrange(j, j + 4);
    assert(x[0] == a[i] && x[1] == a[i + 1] && x[2] == a[i + 2] && x[3] == a[i + 3]);
    assert(y[0] == b[j] && y[1] == b[j + 1] && y[2] == b[j + 2] && y[3] == b[j + 3]);
}

/// Appends the bytes `start..end` of `src`.
pub fn extend_range(out: &mut Vec<u8>, src: &[u8], start: usize, end: usize)
    requires
        start <= end <= src@.len(),
    ensures
        final(out)@ == old(out)@ + src@.subrange(start as int, end as int),
{
    let mut i: usize = start;
    while i < end
        invariant
            start <= i <= end <= src@.len(),
            out@ == old(out)@ + src@.subrange(start as int, i as int),
        decreases end - i,
    {
        out.push(src[i]);
        i += 1;
        assert(out@ =~= old(out)@ + src@.subrange(start as int, i as int));
    }
}

/// Appends all the bytes of `src`.
pub fn extend_all(out: &mut Vec<u8>, src: &[u8])
    ensures
        final(out)@ == old(out)@ + src@,
{
    extend_range(out, src, 0, src.len());
    assert(src@.subrange(0, src@.len() as int) =~= src@);
}

/// The bytes `start..end` of `src` as a vector.
pub fn copy_range(src: &[u8], start: usize, end: usize) -> (r: Vec<u8>)
    requires
        start <= end <= src@.len(),
    ensures
        r@ == src@.subrange(start as int, end as int),
{
    let mut out: Vec<u8> = Vec::new();
    extend_range(&mut out, src, start, end);
    assert(out@ =~= src@.subrange(start as int, end as int));
    out
}

pub fn push_le16(out: &mut Vec<u8>, x: u16)
    ensures
        final(out)@ == old(out)@ + le16(x),
{
    out.push((x % 256) as u8);
    out.push((x / 256) as u8);
    assert(out@ =~= old(out)@ + le16(x));
}

pub fn push_le32(out: &mut Vec<u8>, x: u32)
    ensures
        final(out)@ == old(out)@ + le32(x),
{
    out.push((x % 256) as u8);
    out.push((x / 256 % 256) as u8);
    out.push((x / 65536 % 256) as u8);
    out.push((x / 16777216) as u8);
    assert(out@ =~= old(out)@ + le32(x));
}

pub fn get16(s: &[u8], at: usize) -> (r: u16)
    requires
        at + 2 <= s@.len(),
    ensures
        r == read16(s@, at as int),
{
    s[at] as u16 + 256 * (s[at + 1] as u16)
}

pub fn get32(s: &[u8], at: usize) -> (r: u32)
    requires
        at + 4 <= s@.len(),
    ensures
        r == read32(s@, at as int),
{
    s[at] as u32 + 256 * (s[at + 1] as u32) + 65536 * (s[at + 2] as u32) + 16777216 * (s[at
        + 3] as u32)
}

/// The sample at byte offset `at`.
pub fn get_sample(s: &[u8], at: usize) -> (r: i16)
    requires
        at + 2 <= s@.len(),
    ensures
        r == pattern_sample(read16(s@, at as int)),
{
    let u: u16 = get16(s, at);
    if u < 32768 {
        u as i16
    } else {
        (u as i32 - 65536) as i16
    }
}

/// Appends one sample as PCM.
pub fn push_sample(out: &mut Vec<u8>, x: i16)
    ensures
        final(out)@ == old(out)@ + le16(sample_pattern(x)),
{
    if x < 0 {
        push_le16(out, (x as i32 + 65536) as u16);
    } else {
        push_le16(out, x as u16);
    }
}

/// Appends samples as PCM.
pub fn push_pcm(out: &mut Vec<u8>, samples: &[i16])
    ensures
        final(out)@ == old(out)@ + pcm_bytes(samples@),
{
    let mut i: usize = 0;
    assert(out@ =~= old(out)@ + pcm_bytes(samples@.take(0)));
    while i < samples.len()
        invariant
            i <= samples@.len(),
            out@ == old(out)@ + pcm_bytes(samples@.take(i as int)),
        decreases samples@.len() - i,
    {
        let ghost before = samples@.take(i as int);
        let ghost after = samples@.take(i + 1);
        push_sample(out, samples[i]);
        proof {
            assert((2 * i) / 2 == i && (2 * i) % 2 == 0);
            assert((2 * i + 1) / 2 == i && (2 * i + 1) % 2 == 1);
            assert(pcm_bytes(after) =~= pcm_bytes(before) + le16(sample_pattern(samples@[i as int])));
        }
        i += 1;
        assert(out@ =~= old(out)@ + pcm_bytes(samples@.take(i as int)));
    }
    assert(samples@.take(i as int) =~= samples@);
}

/// The samples held by the bytes `start..end`.
pub fn pcm_range(s: &[u8], start: usize, end: usize) -> (r: Vec<i16>)
    requires
        start <= end <= s@.len(),
    ensures
        r@ == pcm_samples(s@.subrange(start as int, end as int)),
{
    let ghost body = s@.subrange(start as int, end as int);
    let n: usize = (end - start) / 2;
    let mut out: Vec<i16> = Vec::new();
    let mut i: usize = 0;
    while i < n
        invariant
            start <= end <= s@.len(),
            body == s@.subrange(start as int, end as int),
            n == (end - start) / 2,
            i <= n,
            out@.len() == i,
            forall|k: int| 0 <= k < i ==> out@[k] == pcm_samples(body)[k],
        decreases n - i,
    {
        let at: usize = start + 2 * i;
        out.push(get_sample(s, at));
        assert(body[2 * i as int] == s@[at as int]);
        assert(body[2 * i + 1] == s@[at + 1]);
        i += 1;
    }
    assert(out@ =~= pcm_samples(body));
    out
}

/// Integers and samples stand with their least significant byte first: a sample
/// below zero as what it lacks to 65536.
pub proof fn numbers_stand_least_byte_first(s: Seq<u8>, at: int, x: u16, y: u32, v: i16)
    ensures
        0 <= at && at + 2 <= s.len() ==> read16(s, at) == s[at] + 256 * s[at + 1],
        0 <= at && at + 4 <= s.len() ==> read32(s, at) == s[at] + 256 * s[at + 1] + 65536 * s[at
            + 2] + 16777216 * s[at + 3],
        le16(x).len() == 2 && x == le16(x)[0] + 256 * le16(x)[1],
        le32(y).len() == 4 && y == le32(y)[0] + 256 * le32(y)[1] + 65536 * le32(y)[2] + 16777216
            * le32(y)[3],
        pcm_bytes(seq![v]).len() == 2,
        v >= 0 ==> pcm_bytes(seq![v])[0] + 256 * pcm_bytes(seq![v])[1] == v,
        v < 0 ==> pcm_bytes(seq![v])[0] + 256 * pcm_bytes(seq![v])[1] == v + 65536,
{
    let b = pcm_bytes(seq![v]);
    assert(b[0] == le16(sample_pattern(v))[0]);
    assert(b[1] == le16(sample_pattern(v))[1]);
}

} // verus!
