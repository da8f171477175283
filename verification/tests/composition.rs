//! Ingesting, composing and planning with a deterministic provider and a
//! transform codec in ordinary floating point.

use mimic::align::AlignMode;
use mimic::audio::{parse_wav, splice, to_wav_bytes, WavAudio};
use mimic::codec::{
    analysis_window, concat_tokens, frames_for, slice_tokens, token_frames, AudioCodec, Frame,
    MctStream, MimicMct, FRAME, WINDOW,
};
use mimic::corpus::{find_corpus, read_corpus, split_lines_by_fifth};
use mimic::double::Double;
use mimic::edges::Medium;
use mimic::eval::{
    boundary_errors, boundary_stats, check_gates, compose_in, expand_templates, is_swept, modes,
    run_replay, to_json, to_markdown, train, write_notes, EvalReport, External, RowTally,
};
use mimic::fade::FadeCurve;
use mimic::figures::Signed;
use mimic::frac::Frac;
use mimic::g2p::G2p;
use mimic::manifest::PlanRequest;
use mimic::pipeline::{compose, ingest, ingest_with_options, IngestOptions};
use mimic::plan::{Fetched, PlanManager, PlanResponse};
use mimic::select::{compose_v3, compose_v3_with_medium};
use mimic::server::compose_ssml;
use mimic::store::{MimicStore, Node, NodeId};
use mimic::tts::{word_duration_ms, word_pitch, TtsProvider};
use mimic::units::{normalize, tokenize, UnitLevel};
use mimic::{MimicError, SAMPLE_RATE};
use std::f64::consts::PI;
use std::sync::{Mutex, OnceLock};

fn number(x: Double) -> f64 {
    f64::from_bits(x.to_bits())
}

fn signed(x: f64) -> Signed {
    Signed { negative: x < 0.0, size: Double::of_bits(x.abs().to_bits()) }
}

// ---- the transform ----

fn cosines() -> &'static Vec<Vec<f64>> {
    static TABLE: OnceLock<Vec<Vec<f64>>> = OnceLock::new();
    TABLE.get_or_init(|| {
        let n = WINDOW as f64;
        (0..FRAME)
            .map(|k| {
                (0..WINDOW)
                    .map(|i| ((2.0 * PI / n) * (i as f64 + 0.5 + n / 4.0) * (k as f64 + 0.5)).cos())
                    .collect()
            })
            .collect()
    })
}

fn sine_window() -> &'static [f64] {
    static TABLE: OnceLock<Vec<f64>> = OnceLock::new();
    TABLE
        .get_or_init(|| {
            (0..WINDOW)
                .map(|i| (PI * (i as f64 + 0.5) / WINDOW as f64).sin())
                .collect()
        })
        .as_slice()
}

fn mdct(windowed: &[f64]) -> Vec<f64> {
    cosines()
        .iter()
        .map(|row| row.iter().zip(windowed).map(|(c, w)| c * w).sum())
        .collect()
}

fn imdct(coeffs: &[f64]) -> Vec<f64> {
    let mut out = vec![0.0; WINDOW];
    for (c, row) in coeffs.iter().zip(cosines()) {
        if *c != 0.0 {
            for (o, t) in out.iter_mut().zip(row) {
                *o += c * t;
            }
        }
    }
    let scale = 4.0 / WINDOW as f64;
    out.iter()
        .zip(sine_window())
        .map(|(o, w)| scale * o * w)
        .collect()
}

fn quantize(coeffs: &[f64]) -> Frame {
    let largest = coeffs.iter().fold(0.0f64, |a, b| a.max(b.abs()));
    if largest < 1e-4 {
        return Frame::Silence;
    }
    let scale = ((largest * 32768.0).round() as u32).min(u16::MAX as u32) as u16;
    let unit = scale as f64 / 32768.0;
    let values = coeffs
        .iter()
        .map(|c| (c / unit * 3.0).round().clamp(-3.0, 3.0) as i8)
        .collect();
    Frame::Tonal { scale, values }
}

fn overlap_add(stream: &MctStream) -> Vec<i16> {
    let mut pcm = vec![0.0f64; stream.frames.len() * FRAME + FRAME];
    for (f, frame) in stream.frames.iter().enumerate() {
        if let Frame::Tonal { scale, values } = frame {
            let unit = *scale as f64 / 32768.0;
            let coeffs: Vec<f64> = values.iter().map(|v| *v as f64 / 3.0 * unit).collect();
            for (i, v) in imdct(&coeffs).iter().enumerate() {
                let at = f * FRAME + i;
                if at >= FRAME {
                    pcm[at - FRAME] += v;
                }
            }
        }
    }
    pcm.iter()
        .take(stream.samples)
        .map(|v| (v * 32767.0).round().clamp(i16::MIN as f64, i16::MAX as f64) as i16)
        .collect()
}

struct Mct;

impl AudioCodec for Mct {
    fn name(&self) -> &str {
        "mimic-mct-v1"
    }

    fn encode(&self, audio: &WavAudio) -> Vec<u8> {
        let frames: Vec<Frame> = (0..frames_for(audio.len()))
            .map(|f| {
                let windowed: Vec<f64> = analysis_window(audio, f)
                    .iter()
                    .zip(sine_window())
                    .map(|(s, w)| *s as f64 / 32768.0 * w)
                    .collect();
                quantize(&mdct(&windowed))
            })
            .collect();
        MimicMct.encode(audio.len(), audio.sample_rate, &frames)
    }

    fn decode(&self, tokens: &[u8]) -> Result<WavAudio, MimicError> {
        let stream = MimicMct.decode(tokens)?;
        let samples = overlap_add(&stream);
        Ok(WavAudio::new(samples, stream.sample_rate))
    }
}

// ---- the provider ----

struct MockTts {
    calls: Mutex<Vec<String>>,
}

impl MockTts {
    fn new() -> MockTts {
        MockTts { calls: Mutex::new(Vec::new()) }
    }

    fn asked(&self) -> Vec<String> {
        self.calls.lock().unwrap().clone()
    }
}

fn envelope(i: usize, n: usize) -> f64 {
    let edge = (SAMPLE_RATE as usize / 100).min(n / 2);
    if edge == 0 {
        return 1.0;
    }
    let mut g = 1.0;
    if i < edge {
        g *= 0.5 * (1.0 - (PI * i as f64 / edge as f64).cos());
    }
    if i >= n - edge {
        g *= 0.5 * (1.0 + (PI * (i - (n - edge)) as f64 / edge as f64).cos());
    }
    g
}

impl TtsProvider for MockTts {
    fn name(&self) -> &str {
        "mock-tts"
    }

    fn synthesize(&self, text: &str, voice: &str) -> Result<WavAudio, MimicError> {
        self.calls.lock().unwrap().push(text.to_string());
        let mut samples = Vec::new();
        for word in text.split_whitespace() {
            let freq = word_pitch(voice, word) as f64;
            let n = (SAMPLE_RATE as u64 * word_duration_ms(word) / 1000) as usize;
            for i in 0..n {
                let t = i as f64 / SAMPLE_RATE as f64;
                let vib = 1.0 + 0.05 * (2.0 * PI * 5.0 * t).sin();
                let s = (2.0 * PI * freq * t * vib).sin()
                    + 0.5 * (4.0 * PI * freq * t).sin()
                    + 0.25 * (6.0 * PI * freq * t).sin();
                samples.push((s * envelope(i, n) * 0.35 * i16::MAX as f64) as i16);
            }
            samples.extend(std::iter::repeat(0).take(SAMPLE_RATE as usize * 60 / 1000));
        }
        Ok(WavAudio::new(samples, SAMPLE_RATE))
    }
}

/// A provider that is never there.
struct Offline;

impl TtsProvider for Offline {
    fn name(&self) -> &str {
        "offline"
    }

    fn synthesize(&self, _text: &str, _voice: &str) -> Result<WavAudio, MimicError> {
        Err(MimicError::Io("no route".to_string()))
    }
}

/// Raised-cosine fades.
struct Cosine;

impl FadeCurve for Cosine {
    fn gain(&self, n: usize, i: usize) -> Double {
        let t = (i as f64 + 0.5) / n as f64;
        signed(0.5 * (1.0 + (PI * t).cos())).size
    }
}

// ---- intelligibility ----

fn fft(re: &mut [f64], im: &mut [f64]) {
    let n = re.len();
    let mut j = 0usize;
    for i in 1..n {
        let mut bit = n >> 1;
        while j & bit != 0 {
            j &= !bit;
            bit >>= 1;
        }
        j |= bit;
        if i < j {
            re.swap(i, j);
            im.swap(i, j);
        }
    }
    let mut len = 2;
    while len <= n {
        let ang = -2.0 * PI / len as f64;
        for i in (0..n).step_by(len) {
            for k in 0..len / 2 {
                let (wr, wi) = ((ang * k as f64).cos(), (ang * k as f64).sin());
                let (a, b) = (i + k, i + k + len / 2);
                let (tr, ti) = (re[b] * wr - im[b] * wi, re[b] * wi + im[b] * wr);
                re[b] = re[a] - tr;
                im[b] = im[a] - ti;
                re[a] += tr;
                im[a] += ti;
            }
        }
        len <<= 1;
    }
}

fn band_envelopes(samples: &[i16], sample_rate: u32) -> Vec<Vec<f64>> {
    let hz_per_bin = sample_rate as f64 / 256.0;
    let edges: Vec<(usize, usize)> = (0..15)
        .map(|m| {
            let fc = 150.0 * 2f64.powf(m as f64 / 3.0);
            let lo = (fc / 2f64.powf(1.0 / 6.0) / hz_per_bin).floor() as usize;
            let hi = (fc * 2f64.powf(1.0 / 6.0) / hz_per_bin).ceil() as usize;
            (lo, hi.min(128).max(lo + 1))
        })
        .collect();
    let hann: Vec<f64> = (0..256)
        .map(|i| 0.5 * (1.0 - (2.0 * PI * i as f64 / 255.0).cos()))
        .collect();
    let mut bands = vec![Vec::new(); edges.len()];
    let mut f = 0usize;
    while f * 128 + 256 <= samples.len() {
        let mut re: Vec<f64> = (0..256)
            .map(|i| samples[f * 128 + i] as f64 / 32768.0 * hann[i])
            .collect();
        let mut im = vec![0.0f64; 256];
        fft(&mut re, &mut im);
        for (b, &(lo, hi)) in edges.iter().enumerate() {
            let e: f64 = (lo..hi).map(|k| re[k] * re[k] + im[k] * im[k]).sum();
            bands[b].push((e + 1e-12).ln());
        }
        f += 1;
    }
    bands
}

fn stoi(clean: &WavAudio, degraded: &WavAudio) -> f64 {
    let n = clean.len().min(degraded.len());
    if n < 512 || clean.sample_rate != degraded.sample_rate {
        return 0.0;
    }
    let x = band_envelopes(&clean.samples[..n], clean.sample_rate);
    let y = band_envelopes(&degraded.samples[..n], degraded.sample_rate);
    let mut total = 0.0f64;
    let mut count = 0usize;
    for (xb, yb) in x.iter().zip(y.iter()) {
        let frames = xb.len().min(yb.len());
        if frames < 6 {
            continue;
        }
        let mut s = 0usize;
        while s < frames {
            let e = (s + 30).min(frames);
            let (xs, ys) = (&xb[s..e], &yb[s..e]);
            let mx = xs.iter().sum::<f64>() / xs.len() as f64;
            let my = ys.iter().sum::<f64>() / ys.len() as f64;
            let (mut num, mut dx, mut dy) = (0.0f64, 0.0f64, 0.0f64);
            for i in 0..xs.len() {
                num += (xs[i] - mx) * (ys[i] - my);
                dx += (xs[i] - mx) * (xs[i] - mx);
                dy += (ys[i] - my) * (ys[i] - my);
            }
            if dx > 1e-9 && dy > 1e-9 {
                total += num / (dx.sqrt() * dy.sqrt());
                count += 1;
            }
            s += 30;
        }
    }
    if count == 0 {
        return 0.0;
    }
    (total / count as f64).clamp(0.0, 1.0)
}

fn tone(freq: f64, ms: f64) -> WavAudio {
    let n = (SAMPLE_RATE as f64 * ms / 1000.0) as usize;
    let samples = (0..n)
        .map(|i| {
            let t = i as f64 / SAMPLE_RATE as f64;
            let harm = (2.0 * PI * freq * t).sin()
                + 0.5 * (4.0 * PI * freq * t).sin()
                + 0.25 * (6.0 * PI * freq * t).sin();
            (harm * 0.35 * i16::MAX as f64) as i16
        })
        .collect();
    WavAudio::new(samples, SAMPLE_RATE)
}

/// Some entries of the CMU pronouncing dictionary.
fn test_g2p() -> G2p {
    G2p::parse(
        ";;; excerpt\n\
         a AH0\na(2) EY1\n\
         brown B R AW1 N\ncat K AE1 T\nfour F AO1 R\nfox F AA1 K S\n\
         hello HH AH0 L OW1\nhello(2) HH EH0 L OW1\n\
         helm HH EH1 L M\nhelmet HH EH1 L M AH0 T\njumps JH AH1 M P S\n\
         q K Y UW1\nquick K W IH1 K\nred R EH1 D\nsat S AE1 T\nsleeps S L IY1 P S\n\
         the DH AH0\nthe(2) DH AH1\ntwo T UW1\nworld W ER1 L D\nx EH1 K S\nz Z IY1\n",
    )
}

fn ingest_text(store: &mut MimicStore, text: &str, g2p: &G2p) {
    let tts = MockTts::new();
    let audio = tts.synthesize(text, "default").unwrap();
    ingest(store, text, &audio, "default", tts.name(), Some(g2p), &Mct).unwrap();
}

// ---- audio and codec ----

#[test]
fn mdct_ola_is_lossless_unquantized() {
    let w = sine_window();
    let sr = 16000usize;
    let n = sr / 4;
    let x: Vec<f64> = (0..n)
        .map(|i| (2.0 * PI * 220.0 * i as f64 / sr as f64).sin() * 0.5)
        .collect();
    let mut out = vec![0.0f64; n + WINDOW];
    for f in 0..frames_for(n) {
        let center = f * FRAME;
        let mut windowed = vec![0.0f64; WINDOW];
        for (i, wv) in windowed.iter_mut().enumerate() {
            let idx = center as i64 + i as i64 - FRAME as i64;
            if idx >= 0 && (idx as usize) < x.len() {
                *wv = x[idx as usize] * w[i];
            }
        }
        let y = imdct(&mdct(&windowed));
        let base = center as i64 - FRAME as i64;
        for (i, v) in y.iter().enumerate() {
            let idx = base + i as i64;
            if idx >= 0 {
                out[idx as usize] += v;
            }
        }
    }
    let mut max_err = 0.0f64;
    for i in 0..n {
        max_err = max_err.max((out[i] - x[i]).abs());
    }
    assert!(max_err < 1e-6, "TDAC reconstruction error {max_err}");
}

#[test]
fn wav_codec_roundtrip() {
    let audio =
        WavAudio::new(vec![0, 1000, -1000, i16::MAX, i16::MIN, 12345, -23456], SAMPLE_RATE);
    let back = parse_wav(&to_wav_bytes(&audio)).unwrap();
    assert_eq!(back, audio);
}

#[test]
fn fades_last_as_long_as_asked_for() {
    // 10 ms at 24 kHz are 240 samples, 50 ms at 16 kHz are 800
    for (rate, ms, fade) in [(24_000u32, 10u32, 240usize), (16_000, 50, 800), (48_000, 10, 480)] {
        let a: Vec<i16> = (0..2_000).map(|i| (i % 700) as i16 * 20).collect();
        let b: Vec<i16> = (0..1_800).map(|i| (i % 500) as i16 * -30).collect();
        let parts = [WavAudio::new(a.clone(), rate), WavAudio::new(b.clone(), rate)];
        let out = splice(&parts, ms, &Cosine).unwrap();
        assert_eq!(out.sample_rate, rate);
        assert_eq!(out.len(), a.len() + b.len() - fade);
        assert_eq!(out.samples[..a.len() - fade], a[..a.len() - fade]);
        assert_eq!(out.samples[a.len()..], b[fade..]);
        for i in 0..fade {
            let t = (i as f64 + 0.5) / fade as f64;
            let g = 0.5 * (1.0 + (PI * t).cos());
            let exact = a[a.len() - fade + i] as f64 * g + b[i] as f64 * (1.0 - g);
            assert_eq!(out.samples[a.len() - fade + i], exact.round() as i16);
        }
    }
}

#[test]
fn splice_length_and_fade() {
    let pure = |freq: f64, ms: f64| {
        let n = (SAMPLE_RATE as f64 * ms / 1000.0) as usize;
        let samples = (0..n)
            .map(|i| {
                let t = i as f64 / SAMPLE_RATE as f64;
                ((2.0 * PI * freq * t).sin() * 0.5 * i16::MAX as f64) as i16
            })
            .collect();
        WavAudio::new(samples, SAMPLE_RATE)
    };
    let a = pure(220.0, 100.0);
    let b = pure(440.0, 100.0);
    let (last, first) = (a.samples[1599 - 79], b.samples[80]);
    let out = splice(&[a, b], 10, &Cosine).unwrap();
    assert_eq!(out.len(), 3200 - 160);
    assert!(out.peak() <= i16::MAX as i32);
    assert!(out.peak() > 0);
    // in the middle of the join the two parts weigh about the same
    let middle = (last as i32 + first as i32) / 2;
    assert!((out.samples[1520] as i32 - middle).abs() <= 200);
}

#[test]
fn codec_roundtrip_keeps_the_length() {
    let a = tone(220.0, 400.0);
    let tokens = Mct.encode(&a);
    let back = Mct.decode(&tokens).unwrap();
    assert_eq!(back.samples.len(), a.samples.len());
    assert_eq!(back.sample_rate, a.sample_rate);
    assert!(back.peak() > 0);
}

#[test]
fn codec_compression_ratio() {
    let mut samples = tone(300.0, 1000.0).samples;
    samples.extend(std::iter::repeat(0).take(SAMPLE_RATE as usize));
    let a = WavAudio::new(samples, SAMPLE_RATE);
    let tokens = Mct.encode(&a);
    let pcm_bytes = 44 + a.samples.len() * 2;
    let ratio = pcm_bytes as f64 / tokens.len() as f64;
    assert!(ratio >= 10.0, "ratio {ratio} ({} -> {} B)", pcm_bytes, tokens.len());
}

#[test]
fn codec_token_surgery() {
    let a = tone(250.0, 300.0);
    let b = tone(350.0, 200.0);
    let ta = Mct.encode(&a);
    let tb = Mct.encode(&b);

    let half = slice_tokens(&ta, Frac { num: 0, den: 1 }, Frac { num: 1, den: 2 }).unwrap();
    let half_dec = Mct.decode(&half).unwrap();
    let expect = frames_for(a.samples.len()) / 2 * FRAME;
    assert!(
        (half_dec.samples.len() as i64 - expect as i64).abs() <= FRAME as i64,
        "sliced len {} vs ~{}",
        half_dec.samples.len(),
        expect
    );

    let cat = concat_tokens(&[&ta, &tb]).unwrap();
    let cat_dec = Mct.decode(&cat).unwrap();
    assert_eq!(cat_dec.samples.len(), a.samples.len() + b.samples.len());
    assert!(cat_dec.peak() > 0);
    assert_eq!(
        token_frames(&cat).unwrap(),
        token_frames(&ta).unwrap() + token_frames(&tb).unwrap()
    );
}

// ---- pronunciation ----

#[test]
fn g2p_dictionary_lookup() {
    let g = test_g2p();
    assert_eq!(
        g.phonemes("hello").unwrap(),
        vec!["HH", "AH0", "L", "OW1"],
        "CMUdict first pronunciation of hello"
    );
    assert_eq!(
        g.phonemes("42").unwrap(),
        vec!["F", "AO1", "R", "T", "UW1"],
        "digits expand via digit words"
    );
    let p = g.phonemes("zzq").unwrap();
    assert!(!p.is_empty());
    assert_eq!(p, vec!["Z", "IY1", "Z", "IY1", "K", "Y", "UW1"]);
    assert_eq!(G2p::base("AH0"), "AH");
}

// ---- the store ----

#[test]
fn store_persists_and_retrieves() {
    let tts = MockTts::new();
    let audio = tts.synthesize("hello", "default").unwrap();
    let mut ms = MimicStore::new();
    let id = ms.insert_unit(
        UnitLevel::Word,
        "hello",
        "hello",
        "default",
        &audio,
        None,
        true,
        None,
        None,
        tts.name(),
    );
    // what is written to disk and read back is the list of nodes
    let saved = match ms.get_node(id) {
        Some(Node::Unit(u)) => Node::Unit(mimic::store::Unit {
            level: u.level,
            text: u.text.clone(),
            phonemes: u.phonemes.clone(),
            voice: u.voice.clone(),
            context_prev: u.context_prev.clone(),
            context_next: u.context_next.clone(),
            cache_domain: u.cache_domain.clone(),
            duration_ms: u.duration_ms,
            sample_rate: u.sample_rate,
            rms: u.rms,
            pitch_hz: u.pitch_hz,
            wav_path: u.wav_path.clone(),
            wav: u.wav.clone(),
            codec: u.codec.clone(),
            frames: u.frames,
            tokens: u.tokens.clone(),
        }),
        _ => panic!("the unit was stored"),
    };
    let ms2 = MimicStore::restore(vec![saved], ms.edges().to_vec());
    assert_eq!(ms2.lookup_exact(UnitLevel::Word, "hello"), &[id]);
    let back = ms2.get_audio(id, &Mct).unwrap();
    assert_eq!(back, audio);
    assert_eq!(ms2.stats(), ms.stats());
}

#[test]
fn phoneme_inventory_stored_with_context() {
    let g = test_g2p();
    let mut ms = MimicStore::new();
    let tts = MockTts::new();
    let audio = tts.synthesize("hello world", "default").unwrap();
    let rep =
        ingest(&mut ms, "hello world", &audio, "default", tts.name(), Some(&g), &Mct).unwrap();

    let expected = g.phonemes("hello").unwrap().len() + g.phonemes("world").unwrap().len();
    assert_eq!(rep.phoneme_units, expected);
    assert!(rep.unresolved_words.is_empty());

    let stats = ms.stats();
    assert_eq!(stats.phonemes, expected);

    let ow = ms.lookup_exact(UnitLevel::Phoneme, "OW1");
    assert_eq!(ow.len(), 1);
    assert_eq!(ms.prop_string(ow[0], "context_next").as_deref(), Some("W"));
    assert_eq!(ms.prop_string(ow[0], "context_prev").as_deref(), Some("L"));

    let w = ms.lookup_exact(UnitLevel::Word, "hello");
    assert_eq!(ms.prop_string(w[0], "phonemes").as_deref(), Some("HH AH0 L OW1"));
}

#[test]
fn diphone_inventory_at_ingest() {
    let mut ms = MimicStore::new();
    let g = test_g2p();
    ingest_text(&mut ms, "hello world", &g);

    let stats = ms.stats();
    assert_eq!(stats.phonemes, 8);
    assert_eq!(stats.diphones, 7);

    let ow_w = ms.lookup_exact(UnitLevel::Diphone, "OW+W");
    assert_eq!(ow_w.len(), 1, "cross-word diphone OW+W");
    assert_eq!(ms.prop_string(ow_w[0], "context_prev").as_deref(), Some("L"));
    assert_eq!(ms.prop_string(ow_w[0], "context_next").as_deref(), Some("ER1"));
    assert_eq!(ms.prop_string(ow_w[0], "phonemes").as_deref(), Some("OW1 W"));
}

#[test]
fn ingesting_without_words_is_refused() {
    let mut ms = MimicStore::new();
    let audio = WavAudio::new(vec![0; 160], SAMPLE_RATE);
    let refused = ingest(&mut ms, " ?! ", &audio, "default", "mock-tts", None, &Mct);
    assert!(matches!(refused, Err(MimicError::NotFound(_))));
    assert_eq!(ms.node_count(), 0);
}

#[test]
fn unresolved_words_are_reported() {
    let g = G2p::parse("hello HH AH0 L OW1\n");
    let mut ms = MimicStore::new();
    let tts = MockTts::new();
    let audio = tts.synthesize("hello zzz", "default").unwrap();
    let rep =
        ingest(&mut ms, "hello zzz", &audio, "default", tts.name(), Some(&g), &Mct).unwrap();
    assert_eq!(rep.unresolved_words, vec!["zzz".to_string()]);
    assert_eq!(rep.phrase_units, 1);
    assert_eq!(rep.word_units, 2);
    assert_eq!(rep.phoneme_units, 4);
}

#[test]
fn plain_ingest_keeps_wavs_and_no_sounds() {
    let mut ms = MimicStore::new();
    let tts = MockTts::new();
    let audio = tts.synthesize("hello world", "default").unwrap();
    ingest_with_options(
        &mut ms,
        "hello world",
        &audio,
        "default",
        tts.name(),
        &IngestOptions::v1(),
        Some(&test_g2p()),
        &Mct,
    )
    .unwrap();
    let s = ms.stats();
    assert_eq!((s.phrases, s.words, s.phonemes, s.diphones), (1, 2, 0, 0));
    let phrase = ms.lookup_exact(UnitLevel::Phrase, "hello world")[0];
    assert_eq!(ms.get_audio(phrase, &Mct).unwrap(), audio);
    assert!(matches!(ms.get_tokens(phrase), Err(MimicError::NotFound(_))));
}

// ---- alignment ----

#[test]
fn alignment_gate_small_sample() {
    let templates = vec![
        "your code is {n}".to_string(),
        "the number is {n}".to_string(),
        "order {n} is ready".to_string(),
    ];
    let clips = expand_templates(&templates);
    assert_eq!(clips.len(), 39);
    let tts = MockTts::new();
    let errs = boundary_errors(&tts, &clips, AlignMode::default()).unwrap();
    let base = boundary_errors(&tts, &clips, AlignMode::Proportional).unwrap();
    assert!(!errs.is_empty());
    let mut sorted = errs.clone();
    sorted.sort();
    let median = sorted[sorted.len() / 2];
    let mut b_sorted = base.clone();
    b_sorted.sort();
    let b_median = b_sorted[b_sorted.len() / 2];
    assert!(
        median < 20_000_000,
        "energy-refined median {median} ns must be < 20 ms (baseline {b_median} ns)"
    );
    assert!(
        median <= b_median,
        "refined ({median}) should not be worse than proportional ({b_median})"
    );
}

// ---- composing ----

#[test]
fn compose_reuses_cache_and_synthesizes_only_misses() {
    let mut ms = MimicStore::new();
    let tts1 = MockTts::new();
    let full = tts1.synthesize("the quick brown fox jumps", "default").unwrap();
    ingest(&mut ms, "the quick brown fox jumps", &full, "default", tts1.name(), None, &Mct)
        .unwrap();

    let tts2 = MockTts::new();
    let (out, report) = compose(
        &mut ms,
        &tts2,
        "the quick red fox jumps",
        "default",
        None,
        &Mct,
        &Cosine,
    )
    .unwrap();

    assert_eq!(tts2.asked().as_slice(), &["red".to_string()]);
    assert_eq!(report.tts_calls, vec!["red".to_string()]);
    assert_eq!(report.generated_chars, 3);
    assert_eq!(report.cached_chars, 16);
    assert!(number(report.cache_hit_pct()) > 80.0);

    let part_lens: usize = ["the", "quick", "red", "fox", "jumps"]
        .iter()
        .map(|w| {
            let id = ms.lookup_exact(UnitLevel::Word, w)[0];
            ms.get_audio(id, &Mct).unwrap().len()
        })
        .sum();
    let fade = (SAMPLE_RATE as usize) * 10 / 1000;
    let expected = part_lens - 4 * fade;
    let diff = (out.len() as i64 - expected as i64).abs();
    assert!(diff <= 2, "len={} expected={expected}", out.len());
    assert!(out.peak() <= i16::MAX as i32, "no clipping");
    assert!(out.peak() > 0, "not silent");
}

#[test]
fn morpheme_fallback_segments_cached_word() {
    let mut ms = MimicStore::new();
    let tts = MockTts::new();
    let audio = tts.synthesize("running", "default").unwrap();
    let full_len = audio.len();
    ingest(&mut ms, "running", &audio, "default", tts.name(), None, &Mct).unwrap();

    let tts2 = MockTts::new();
    let (out, report) =
        compose(&mut ms, &tts2, "run", "default", None, &Mct, &Cosine).unwrap();

    assert!(tts2.asked().is_empty(), "no synthesis expected");
    assert!(
        report.hits.iter().any(|(t, l)| t == "run" && *l == UnitLevel::Morpheme),
        "expected a morpheme hit: {:?}",
        report.hits
    );
    let expected = full_len as f64 * 3.0 / 7.0;
    let diff = (out.len() as f64 - expected).abs() / expected;
    assert!(diff < 0.02, "len={} expected~{expected:.0}", out.len());
}

#[test]
fn composed_words_are_cached_for_the_next_request() {
    let mut ms = MimicStore::new();
    let first = MockTts::new();
    compose(&mut ms, &first, "two red cats", "default", None, &Mct, &Cosine).unwrap();
    assert_eq!(first.asked(), vec!["two red cats".to_string()]);
    let second = MockTts::new();
    let (_, rep) =
        compose(&mut ms, &second, "two red cats", "default", None, &Mct, &Cosine).unwrap();
    assert!(second.asked().is_empty());
    assert_eq!(rep.generated_chars, 0);
    assert_eq!(rep.cached_chars + rep.generated_chars, rep.total_chars);
}

#[test]
fn runs_of_misses_are_asked_for_together() {
    let mut ms = MimicStore::new();
    let g = test_g2p();
    ingest_text(&mut ms, "fox", &g);
    let tts = MockTts::new();
    let (_, rep) =
        compose(&mut ms, &tts, "two red fox sat", "default", Some(&g), &Mct, &Cosine).unwrap();
    assert_eq!(tts.asked(), vec!["two red".to_string(), "sat".to_string()]);
    assert_eq!(rep.cached_chars, 3);
    assert_eq!(rep.generated_chars, 9);
}

#[test]
fn whole_phrases_are_played_back() {
    let mut ms = MimicStore::new();
    let g = test_g2p();
    ingest_text(&mut ms, "hello world", &g);
    let tts = MockTts::new();
    let (_, rep) =
        compose(&mut ms, &tts, "hello world!", "default", Some(&g), &Mct, &Cosine)
            .unwrap();
    assert!(tts.asked().is_empty());
    assert_eq!(rep.hits, vec![("hello world".to_string(), UnitLevel::Phrase)]);
}

#[test]
fn ingested_texts_play_back() {
    let mut ms = MimicStore::new();
    let g = test_g2p();
    let tts = MockTts::new();
    let audio = tts.synthesize("the red fox sat", "default").unwrap();
    ingest_with_options(
        &mut ms,
        "The red fox sat.",
        &audio,
        "default",
        tts.name(),
        &IngestOptions::v1(),
        Some(&g),
        &Mct,
    )
    .unwrap();
    let nodes = ms.node_count();
    let (greedy, rep) =
        compose(&mut ms, &Offline, "the red fox sat", "default", Some(&g), &Mct, &Cosine).unwrap();
    assert_eq!(greedy, audio);
    assert_eq!(rep.hits, vec![("the red fox sat".to_string(), UnitLevel::Phrase)]);
    let (selected, rep) =
        compose_v3(&mut ms, &Offline, "the red fox sat", "default", Some(&g), &Mct, &Cosine)
            .unwrap();
    assert_eq!(selected, audio);
    assert!(rep.tts_calls.is_empty());
    assert_eq!(ms.node_count(), nodes);
}

#[test]
fn composing_only_adds_to_the_cache() {
    let mut ms = MimicStore::new();
    let g = test_g2p();
    ingest_text(&mut ms, "the cat", &g);
    let before: Vec<Option<String>> =
        (0..ms.node_count() as u64).map(|i| ms.get_text(NodeId(i))).collect();
    compose_v3(&mut ms, &MockTts::new(), "the red cat", "default", Some(&g), &Mct, &Cosine)
        .unwrap();
    assert!(ms.node_count() > before.len());
    for (i, text) in before.iter().enumerate() {
        assert_eq!(&ms.get_text(NodeId(i as u64)), text);
    }
    assert_eq!(ms.lookup_exact(UnitLevel::Word, "red").len(), 1);
}

#[test]
fn nothing_to_say_and_nobody_to_say_it() {
    let mut ms = MimicStore::new();
    let empty = compose(&mut ms, &Offline, "?!", "default", None, &Mct, &Cosine);
    assert!(matches!(empty, Err(MimicError::NotFound(_))));
    let down = compose(&mut ms, &Offline, "hello", "default", None, &Mct, &Cosine);
    assert!(matches!(down, Err(MimicError::Io(_))));
    assert_eq!(ms.node_count(), 0);
}

#[test]
fn viterbi_prefers_word_hits_and_synthesizes_only_misses() {
    let mut ms = MimicStore::new();
    let g = test_g2p();
    ingest_text(&mut ms, "the quick brown fox jumps", &g);

    let tts = MockTts::new();
    let (_out, report) = compose_v3(
        &mut ms,
        &tts,
        "the quick red fox jumps",
        "default",
        Some(&g),
        &Mct,
        &Cosine,
    )
    .unwrap();
    assert_eq!(tts.asked().as_slice(), &["red".to_string()]);
    let levels: Vec<UnitLevel> = report.hits.iter().map(|(_, l)| *l).collect();
    assert_eq!(
        levels,
        vec![UnitLevel::Word, UnitLevel::Word, UnitLevel::Word, UnitLevel::Word],
        "known words resolve at word level: {:?}",
        report.hits
    );
    assert!(report.cached_chars > 0);
}

#[test]
fn viterbi_uses_diphone_chain_for_oov_word() {
    let mut ms = MimicStore::new();
    let g = test_g2p();
    ingest_text(&mut ms, "helmet", &g);

    let tts = MockTts::new();
    let (_out, report) =
        compose_v3(&mut ms, &tts, "helm", "default", Some(&g), &Mct, &Cosine).unwrap();
    assert!(tts.asked().is_empty(), "no synthesis expected");
    assert!(
        report.hits.iter().any(|(t, l)| t == "helm" && *l == UnitLevel::Diphone),
        "expected diphone hit: {:?}",
        report.hits
    );
}

#[test]
fn viterbi_falls_back_to_synth_for_novel_phonemes() {
    let mut ms = MimicStore::new();
    let g = test_g2p();
    ingest_text(&mut ms, "hello", &g);

    let tts = MockTts::new();
    let (_out, report) =
        compose_v3(&mut ms, &tts, "xqz", "default", Some(&g), &Mct, &Cosine).unwrap();
    assert_eq!(tts.asked().as_slice(), &["xqz".to_string()]);
    assert!(report.generated_chars > 0);
}

#[test]
fn viterbi_selects_context_matching_variant() {
    let mut ms = MimicStore::new();
    let g = test_g2p();
    ingest_text(&mut ms, "the cat sat", &g);
    ingest_text(&mut ms, "a cat sleeps", &g);

    let cats: Vec<NodeId> = ms.lookup_exact(UnitLevel::Word, "cat").to_vec();
    assert_eq!(cats.len(), 2);
    let (cat_after_the, cat_after_a) = (cats[0], cats[1]);
    assert_eq!(ms.prop_string(cat_after_the, "context_prev").as_deref(), Some("the"));
    assert_eq!(ms.prop_string(cat_after_a, "context_prev").as_deref(), Some("a"));

    let tts = MockTts::new();
    let (_out, report) = compose_v3(
        &mut ms,
        &tts,
        "the cat sleeps",
        "default",
        Some(&g),
        &Mct,
        &Cosine,
    )
    .unwrap();
    assert!(tts.asked().is_empty());
    assert!(
        report.units.contains(&cat_after_the),
        "expected the context-matching cat variant in {:?}",
        report.units
    );
    assert!(
        !report.units.contains(&cat_after_a),
        "the mismatched variant should not be selected"
    );
}

#[test]
fn token_compose_covers_what_pcm_compose_does() {
    let mut ms = MimicStore::new();
    let g = test_g2p();
    let tts = MockTts::new();
    let audio = tts.synthesize("the quick brown fox jumps", "default").unwrap();
    ingest(&mut ms, "the quick brown fox jumps", &audio, "default", tts.name(), Some(&g), &Mct)
        .unwrap();

    let first = ms.lookup_exact(UnitLevel::Word, "quick")[0];
    assert!(ms.get_tokens(first).is_ok());
    // no wav is kept for the unit
    assert_eq!(ms.prop_string(first, "wav_path").as_deref(), Some(""));
    assert!(!ms.get_audio(first, &Mct).unwrap().is_empty());

    let tts2 = MockTts::new();
    let (out, report) = compose_v3_with_medium(
        &mut ms,
        &tts2,
        "the quick red fox jumps",
        "default",
        Some(&g),
        Medium::Tokens,
        &Mct,
        &Cosine,
    )
    .unwrap();
    assert_eq!(tts2.asked().as_slice(), &["red".to_string()]);
    assert_eq!(report.generated_chars, 3);
    assert_eq!(report.cached_chars, 16);
    assert!(out.peak() > 0);
}

#[test]
fn served_requests_reuse_the_cache() {
    let mut ms = MimicStore::new();
    let g = G2p::from_str("hello HH AH0 L OW1\nworld W ER1 L D\nred R EH1 D\n");
    ingest_text(&mut ms, "hello world", &g);

    let tts = MockTts::new();
    let (audio, rep) = compose_ssml(
        &mut ms,
        &tts,
        Some(&g),
        "hello red world",
        "default",
        &Mct,
        &Cosine,
    )
    .unwrap();
    assert!(to_wav_bytes(&audio).starts_with(b"RIFF"));
    assert!(number(rep.cache_hit_pct()) > 50.0);
    assert_eq!(tts.asked(), vec!["red".to_string()]);

    let (pieces, rep2) = compose_ssml(
        &mut ms,
        &tts,
        Some(&g),
        "<speak>hello <break time=\"100ms\"/> world</speak>",
        "default",
        &Mct,
        &Cosine,
    )
    .unwrap();
    assert_eq!(rep2.total_chars, 10);
    assert_eq!(rep2.generated_chars, 0);
    assert!(pieces.len() > 1600);
}

// ---- evaluation ----

fn support() -> String {
    (0..14).map(|i| format!("head phrase number {i} for support\n")).collect()
}

#[test]
fn replay_smoke() {
    let corpora = vec![
        read_corpus("long_tail", "unique tail one\ntail two here\n"),
        read_corpus("support_repetitive", &support()),
    ];
    let g = G2p::from_str("head HH EH1 D\nphrase F R EY1 Z\nnumber N AH1 M B ER0\nfor F AO1 R\nsupport S AH0 P AO1 R T\nunique Y UW0 N IY1 K\ntail T EY1 L\none W AH1 N\ntwo T UW1\nhere HH IY1 R\n");
    let rep =
        run_replay(&corpora, &g, 120, "openai-tts", &MockTts::new(), &Mct, &Cosine).unwrap();
    assert!(
        number(rep.coverage_pct) >= 80.0,
        "coverage {} (gen {} of {})",
        number(rep.coverage_pct),
        rep.generated_chars,
        rep.total_chars
    );
    assert_eq!(rep.requests, 120);
    assert!(rep.p99 > 0);
    assert!(rep.simulated_cloud_p99 > rep.mock_direct_p99);
    assert!(number(rep.est_cost) <= number(rep.always_cloud_cost));
    assert!(number(rep.always_cloud_cost) > 0.0);
}

#[test]
fn eval_harness_smoke() {
    let corpora = vec![
        read_corpus("alignment_templates", "code {n} now\nthe total is {n}\n"),
        read_corpus(
            "long_tail",
            "tail one here\ntail two here\ntail four here\ntail three here\ntail four here\n",
        ),
        read_corpus(
            "mini",
            "thank you for calling\nyour order is ready\nhow can i help\nplease hold on\nthank you\nyour code is 123\n",
        ),
        read_corpus("support_repetitive", &support()),
    ];
    let g = test_g2p();
    let tts = MockTts::new();
    let mut report = EvalReport::new();
    for mode in modes() {
        let dict = if mode.with_dictionary { Some(&g) } else { None };
        let mut store = MimicStore::new();
        for corpus in &corpora {
            if !is_swept(&corpus.name) {
                continue;
            }
            let lines = split_lines_by_fifth(&corpus.utterances, false);
            let unresolved = train(&mut store, &tts, &lines, &mode.opts, dict, &Mct).unwrap();
            let mut tally = RowTally::new();
            for line in split_lines_by_fifth(&corpus.utterances, true) {
                let (audio, rep) =
                    compose_in(mode.compose_mode, &mut store, &tts, &line, dict, &Mct, &Cosine)
                        .unwrap();
                tally.add(&rep, &audio, 1_000_000);
                if RowTally::is_measured(mode.compose_mode, &rep) {
                    let reference = tts.synthesize(&line, "default").unwrap();
                    tally.measure(signed(stoi(&reference, &audio)), signed(1.0));
                }
            }
            let total = store.stats().total_nodes;
            let storage = store.codec_storage();
            report.rows.push(tally.row(&mode, &corpus.name, unresolved, total, storage));
        }
    }
    let templates = &corpora[find_corpus(&corpora, "alignment_templates")].utterances;
    let clips = expand_templates(templates);
    let errs = boundary_errors(&tts, &clips, AlignMode::default()).unwrap();
    let base = boundary_errors(&tts, &clips, AlignMode::Proportional).unwrap();
    report.boundary = boundary_stats(clips.len(), &errs, &base);
    report.notes = write_notes(true, true, &External::Skipped);

    for mode in ["v1-baseline", "p1-legacy", "p3-legacy", "p4-current"] {
        assert!(report.rows.iter().any(|r| r.mode == mode && r.corpus == "mini"));
    }
    assert_eq!(report.boundary.clips, 26);
    assert!(report.boundary.boundaries > 0);

    let gate = check_gates(&report, None);
    assert!(!gate.messages.is_empty());
    assert!(gate.messages.iter().any(|message| message.contains("boundary")));
    assert!(gate.messages.iter().any(|message| message.contains("codec")));

    let md = to_markdown(&report);
    assert!(md.contains("v1-baseline"));
    let js = to_json(&report);
    assert!(js.contains("\"p4-current\""));
}

// ---- plans ----

/// What the links of a plan lead to.
fn fetched(artifacts: &[(String, Vec<u8>)], response: &PlanResponse) -> Vec<Fetched> {
    response
        .spans
        .iter()
        .map(|span| {
            match span
                .link
                .as_ref()
                .and_then(|l| artifacts.iter().find(|(name, _)| l.ends_with(name.as_str())))
            {
                Some((_, bytes)) => Fetched::Bytes(bytes.clone()),
                None => Fetched::Failed("no such file".to_string()),
            }
        })
        .collect()
}

fn request(voice: &str) -> PlanRequest {
    PlanRequest {
        text: "hello world".to_string(),
        voice_id: voice.to_string(),
        model_id: "model".to_string(),
        settings_key: "settings".to_string(),
    }
}

#[test]
fn injected_span_is_persisted_and_reused_by_voice() {
    let mut store = MimicStore::new();
    let mut plans = PlanManager::new("/run/plans".to_string(), "/var/objects".to_string());
    let draft = plans.create(&store, request("voice-a"), 1_000, 7, &Mct).unwrap();
    let plan = plans.commit(draft);
    assert_eq!(plan.missing_chars, 10);
    let tts = MockTts::new();
    let audio = tts.synthesize("hello world", "voice-a").unwrap();
    let pcm: Vec<u8> = audio.samples.iter().flat_map(|s| s.to_le_bytes()).collect();
    plans.inject_pcm(&plan.plan_id, &plan.spans[0].span_id, &pcm, 1_001).unwrap();
    let g2p = G2p::parse("hello HH AH0 L OW1\nworld W ER1 L D\n");
    let none = fetched(&[], &plan);
    let (out, _) = plans
        .compose(&mut store, &g2p, &plan.plan_id, true, &none, 1_002, 1_002, &Mct, &Cosine)
        .unwrap();
    assert_eq!(out, audio, "all-miss compose must be lossless");
    assert!(stoi(&audio, &out) >= 0.999);

    let draft = plans.create(&store, request("voice-a"), 1_003, 7, &Mct).unwrap();
    let artifacts: Vec<(String, Vec<u8>)> =
        draft.artifacts.iter().map(|a| (a.link.clone(), a.bytes.clone())).collect();
    let reused = plans.commit(draft);
    assert!(reused.cached_chars > 0);
    assert!(reused.spans.iter().any(|span| span.link.is_some()));
    let files = fetched(&artifacts, &reused);
    let (cached, _) = plans
        .compose(&mut store, &g2p, &reused.plan_id, false, &files, 1_004, 1_004, &Mct, &Cosine)
        .unwrap();
    assert!(
        stoi(&audio, &cached) >= 0.95,
        "lossless cache recomposition must satisfy the production STOI gate"
    );

    let draft = plans.create(&store, request("voice-b"), 1_005, 7, &Mct).unwrap();
    let other_voice = plans.commit(draft);
    assert_eq!(other_voice.cached_chars, 0);
}

/// Plans a text in voice "a", brings its audio, and composes the plan.
fn bring(store: &mut MimicStore, text: &str, persist: bool) {
    let mut plans = PlanManager::new("/run/plans".to_string(), "/var/objects".to_string());
    let wanted = PlanRequest { text: text.to_string(), ..request("a") };
    let draft = plans.create(store, wanted, 1_000, 7, &Mct).unwrap();
    let plan = plans.commit(draft);
    let audio = MockTts::new().synthesize(text, "a").unwrap();
    let pcm: Vec<u8> = audio.samples.iter().flat_map(|s| s.to_le_bytes()).collect();
    plans.inject_pcm(&plan.plan_id, "span-0000", &pcm, 1_001).unwrap();
    let (id, none) = (&plan.plan_id, fetched(&[], &plan));
    let (out, response) = plans
        .compose(store, &test_g2p(), id, persist, &none, 1_002, 1_002, &Mct, &Cosine)
        .unwrap();
    assert_eq!(out, audio);
    assert_eq!(response, plan);
}

#[test]
fn what_is_brought_is_kept_where_asked_for() {
    let mut store = MimicStore::new();
    bring(&mut store, "red", false);
    assert_eq!(store.node_count(), 0);
    bring(&mut store, "red", true);
    assert!(store.node_count() > 0);
}

#[test]
fn manifests_account_for_their_text() {
    let mut store = MimicStore::new();
    bring(&mut store, "red", true);
    bring(&mut store, "fox", true);
    let mut plans = PlanManager::new("/run/plans".to_string(), "/var/objects".to_string());
    let text = "The quick RED fox, don't stop!".to_string();
    let draft = plans.create(&store, PlanRequest { text, ..request("a") }, 1_020, 7, &Mct).unwrap();
    let plan = plans.commit(draft);
    let texts: Vec<String> = plan.spans.iter().map(|s| s.text.clone()).collect();
    assert_eq!(texts, vec!["the quick", "red", "fox", "don't stop"]);
    assert_eq!(texts.join(" "), normalize("The quick RED fox, don't stop!"));
    let kinds: Vec<&str> = plan.spans.iter().map(|s| s.kind.as_str()).collect();
    assert_eq!(kinds, vec!["missing", "cached", "cached", "missing"]);
    for (i, span) in plan.spans.iter().enumerate() {
        assert_eq!(span.span_id, format!("span-{i:04}"));
        assert_eq!(span.link.is_some(), span.kind == "cached");
        assert_eq!(span.node_id.is_some(), span.kind == "cached");
        assert_eq!(span.sha256.is_some(), span.kind == "cached");
        assert_eq!(span.bytes > 0, span.kind == "cached");
    }
    assert_eq!((plan.total_chars, plan.cached_chars, plan.missing_chars), (23, 6, 17));
    let bytes: u64 = plan.spans.iter().map(|s| s.bytes).sum();
    assert_eq!(plan.estimated_storage_bytes, 3_200 * 17);
    assert_eq!(plan.estimated_ram_bytes, 16_777_216 + bytes + 6_400 * 17);
    assert_eq!(plan.expires_at, 1_080);
}

#[test]
fn hits_say_what_was_asked_for() {
    let g = test_g2p();
    let mut ms = MimicStore::new();
    let tts = MockTts::new();
    let audio = tts.synthesize("the red fox", "default").unwrap();
    ingest(&mut ms, "The red FOX!", &audio, "default", tts.name(), Some(&g), &Mct).unwrap();
    for text in ["the red fox", "So the red fox sat; the fox", "Run, red dog", "fox"] {
        let (_, rep) =
            compose(&mut ms, &tts, text, "default", Some(&g), &Mct, &Cosine).unwrap();
        let said: Vec<String> = rep.hits.iter().map(|(t, _)| t.clone()).collect();
        assert_eq!(said.join(" "), normalize(text));
        assert_eq!(rep.cached_chars + rep.generated_chars, rep.total_chars);
    }
    assert_eq!(
        tts.calls.lock().unwrap().as_slice(),
        &["the red fox", "so", "sat", "run", "dog"].map(str::to_string)
    );
}

#[test]
fn levels_and_pitches_are_told() {
    let mut ms = MimicStore::new();
    let samples = (0..160).map(|i| if i % 8 < 4 { 16_384 } else { -16_384 }).collect();
    let audio = WavAudio::new(samples, SAMPLE_RATE);
    let id = ms.insert_unit(
        UnitLevel::Word,
        "buzz",
        "buzz",
        "default",
        &audio,
        None,
        true,
        None,
        None,
        "mock",
    );
    assert_eq!(ms.prop_string(id, "rms"), Some("0.5".to_string()));
    // 39 of 159 neighbours cross zero
    assert_eq!(ms.prop_string(id, "pitch_hz"), Some(format!("{}", 39.0 / 159.0 * 16000.0 / 2.0)));
    let dna = ms.add_voice_dna("default", &audio, "mock");
    assert_eq!(ms.prop_string(dna, "rms"), Some("0.5".to_string()));
    assert_eq!(ms.prop_string(dna, "pitch_hz"), None);
}

#[test]
fn plans_expire_and_leave_their_directories_behind() {
    let store = MimicStore::new();
    let mut plans = PlanManager::new("/run/plans".to_string(), "/var/objects".to_string());
    let draft = plans.create(&store, request("voice-a"), 1_000, 7, &Mct).unwrap();
    let plan = plans.commit(draft);
    assert!(plans.response(&plan.plan_id).is_some());
    assert_eq!(plan.expires_at, 1_060);
    plans.reap(plan.expires_at);
    assert!(plans.response(&plan.plan_id).is_some());
    plans.reap(plan.expires_at + 1);
    assert!(plans.response(&plan.plan_id).is_none());
    assert_eq!(plans.take_retired(), vec![plan.manifest_dir.clone()]);
    assert!(plans.take_retired().is_empty());
    assert!(!plans.cancel(&plan.plan_id));
}

#[test]
fn cancelled_plans_are_gone() {
    let store = MimicStore::new();
    let mut plans = PlanManager::new("/run/plans".to_string(), "/var/objects".to_string());
    let draft = plans.create(&store, request("voice-a"), 1_000, 7, &Mct).unwrap();
    let plan = plans.commit(draft);
    assert!(plans.cancel(&plan.plan_id));
    assert!(plans.response(&plan.plan_id).is_none());
    let late = plans.inject_pcm(&plan.plan_id, &plan.spans[0].span_id, &[0, 0], 1_001);
    assert!(matches!(late, Err(MimicError::NotFound(_))));
}

#[test]
fn bad_audio_is_not_injected() {
    let store = MimicStore::new();
    let mut plans = PlanManager::new("/run/plans".to_string(), "/var/objects".to_string());
    let draft = plans.create(&store, request("voice-a"), 1_000, 7, &Mct).unwrap();
    let plan = plans.commit(draft);
    let span = plan.spans[0].span_id.clone();
    assert!(matches!(
        plans.inject_pcm(&plan.plan_id, &span, &[1, 2, 3], 1_001),
        Err(MimicError::Wav(_))
    ));
    plans.inject_pcm(&plan.plan_id, &span, &[1, 2], 1_001).unwrap();
    plans.inject_pcm(&plan.plan_id, &span, &[1, 2], 1_001).unwrap();
    assert!(matches!(
        plans.inject_pcm(&plan.plan_id, &span, &[2, 2], 1_001),
        Err(MimicError::Wav(_))
    ));
    assert!(matches!(
        plans.inject_pcm(&plan.plan_id, "no-such-span", &[1, 2], 1_001),
        Err(MimicError::NotFound(_))
    ));
}

#[test]
fn plans_without_their_audio_do_not_compose() {
    let mut store = MimicStore::new();
    let mut plans = PlanManager::new("/run/plans".to_string(), "/var/objects".to_string());
    let g2p = test_g2p();
    let draft = plans.create(&store, request("voice-a"), 1_000, 7, &Mct).unwrap();
    let plan = plans.commit(draft);
    let none = fetched(&[], &plan);
    assert!(plans
        .compose(&mut store, &g2p, &plan.plan_id, true, &none, 1_001, 1_001, &Mct, &Cosine)
        .is_err());
    assert_eq!(store.node_count(), 0);
    assert!(matches!(
        plans.compose(&mut store, &g2p, "no-such-plan", true, &none, 1_001, 1_001, &Mct, &Cosine),
        Err(MimicError::NotFound(_))
    ));
}

#[test]
fn changed_files_are_refused() {
    let mut store = MimicStore::new();
    let mut plans = PlanManager::new("/run/plans".to_string(), "/var/objects".to_string());
    let g2p = test_g2p();
    let tts = MockTts::new();
    let audio = tts.synthesize("hello world", "voice-a").unwrap();
    let pcm: Vec<u8> = audio.samples.iter().flat_map(|s| s.to_le_bytes()).collect();
    let draft = plans.create(&store, request("voice-a"), 1_000, 7, &Mct).unwrap();
    let plan = plans.commit(draft);
    plans.inject_pcm(&plan.plan_id, &plan.spans[0].span_id, &pcm, 1_001).unwrap();
    let none = fetched(&[], &plan);
    plans
        .compose(&mut store, &g2p, &plan.plan_id, true, &none, 1_002, 1_002, &Mct, &Cosine)
        .unwrap();

    let draft = plans.create(&store, request("voice-a"), 1_003, 7, &Mct).unwrap();
    let mut artifacts: Vec<(String, Vec<u8>)> =
        draft.artifacts.iter().map(|a| (a.link.clone(), a.bytes.clone())).collect();
    artifacts[0].1[50] ^= 1;
    let reused = plans.commit(draft);
    let files = fetched(&artifacts, &reused);
    assert!(plans
        .compose(&mut store, &g2p, &reused.plan_id, false, &files, 1_004, 1_004, &Mct, &Cosine)
        .is_err());
}

#[test]
fn requests_tokenize_like_the_cache() {
    assert_eq!(tokenize("Don't  STOP, now!"), vec!["don't", "stop", "now"]);
}
