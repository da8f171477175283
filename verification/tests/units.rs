//! Texts, words, sounds and samples: the small pieces.

use mimic::align::{phoneme_spans, word_spans, AlignMode, Span};
use mimic::audio::{
    parse_wav, seam_discontinuity, splice, to_wav_bytes, WavAudio,
};
use mimic::codec::{
    concat_tokens, decode_frame, encode_frame, frames_for, parse_stream, slice_tokens,
    token_frames, Frame, MctStream, MimicMct,
};
use mimic::double::Double;
use mimic::fade::{mix, FadeCurve};
use mimic::features::{fnv, trigram_counts};
use mimic::frac::Frac;
use mimic::g2p::G2p;
use mimic::measure::integer_sqrt;
use mimic::store::{MimicStore, NodeId};
use mimic::text::{replace_all, split_lines, split_words};
use mimic::tts::{mock_word_spans, word_duration_ms, word_pitch};
use mimic::units::{morpheme_candidates, normalize, tokenize, UnitLevel};
use mimic::{MimicError, SAMPLE_RATE};

fn wav_problem<T>(r: Result<T, MimicError>) -> String {
    match r {
        Err(MimicError::Wav(m)) => m,
        _ => panic!("expected malformed audio"),
    }
}

// ---- texts ----

#[test]
fn normalization_collapses_spaces() {
    assert_eq!(normalize("  Hello,   World! "), "hello world");
}

#[test]
fn normalization_keeps_apostrophes_within_words() {
    assert_eq!(normalize("'Don't' -- STOP'"), "don't stop");
    assert_eq!(normalize("\u{c9}T\u{c9} 42"), "\u{e9}t\u{e9} 42");
    assert_eq!(normalize("?!"), "");
    assert_eq!(normalize(&normalize("It's 5 o'clock...")), "it's 5 o'clock");
    assert_eq!(tokenize("one\u{2003}two\tthree"), vec!["one", "two", "three"]);
}

#[test]
fn white_space_is_a_short_list() {
    let listed = [
        '\t', '\n', '\u{b}', '\u{c}', '\r', ' ', '\u{85}', '\u{a0}', '\u{1680}', '\u{2000}',
        '\u{2001}', '\u{2002}', '\u{2003}', '\u{2004}', '\u{2005}', '\u{2006}', '\u{2007}',
        '\u{2008}', '\u{2009}', '\u{200a}', '\u{2028}', '\u{2029}', '\u{202f}', '\u{205f}',
        '\u{3000}',
    ];
    let found: Vec<char> = ('\0'..=char::MAX).filter(|c| c.is_whitespace()).collect();
    assert_eq!(found, listed);
    for c in listed {
        assert!(!c.is_alphanumeric());
        assert_eq!(split_words(&format!("a{c}b")), vec!["a", "b"]);
        assert_eq!(tokenize(&format!("A{c}b")), vec!["a", "b"]);
    }
}

#[test]
fn tokens_spell_the_normal_form() {
    for text in [
        "",
        " \u{2014} ?!",
        "Hello,   World! ",
        "'Don't' -- STOP'",
        "rock 'n' roll",
        "\u{c9}t\u{e9}\u{3000}\u{4e2d}\u{6587} 42%",
        "\u{130}stanbul \u{3a3}\u{391}\u{3a3}",
        "a''b c'd'e",
    ] {
        let tokens = tokenize(text);
        let normal = normalize(text);
        assert_eq!(tokens.join(" "), normal);
        assert!(tokens.iter().all(|t| !t.is_empty() && !t.contains(char::is_whitespace)));
        assert_eq!(tokens.is_empty(), !text.to_lowercase().contains(char::is_alphanumeric));
        assert_eq!(normalize(&normal), normal);
        let chars: Vec<char> = normal.chars().collect();
        for (i, c) in chars.iter().enumerate() {
            let between = 0 < i
                && i + 1 < chars.len()
                && chars[i - 1].is_alphanumeric()
                && chars[i + 1].is_alphanumeric();
            assert!(c.is_alphanumeric() || ((*c == ' ' || *c == '\'') && between));
        }
    }
}

#[test]
fn levels_have_names() {
    for level in [
        UnitLevel::Phrase,
        UnitLevel::Word,
        UnitLevel::Morpheme,
        UnitLevel::Diphone,
        UnitLevel::Phoneme,
    ] {
        assert_eq!(UnitLevel::from_str(level.as_str()), Ok(level));
    }
    assert_eq!(
        UnitLevel::from_str("syllable"),
        Err("unknown unit level: syllable".to_string())
    );
}

#[test]
fn stems_are_looked_for_in_longer_words() {
    let words: Vec<String> = morpheme_candidates("run").into_iter().map(|c| c.word).collect();
    assert_eq!(
        words,
        vec!["runs", "runes", "runed", "rund", "runing", "running", "unrun"]
    );
    let make = morpheme_candidates("make");
    assert_eq!(make[5].word, "making");
    assert_eq!((make[5].from, make[5].to), (Frac { num: 0, den: 1 }, Frac { num: 4, den: 6 }));
    assert_eq!(make[6].word, "unmake");
    assert_eq!((make[6].from, make[6].to), (Frac { num: 2, den: 6 }, Frac { num: 1, den: 1 }));
}

#[test]
fn small_texts_are_taken_apart() {
    assert_eq!(split_words(" a  b\n"), vec!["a", "b"]);
    assert_eq!(split_words("a\u{2003}b\u{a0}c\u{200b}d"), vec!["a", "b", "c\u{200b}d"]);
    assert_eq!(split_lines("a\r\nb\n\nc"), vec!["a", "b", "", "c"]);
    assert_eq!(replace_all("aXbXX", "X", "yy"), "ayybyyyy");
}

#[test]
fn hashes_are_fnv() {
    assert_eq!(fnv(""), 0x811c_9dc5);
    assert_eq!(fnv("a"), 3_826_002_220);
    assert_eq!(fnv("foobar"), 0xbf9c_f968);
}

#[test]
fn trigrams_are_counted_with_their_sign() {
    let v = trigram_counts("Hi!");
    assert_eq!(v.len(), 56);
    for (i, x) in v.iter().enumerate() {
        assert_eq!(*x, if i == 4 || i == 22 { 1 } else { 0 });
    }
}

#[test]
fn messages_say_what_to_do() {
    assert_eq!(
        MimicError::Io("gone".to_string()).message(),
        "io error: gone; check the path and retry"
    );
    assert_eq!(
        MimicError::Store("bad".to_string()).message(),
        "padagonia store error: bad; validate the store and retry"
    );
    assert_eq!(
        MimicError::Wav("bad".to_string()).message(),
        "wav error: bad; provide 16 kHz mono PCM and retry"
    );
    assert_eq!(
        MimicError::NotFound("x".to_string()).message(),
        "not found: x; create a new plan and retry"
    );
    assert_eq!(
        MimicError::SampleRateMismatch(16_000, 8_000).message(),
        "sample rate mismatch: 16000 Hz vs 8000 Hz; resample to 16 kHz and retry"
    );
}

// ---- pronunciation ----

#[test]
fn first_pronunciations_win() {
    let g = G2p::parse(";;; comment\na  AH0\na(2)  EY1\nbee B IY1\n\nlonely\n");
    assert_eq!(g.lookup("a").unwrap(), &["AH0".to_string()]);
    assert_eq!(g.lookup("bee").unwrap(), &["B".to_string(), "IY1".to_string()]);
    assert!(g.lookup("lonely").is_none());
    assert_eq!(g.len(), 2);
    assert!(!g.is_empty());
    assert!(G2p::from_str("").is_empty());
    assert!(g.phonemes("xyz").is_none());
    assert_eq!(G2p::base("AO1"), "AO");
    assert_eq!(G2p::base("K"), "K");
}

// ---- the mock's timetable ----

#[test]
fn words_last_ninety_milliseconds_a_letter() {
    assert_eq!(word_duration_ms("a"), 180);
    assert_eq!(word_duration_ms("hello"), 450);
    assert_eq!(word_duration_ms("extraordinarily"), 900);
    assert_eq!(word_pitch("default", "hello"), 364);
    let spans = mock_word_spans("hello you");
    assert_eq!(spans[0].word, "hello");
    assert_eq!((spans[0].start_ms, spans[0].end_ms), (0, 450));
    assert_eq!((spans[1].start_ms, spans[1].end_ms), (510, 780));
}

// ---- samples ----

fn d(x: f64) -> Double {
    Double::of_bits(x.to_bits())
}

#[test]
fn measures_of_a_square_wave() {
    let a = WavAudio::new(vec![16_384, -16_384, 16_384, -16_384, 16_384], SAMPLE_RATE);
    assert_eq!(a.peak(), 16_384);
    assert_eq!(a.rms(), d(0.5));
    assert_eq!(a.zero_crossing_rate(), d(1.0));
    assert_eq!(WavAudio::new(vec![i16::MIN], 8).peak(), 32_768);
    let none = WavAudio::new(Vec::new(), SAMPLE_RATE);
    assert!(none.is_empty());
    assert_eq!((none.peak(), none.rms(), none.zero_crossing_rate()), (0, d(0.0), d(0.0)));
    assert_eq!(WavAudio::new(vec![0; 24], SAMPLE_RATE).duration_ms(), d(1.5));
    assert_eq!(WavAudio::new(vec![0; 24], SAMPLE_RATE).whole_ms(), 2);
    assert_eq!(WavAudio::new(vec![0; 1600], SAMPLE_RATE).duration_ms(), d(100.0));
    assert_eq!(integer_sqrt(99), 9);
    assert_eq!(integer_sqrt(100), 10);
}

#[test]
fn fractions_of_a_clip() {
    let a = WavAudio::new((0..10).collect(), SAMPLE_RATE);
    let part = a.slice_frac(Frac { num: 1, den: 4 }, Frac { num: 3, den: 7 });
    assert_eq!(part.samples, vec![3]);
    let all = a.slice_frac(Frac { num: 0, den: 1 }, Frac { num: 9, den: 1 });
    assert!(all.same(&a));
    let none = a.slice_frac(Frac { num: 1, den: 1 }, Frac { num: 0, den: 1 });
    assert!(none.is_empty());
}

#[test]
fn seams_add_the_steps_in_level_and_crossings() {
    let loud = WavAudio::new(vec![16_384; 320], SAMPLE_RATE);
    let quiet = WavAudio::new(vec![8_192; 320], SAMPLE_RATE);
    assert_eq!(seam_discontinuity(&loud, &loud), d(0.0));
    assert_eq!(seam_discontinuity(&loud, &quiet), d(0.25));
    let buzz = WavAudio::new(
        (0..320).map(|i| if i % 2 == 0 { 16_384 } else { -16_384 }).collect(),
        SAMPLE_RATE,
    );
    assert_eq!(seam_discontinuity(&loud, &buzz), d(1.0));
}

/// Straight fades.
struct Linear;

impl FadeCurve for Linear {
    fn gain(&self, n: usize, i: usize) -> Double {
        d((8 - (2 * i + 1) * 4 / n) as f64 / 8.0)
    }
}

/// A curve whose gains exceed one.
struct Loud;

impl FadeCurve for Loud {
    fn gain(&self, _n: usize, _i: usize) -> Double {
        d(1.5)
    }
}

#[test]
fn samples_are_mixed() {
    assert_eq!(mix(100, 200, d(1.0)), 100);
    assert_eq!(mix(100, 200, d(0.0)), 200);
    assert_eq!(mix(100, 201, d(0.5)), 151);
    assert_eq!(mix(-100, -201, d(0.5)), -151);
    let mut state: u64 = 11;
    for _ in 0..2_000 {
        state = state.wrapping_mul(6364136223846793005).wrapping_add(1442695040888963407);
        let (a, b) = ((state >> 48) as i16, (state >> 32) as i16);
        let g = 0.5 * (1.0 + ((state >> 8) as f64).cos());
        let want = (a as f64 * g + b as f64 * (1.0 - g)).round().clamp(-32768.0, 32767.0);
        assert_eq!(mix(a, b, d(g)), want as i16, "{a} {b} {g:e}");
    }
}

#[test]
fn one_part_is_spliced_unchanged() {
    let a = WavAudio::new(vec![5, -6, 7], 4_000);
    let out = splice(&[WavAudio::new(vec![5, -6, 7], 4_000)], 1, &Linear).unwrap();
    assert_eq!(out, a);
}

#[test]
fn parts_are_crossfaded() {
    // one millisecond at 4 kHz: four samples, but no more than half of a part
    let a = WavAudio::new(vec![80; 8], 4_000);
    let b = WavAudio::new(vec![0; 4], 4_000);
    let out = splice(&[a, b], 1, &Linear).unwrap();
    assert_eq!(out.samples, vec![80, 80, 80, 80, 80, 80, 60, 20, 0, 0]);
    assert!(splice(&[], 1, &Linear).unwrap().is_empty());
    // a gain above one counts as one
    let a = WavAudio::new(vec![80; 8], 4_000);
    let b = WavAudio::new(vec![0; 4], 4_000);
    let out = splice(&[a, b], 1, &Loud).unwrap();
    assert_eq!(out.samples, vec![80, 80, 80, 80, 80, 80, 80, 80, 0, 0]);
    let c = WavAudio::new(vec![0; 4], 8_000);
    let d = WavAudio::new(vec![0; 4], 4_000);
    assert!(matches!(
        splice(&[c, d], 1, &Linear),
        Err(MimicError::SampleRateMismatch(8_000, 4_000))
    ));
}

// ---- wav files ----

fn wav(format: u16, channels: u16, bits: u16, data: &[u8]) -> Vec<u8> {
    let mut v = b"RIFF\0\0\0\0WAVEfmt \x10\0\0\0".to_vec();
    v.extend_from_slice(&format.to_le_bytes());
    v.extend_from_slice(&channels.to_le_bytes());
    v.extend_from_slice(&16_000u32.to_le_bytes());
    v.extend_from_slice(&[0; 6]);
    v.extend_from_slice(&bits.to_le_bytes());
    v.extend_from_slice(b"LIST\x03\0\0\0abc\0data");
    v.extend_from_slice(&(data.len() as u32).to_le_bytes());
    v.extend_from_slice(data);
    v
}

#[test]
fn wav_files_are_read() {
    let mono = parse_wav(&wav(1, 1, 16, &[1, 0, 255, 255])).unwrap();
    assert_eq!(mono, WavAudio::new(vec![1, -1], 16_000));
    // two channels are averaged
    let stereo = parse_wav(&wav(1, 2, 16, &[10, 0, 20, 0, 255, 255, 254, 255])).unwrap();
    assert_eq!(stereo.samples, vec![15, -1]);
    assert_eq!(to_wav_bytes(&WavAudio::new(vec![258], 8_000)), {
        let mut v = b"RIFF\x26\0\0\0WAVEfmt \x10\0\0\0\x01\0\x01\0\x40\x1f\0\0\x80\x3e\0\0\x02\0\x10\0data\x02\0\0\0".to_vec();
        v.extend_from_slice(&[2, 1]);
        v
    });
}

#[test]
fn bad_wav_files_are_refused() {
    assert_eq!(wav_problem(parse_wav(b"OggS")), "not a RIFF/WAVE file");
    assert_eq!(
        wav_problem(parse_wav(&wav(3, 1, 16, &[]))),
        "only PCM (format 1) supported; convert the source to PCM"
    );
    assert_eq!(
        wav_problem(parse_wav(&wav(1, 1, 8, &[]))),
        "only 16-bit samples supported; convert the source to 16-bit"
    );
    assert_eq!(wav_problem(parse_wav(&wav(1, 3, 16, &[]))), "unsupported channel count: 3");
    assert_eq!(
        wav_problem(parse_wav(b"RIFF\0\0\0\0WAVE")),
        "missing fmt chunk; provide a valid WAV file and try again"
    );
    let whole = wav(1, 1, 16, &[1, 0]);
    assert_eq!(wav_problem(parse_wav(&whole[..whole.len() - 1])), "truncated chunk");
    assert_eq!(
        wav_problem(parse_wav(&whole[..whole.len() - 10])),
        "missing data chunk; provide a valid WAV file and try again"
    );
    assert_eq!(
        wav_problem(parse_wav(b"RIFF\0\0\0\0WAVEfmt \x02\0\0\0\x01\0")),
        "fmt chunk too small"
    );
}

// ---- token streams ----

fn tonal(scale: u16, at: &[(usize, i8)]) -> Frame {
    let mut values = vec![0i8; 320];
    for (k, v) in at {
        values[*k] = *v;
    }
    Frame::Tonal { scale, values }
}

#[test]
fn frames_are_packed() {
    assert_eq!(encode_frame(&Frame::Silence), vec![0]);
    let f = tonal(0x1234, &[(0, 3), (9, -3), (319, 1)]);
    let bytes = encode_frame(&f);
    assert_eq!(&bytes[..3], &[1, 0x34, 0x12]);
    assert_eq!((bytes[3], bytes[4], bytes[42]), (1, 2, 0x80));
    // 7, 1 and 5 in three bits each, lowest first
    assert_eq!(&bytes[43..], &[0b0100_1111, 0b0000_0001]);
    assert_eq!(decode_frame(&bytes), f);
}

#[test]
fn streams_are_read_back() {
    let frames = vec![tonal(7, &[(5, -1)]), Frame::Silence, tonal(9, &[(1, 2), (2, 3)])];
    let tokens = MimicMct.encode(640, 16_000, &frames);
    assert_eq!(&tokens[..16], b"MCT1\x80\x02\0\0\x80\x3e\0\0\x03\0\0\0");
    assert_eq!(token_frames(&tokens).unwrap(), 3);
    assert_eq!(
        MimicMct.decode(&tokens).unwrap(),
        MctStream { sample_rate: 16_000, samples: 640, frames }
    );
    assert_eq!(frames_for(640), 3);
    assert_eq!(frames_for(641), 4);
    assert_eq!(MimicMct.name(), "mimic-mct-v1");
}

#[test]
fn bad_streams_are_refused() {
    let tokens = MimicMct.encode(320, 16_000, &vec![tonal(7, &[(5, -1), (6, 1), (7, 1)])]);
    assert_eq!(wav_problem(MimicMct.decode(b"MCT")), "not an MCT1 token stream");
    assert_eq!(wav_problem(token_frames(&[0; 16])), "not an MCT1 token stream");
    assert_eq!(wav_problem(MimicMct.decode(&tokens[..16])), "truncated token stream");
    assert_eq!(wav_problem(MimicMct.decode(&tokens[..30])), "truncated tonal frame");
    assert_eq!(
        wav_problem(MimicMct.decode(&tokens[..tokens.len() - 1])),
        "truncated values"
    );
    let mut odd = tokens.clone();
    odd[16] = 9;
    assert_eq!(wav_problem(MimicMct.decode(&odd)), "bad frame type 9");
}

#[test]
fn streams_are_cut_and_joined() {
    let a = MimicMct.encode(320, 16_000, &vec![Frame::Silence, tonal(7, &[(5, -1)])]);
    let b = MimicMct.encode(100, 16_000, &vec![tonal(8, &[(6, 1)])]);
    let half = slice_tokens(&a, Frac { num: 1, den: 2 }, Frac { num: 1, den: 1 }).unwrap();
    let cut = MimicMct.decode(&half).unwrap();
    assert_eq!(cut.samples, 320);
    assert_eq!(cut.frames, vec![tonal(7, &[(5, -1)])]);
    let both = parse_stream(&concat_tokens(&[&a, &b]).unwrap()).unwrap();
    assert_eq!((both.orig_samples, both.sample_rate, both.frames.len()), (420, 16_000, 3));
    let joined = concat_tokens(&[&a, &b, &half, &a]).unwrap();
    assert_eq!(token_frames(&joined).unwrap(), 6);
    let bodies: Vec<u8> =
        [&a, &b, &half, &a].iter().flat_map(|s| s[16..].iter().copied()).collect();
    assert_eq!(joined[16..], bodies);
    assert_eq!(parse_stream(&joined).unwrap().orig_samples, 320 + 100 + 320 + 320);
    assert_eq!(parse_stream(&joined).unwrap().sample_rate, 16_000);
    let c = MimicMct.encode(100, 8_000, &vec![Frame::Silence]);
    assert!(matches!(
        concat_tokens(&[&a, &c]),
        Err(MimicError::SampleRateMismatch(16_000, 8_000))
    ));
}

// ---- alignment ----

#[test]
fn proportional_spans_follow_the_letters() {
    // the space in front of every word but the first counts as a letter
    let audio = WavAudio::new(vec![0; 100], SAMPLE_RATE);
    let words = vec!["abcd".to_string(), "abcd".to_string()];
    assert_eq!(
        word_spans(&audio, &words, AlignMode::Proportional),
        vec![Span { start: 0, end: 44 }, Span { start: 44, end: 100 }]
    );
    assert!(word_spans(&audio, &[], AlignMode::Proportional).is_empty());
    let spans = phoneme_spans(&audio, 4, 12_500_000);
    assert_eq!(spans.len(), 4);
    assert_eq!((spans[0].start, spans[3].end), (0, 100));
}

#[test]
fn spans_cover_the_audio_in_order() {
    let samples: Vec<i16> = (0..16_000).map(|i| ((i * 7919) % 30_011 - 15_000) as i16).collect();
    let audio = WavAudio::new(samples, SAMPLE_RATE);
    let words: Vec<String> = ["one", "extraordinarily", "a", "four"]
        .iter()
        .map(|w| w.to_string())
        .collect();
    for mode in [AlignMode::Proportional, AlignMode::EnergyRefined { search_ns: 100_000_000 }] {
        let spans = word_spans(&audio, &words, mode);
        assert_eq!(spans.len(), 4);
        assert_eq!((spans[0].start, spans[3].end), (0, 16_000));
        for w in spans.windows(2) {
            assert_eq!(w[0].end, w[1].start);
            assert!(w[0].start <= w[0].end && w[1].start <= w[1].end);
        }
    }
}

#[test]
fn steady_sound_keeps_proportional_boundaries() {
    let audio = WavAudio::new(vec![9_000; 16_000], SAMPLE_RATE);
    let words = vec!["abc".to_string(), "defgh".to_string()];
    assert_eq!(
        word_spans(&audio, &words, AlignMode::EnergyRefined { search_ns: 100_000_000 }),
        word_spans(&audio, &words, AlignMode::Proportional)
    );
}

#[test]
fn boundaries_move_into_pauses() {
    // 400 ms of sound, 60 ms of silence, 540 ms of sound
    let mut samples = vec![8_000i16; 6_400];
    samples.extend(vec![0; 960]);
    samples.extend(vec![8_000; 8_640]);
    let audio = WavAudio::new(samples, SAMPLE_RATE);
    let words = vec!["abcd".to_string(), "abcd".to_string()];
    let spans = word_spans(&audio, &words, AlignMode::EnergyRefined { search_ns: 120_000_000 });
    assert!(spans[0].end >= 6_400 && spans[0].end <= 7_360, "{:?}", spans);
    assert_eq!(spans[0].end, spans[1].start);
}

// ---- the store ----

#[test]
fn context_breaks_ties_between_recordings() {
    let audio = WavAudio::new(vec![1; 160], SAMPLE_RATE);
    let mut ms = MimicStore::new();
    let mut put = |prev: Option<&str>, next: Option<&str>| {
        ms.insert_unit(
            UnitLevel::Word,
            "cat",
            "K AE1 T",
            "default",
            &audio,
            None,
            true,
            prev,
            next,
            "mock-tts",
        )
    };
    let first = put(Some("the"), None);
    let second = put(Some("a"), Some("sleeps"));
    let both = [first, second];
    assert_eq!(ms.best_context_match(&both, Some("the"), None), Some(first));
    assert_eq!(ms.best_context_match(&both, Some("a"), Some("sat")), Some(second));
    assert_eq!(ms.best_context_match(&both, Some("the"), Some("sleeps")), Some(first));
    assert_eq!(ms.best_context_match(&both, None, None), Some(first));
    assert_eq!(ms.best_context_match(&[], None, None), None);
    assert_eq!(ms.lookup_exact(UnitLevel::Word, "cat"), &both);
    assert!(ms.lookup_exact(UnitLevel::Phrase, "cat").is_empty());
    assert_eq!(ms.prop_string(first, "text").as_deref(), Some("cat"));
    assert_eq!(ms.prop_string(first, "level").as_deref(), Some("word"));
    assert_eq!(ms.prop_string(first, "duration_ms").as_deref(), Some("10"));
    assert_eq!(ms.get_text(NodeId(99)), None);
    assert!(matches!(ms.get_tokens(NodeId(99)), Err(MimicError::NotFound(_))));
}

#[test]
fn sounds_are_found_without_their_stress() {
    let audio = WavAudio::new(vec![1; 160], SAMPLE_RATE);
    let mut ms = MimicStore::new();
    let mut ids = Vec::new();
    for text in ["AH0", "AE1", "AH1"] {
        ids.push(ms.insert_unit(
            UnitLevel::Phoneme,
            text,
            text,
            "default",
            &audio,
            None,
            true,
            None,
            None,
            "mock-tts",
        ));
    }
    assert_eq!(ms.phonemes_by_base("AH"), vec![ids[0], ids[2]]);
    ms.add_follows(ids[0], ids[1]);
    let dna = ms.add_voice_dna("default", &audio, "mock-tts");
    let s = ms.stats();
    assert_eq!((s.phonemes, s.total_nodes, s.total_edges), (3, 4, 1));
    assert_eq!(ms.prop_string(dna, "samples").as_deref(), Some("160"));
    assert_eq!(ms.units_for_level(UnitLevel::Phoneme).len(), 3);
    // 44 bytes of header and 320 bytes of samples for each unit
    assert_eq!(ms.codec_storage(), (0, 3 * 364));
}

// ---- what holds throughout ----

#[test]
fn parts_without_samples_change_nothing() {
    let none = WavAudio::new(Vec::new(), 8);
    let a = WavAudio::new(vec![100, 200, 300], 8);
    let b = WavAudio::new(vec![-100, -200], 8);
    let parts = |v: &[&WavAudio]| -> Vec<WavAudio> {
        v.iter().map(|x| WavAudio::new(x.samples.clone(), x.sample_rate)).collect()
    };
    let plain = splice(&parts(&[&a, &b]), 250, &Linear).unwrap();
    let padded = splice(&parts(&[&none, &a, &none, &b, &none]), 250, &Linear).unwrap();
    assert!(plain.same(&padded));
}

#[test]
fn a_fade_without_length_concatenates() {
    let parts = vec![
        WavAudio::new(vec![1, 2], 8),
        WavAudio::new(vec![3], 8),
        WavAudio::new(vec![4, 5, 6], 8),
    ];
    assert_eq!(splice(&parts, 0, &Linear).unwrap().samples, vec![1, 2, 3, 4, 5, 6]);
}

#[test]
fn splices_are_no_louder_than_their_parts() {
    let parts = vec![
        WavAudio::new(vec![30_000; 40], 1_000),
        WavAudio::new(vec![-31_000; 40], 1_000),
        WavAudio::new(vec![12; 40], 1_000),
    ];
    let out = splice(&parts, 10, &Linear).unwrap();
    assert_eq!(out.len(), 100);
    assert!(out.peak() <= 31_000);
}

#[test]
fn neighbouring_cuts_hold_every_frame() {
    let mut frames: Vec<Frame> = (0..6).map(|_| Frame::Silence).collect();
    frames.insert(3, tonal(7, &[(5, -1)]));
    let tokens = MimicMct.encode(2_000, 16_000, &frames);
    let (none, all) = (Frac { num: 0, den: 1 }, Frac { num: 1, den: 1 });
    for (num, den) in [(0, 1), (1, 7), (1, 2), (5, 9), (1, 1)] {
        let at = Frac { num, den };
        let a = slice_tokens(&tokens, none, at).unwrap();
        let b = slice_tokens(&tokens, at, all).unwrap();
        assert_eq!(token_frames(&a).unwrap() + token_frames(&b).unwrap(), 7);
        assert_eq!([&a[16..], &b[16..]].concat(), tokens[16..].to_vec());
    }
}
