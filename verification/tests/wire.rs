//! What goes over the wire: provider requests and replies, HTTP framing, SSML,
//! base64, command lines and configuration.

use mimic::{MimicError, SAMPLE_RATE};
use mimic::audio::{to_wav_bytes, WavAudio};
use mimic::base64::base64_decode;
use mimic::cli::{choose_token, expand, parse_args, voxd_token};
use mimic::codec::AudioCodec;
use mimic::command::{
    describe_compose, describe_gate, describe_ingest, describe_lookup, describe_stats,
    read_command, Command, Refusal,
};
use mimic::digest::{hash_hex, hex, join_path, padded_decimal, within};
use mimic::http::{parse_response, parse_url, post_head};
use mimic::pipeline::{ingest_with_options, IngestOptions};
use mimic::providers::{cost_per_million_chars, decimate, read_audio, HttpProvider, ProviderKind};
use mimic::report::ComposeReport;
use mimic::server::authorized;
use mimic::double::Double;
use mimic::figures::Signed;
use mimic::ssml::{parse, silence, unescape, Segment};
use mimic::store::MimicStore;
use mimic::units::UnitLevel;

fn ms(x: f64) -> Signed {
    Signed { negative: x < 0.0, size: Double::of_bits(x.abs().to_bits()) }
}

fn pause(x: f64) -> Segment {
    Segment::Break(ms(x))
}

/// A codec for stores that keep wavs.
struct NoCodec;

impl AudioCodec for NoCodec {
    fn name(&self) -> &str {
        "none"
    }

    fn encode(&self, _audio: &WavAudio) -> Vec<u8> {
        Vec::new()
    }

    fn decode(&self, _tokens: &[u8]) -> Result<WavAudio, MimicError> {
        Err(MimicError::Wav("there are no tokens".to_string()))
    }
}

/// The bytes that a request is sent as.
fn sent(p: &HttpProvider, text: &str) -> String {
    let (url, headers, body) = p.request(text, "default");
    let (host, port, path) = parse_url(&url).unwrap();
    let mut raw = post_head(&host, port, &path, &headers, body.len()).into_bytes();
    raw.extend_from_slice(&body);
    String::from_utf8(raw).unwrap()
}

fn http_response(content_type: &str, body: &[u8]) -> Vec<u8> {
    let mut v = format!(
        "HTTP/1.1 200 OK\r\nContent-Type: {content_type}\r\nContent-Length: {}\r\nConnection: close\r\n\r\n",
        body.len()
    )
    .into_bytes();
    v.extend_from_slice(body);
    v
}

fn answered(p: &HttpProvider, response: &[u8]) -> Result<WavAudio, MimicError> {
    let r = parse_response(response)?;
    p.answer(r.status, &r.body)
}

fn tiny_wav_bytes() -> Vec<u8> {
    to_wav_bytes(&WavAudio::new(vec![1, -1, 2, -2], SAMPLE_RATE))
}

const BASE: &str = "http://127.0.0.1:8123";

#[test]
fn provider_wire_openai() {
    let p = HttpProvider::new(ProviderKind::OpenAi, BASE, "sk-test", "tts-1", "alloy");
    let audio = answered(&p, &http_response("audio/wav", &tiny_wav_bytes())).unwrap();
    assert_eq!(audio.samples, vec![1, -1, 2, -2]);

    let req = sent(&p, "hello there");
    assert!(req.starts_with("POST /v1/audio/speech "), "req: {req}");
    assert!(req.contains("Authorization: Bearer sk-test"));
    assert!(req.contains("\"input\":\"hello there\""));
    assert!(req.contains("\"voice\":\"alloy\""));
}

#[test]
fn provider_wire_elevenlabs() {
    let pcm: Vec<u8> = [10i16, -10, 20, -20].iter().flat_map(|s| s.to_le_bytes()).collect();
    let p = HttpProvider::new(
        ProviderKind::ElevenLabs,
        BASE,
        "xi-key",
        "eleven_multilingual_v2",
        "voice-id-1",
    );
    let audio = answered(&p, &http_response("audio/pcm", &pcm)).unwrap();
    assert_eq!(audio.samples, vec![10, -10, 20, -20]);
    assert_eq!(audio.sample_rate, SAMPLE_RATE);

    let req = sent(&p, "hi");
    assert!(
        req.starts_with("POST /v1/text-to-speech/voice-id-1?output_format=pcm_16000 "),
        "req: {req}"
    );
    assert!(req.contains("xi-api-key: xi-key"));
    assert!(req.contains("\"text\":\"hi\""));
}

#[test]
fn provider_wire_cartesia() {
    let p = HttpProvider::new(ProviderKind::Cartesia, BASE, "ct-key", "sonic-2", "v-123");
    let audio = answered(&p, &http_response("audio/wav", &tiny_wav_bytes())).unwrap();
    assert_eq!(audio.samples.len(), 4);

    let req = sent(&p, "yo");
    assert!(req.starts_with("POST /tts/bytes "), "req: {req}");
    assert!(req.contains("X-API-Key: ct-key"));
    assert!(req.contains("Cartesia-Version:"));
    assert!(req.contains("\"transcript\":\"yo\""));
    assert!(req.contains("\"sample_rate\":16000"));
}

#[test]
fn provider_wire_gemini_base64() {
    let pcm24: Vec<u8> = [1i16, 2, 3, 4, 5, 6].iter().flat_map(|s| s.to_le_bytes()).collect();
    let b64 = base64_encode(&pcm24);
    let body = format!(
        "{{\"candidates\":[{{\"content\":{{\"parts\":[{{\"inlineData\":{{\"mimeType\":\"audio/L16;rate=24000\",\"data\":\"{b64}\"}}}}]}}}}]}}"
    );
    let p = HttpProvider::new(
        ProviderKind::Gemini,
        BASE,
        "g-key",
        "gemini-2.5-flash-preview-tts",
        "Kore",
    );
    let audio = answered(&p, &http_response("application/json", body.as_bytes())).unwrap();
    assert_eq!(audio.samples, vec![1, 2, 4, 5]);
    assert_eq!(audio.sample_rate, SAMPLE_RATE);

    let req = sent(&p, "hello");
    assert!(
        req.starts_with(
            "POST /v1beta/models/gemini-2.5-flash-preview-tts:generateContent?key=g-key "
        ),
        "req: {req}"
    );
    assert!(req.contains("\"voiceName\":\"Kore\""));
}

fn base64_encode(data: &[u8]) -> String {
    const T: &[u8] = b"ABCDEFGHIJKLMNOPQRSTUVWXYZabcdefghijklmnopqrstuvwxyz0123456789+/";
    let mut out = String::new();
    for c in data.chunks(3) {
        let b = [c[0], *c.get(1).unwrap_or(&0), *c.get(2).unwrap_or(&0)];
        let n = ((b[0] as u32) << 16) | ((b[1] as u32) << 8) | b[2] as u32;
        out.push(T[(n >> 18) as usize & 63] as char);
        out.push(T[(n >> 12) as usize & 63] as char);
        out.push(if c.len() > 1 { T[(n >> 6) as usize & 63] as char } else { '=' });
        out.push(if c.len() > 2 { T[n as usize & 63] as char } else { '=' });
    }
    out
}

#[test]
fn provider_https_gives_clear_error() {
    let p = HttpProvider::new(ProviderKind::OpenAi, "https://api.openai.com", "k", "m", "v");
    let (url, _, _) = p.request("x", "default");
    let err = parse_url(&url).unwrap_err().message();
    assert!(err.contains("http://"), "err: {err}");
}

#[test]
fn ssml_subset() {
    let segs = parse("<speak>hello <break time=\"500ms\"/> world &amp; all</speak>");
    assert_eq!(
        segs,
        vec![
            Segment::Text("hello".to_string()),
            pause(500.0),
            Segment::Text("world & all".to_string()),
        ]
    );
    assert_eq!(parse("plain text"), vec![Segment::Text("plain text".to_string())]);
    let s2 = parse("<speak>a<break time=\"2s\"/>b<break/>c</speak>");
    assert!(s2.contains(&pause(2000.0)));
    assert!(s2.contains(&pause(250.0)));
}

// ---- providers ----

#[test]
fn requests_escape_what_json_reserves() {
    let p = HttpProvider::new(ProviderKind::OpenAi, BASE, "k", "tts-1", "alloy");
    let (_, _, body) = p.request("say \"hi\"\n\\ \u{1}\u{e9}", "nova");
    assert_eq!(
        String::from_utf8(body).unwrap(),
        "{\"input\":\"say \\\"hi\\\"\\n\\\\ \\u0001\u{e9}\",\"model\":\"tts-1\",\"response_format\":\"wav\",\"voice\":\"nova\"}"
    );
}

#[test]
fn request_bodies_are_what_the_providers_document() {
    let body = |kind| {
        let p = HttpProvider::new(kind, BASE, "k", "m", "v");
        String::from_utf8(p.request("hi", "").2).unwrap()
    };
    assert_eq!(body(ProviderKind::ElevenLabs), "{\"model_id\":\"m\",\"text\":\"hi\"}");
    assert_eq!(
        body(ProviderKind::Cartesia),
        "{\"model_id\":\"m\",\"output_format\":{\"container\":\"wav\",\"encoding\":\"pcm_s16le\",\"sample_rate\":16000},\"transcript\":\"hi\",\"voice\":{\"id\":\"v\",\"mode\":\"id\"}}"
    );
    assert_eq!(
        body(ProviderKind::Gemini),
        "{\"contents\":[{\"parts\":[{\"text\":\"hi\"}]}],\"generationConfig\":{\"responseModalities\":[\"AUDIO\"],\"speechConfig\":{\"voiceConfig\":{\"prebuiltVoiceConfig\":{\"voiceName\":\"v\"}}}}}"
    );
}

#[test]
fn base_urls_lose_their_trailing_slashes() {
    let p = HttpProvider::new(ProviderKind::OpenAi, "http://h//", "k", "m", "v");
    assert_eq!(p.request("x", "default").0, "http://h/v1/audio/speech");
}

#[test]
fn the_default_voice_is_the_set_one() {
    let p = HttpProvider::new(ProviderKind::ElevenLabs, BASE, "k", "m", "v-9");
    assert_eq!(p.request("x", "default").0, p.request("x", "v-9").0);
    assert_eq!(p.request("x", "").0, p.request("x", "v-9").0);
    assert_ne!(p.request("x", "other").0, p.request("x", "v-9").0);
}

#[test]
fn refused_requests_say_why() {
    let p = HttpProvider::new(ProviderKind::Cartesia, BASE, "k", "m", "v");
    match p.answer(429, b"slow down \xff") {
        Err(MimicError::Wav(m)) => assert_eq!(m, "cartesia: HTTP 429: slow down \u{fffd}"),
        _ => panic!("429 is an error"),
    }
}

#[test]
fn gemini_replies_without_audio_are_refused() {
    let p = HttpProvider::new(ProviderKind::Gemini, BASE, "k", "m", "v");
    match p.answer(200, b"{\"candidates\":[]}") {
        Err(MimicError::Wav(m)) => assert_eq!(m, "gemini: no inlineData.data"),
        _ => panic!("there is no audio"),
    }
    match p.answer(200, b"{oops") {
        Err(MimicError::Wav(m)) => assert!(m.starts_with("gemini: bad json: "), "{m}"),
        _ => panic!("there is no json"),
    }
    match read_audio(ProviderKind::Gemini, b"", Ok(Some("!".to_string()))) {
        Err(MimicError::Wav(m)) => assert_eq!(m, "base64: bad byte 0x21"),
        _ => panic!("an exclamation mark is no base64"),
    }
}

#[test]
fn decimation_keeps_two_of_three() {
    assert_eq!(decimate(&vec![1, 2, 3, 4, 5, 6, 7, 8]), vec![1, 2, 4, 5]);
}

#[test]
fn list_prices() {
    assert_eq!(cost_per_million_chars("openai-tts"), 15);
    assert_eq!(cost_per_million_chars("openai-tts-hd"), 30);
    assert_eq!(cost_per_million_chars("elevenlabs"), 300);
    assert_eq!(cost_per_million_chars("cartesia"), 100);
    assert_eq!(cost_per_million_chars("gemini-tts"), 30);
    assert_eq!(cost_per_million_chars("mock-tts"), 0);
    assert_eq!(cost_per_million_chars("anyone"), 0);
    assert_eq!(ProviderKind::Gemini.name(), "gemini-tts");
}

// ---- http ----

fn http_problem<T>(r: Result<T, MimicError>) -> String {
    match r {
        Err(MimicError::Wav(m)) => m,
        _ => panic!("expected an http problem"),
    }
}

#[test]
fn urls_are_taken_apart() {
    assert_eq!(
        parse_url("http://host:81/a?b=c").unwrap(),
        ("host".to_string(), 81, "/a?b=c".to_string())
    );
    assert_eq!(
        parse_url("http://host").unwrap(),
        ("host".to_string(), 80, "/".to_string())
    );
    assert_eq!(http_problem(parse_url("http://h:x/")), "http: bad port in http://h:x/");
    assert_eq!(http_problem(parse_url("http:///p")), "http: empty host in http:///p");
    assert_eq!(
        http_problem(parse_url("ftp://h")),
        "http: only http:// URLs supported (add TLS to enable https): ftp://h"
    );
}

#[test]
fn heads_are_framed() {
    let headers = vec![("A".to_string(), "b".to_string()), ("C".to_string(), "d".to_string())];
    assert_eq!(
        post_head("h", 81, "/p", &headers, 12),
        "POST /p HTTP/1.1\r\nHost: h:81\r\nContent-Length: 12\r\nConnection: close\r\nA: b\r\nC: d\r\n\r\n"
    );
}

#[test]
fn responses_are_taken_apart() {
    let r = parse_response(b"HTTP/1.1 204 No\r\nX: y\r\n\r\nbody\r\n\r\nmore").unwrap();
    assert_eq!(r.status, 204);
    assert_eq!(r.body, b"body\r\n\r\nmore");
    // bytes that are no UTF-8 do not hide the status
    assert_eq!(parse_response(b"HTTP/1.1 200 \xff\xfe\r\n\r\n").unwrap().status, 200);
    assert_eq!(
        http_problem(parse_response(b"HTTP/1.1 200 OK\r\n")),
        "http: malformed response (no header terminator)"
    );
    assert_eq!(
        http_problem(parse_response(b"HTTP/1.1 abc\r\n\r\n")),
        "http: malformed status line"
    );
    assert_eq!(
        http_problem(parse_response(
            b"HTTP/1.1 200 OK\r\nTransfer-Encoding: gzip, Chunked\r\n\r\n"
        )),
        "http: chunked responses not implemented"
    );
}

// ---- base64 ----

#[test]
fn base64_vectors() {
    assert_eq!(base64_decode("").unwrap(), b"");
    assert_eq!(base64_decode("Zg==").unwrap(), b"f");
    assert_eq!(base64_decode("Zm8").unwrap(), b"fo");
    assert_eq!(base64_decode("Zm9v\nYmFy").unwrap(), b"foobar");
    assert_eq!(base64_decode("+/8=").unwrap(), vec![0xfb, 0xff]);
    assert_eq!(http_problem(base64_decode("Zm9v-")), "base64: bad byte 0x2d");
}

#[test]
fn base64_reads_what_was_written() {
    let all: Vec<u8> = (0..=255).collect();
    for n in [0usize, 1, 2, 3, 254, 255, 256] {
        assert_eq!(base64_decode(&base64_encode(&all[..n])).unwrap(), &all[..n]);
    }
}

// ---- ssml ----

#[test]
fn breaks_and_entities() {
    assert_eq!(
        parse("a <break time='1.5s'/> &lt;b&gt;"),
        vec![
            Segment::Text("a".to_string()),
            pause(1500.0),
            Segment::Text("<b>".to_string()),
        ]
    );
    assert_eq!(parse("<speak></speak>"), vec![Segment::Text(String::new())]);
    assert_eq!(parse("x <b"), vec![Segment::Text("x <b".to_string())]);
    assert_eq!(parse("<emphasis>x</emphasis> y"), vec![Segment::Text("x y".to_string())]);
    assert_eq!(parse("a<break time=\"soon\"/>b"), vec![Segment::Text("ab".to_string())]);
    assert_eq!(unescape("&amp;lt; &quot;&apos;"), "&lt; \"'");
}

#[test]
fn tags_are_found_behind_other_signs() {
    assert_eq!(
        parse("a > b <break/> c"),
        vec![
            Segment::Text("a > b".to_string()),
            pause(250.0),
            Segment::Text("c".to_string()),
        ]
    );
    assert_eq!(parse("5 > 4 <b>x</b> > y"), vec![Segment::Text("5 > 4 x > y".to_string())]);
    assert_eq!(parse("a > b <c"), vec![Segment::Text("a > b <c".to_string())]);
}

#[test]
fn only_breaks_are_pauses() {
    assert_eq!(
        parse("a<breakfast time=\"1s\"/>b<break\ttime=\"1s\">c"),
        vec![
            Segment::Text("ab".to_string()),
            pause(1000.0),
            Segment::Text("c".to_string()),
        ]
    );
    assert_eq!(parse("x<breaks/>y"), vec![Segment::Text("xy".to_string())]);
}

#[test]
fn pauses_are_silent() {
    let s = silence(ms(100.0), 16_000);
    assert_eq!(s.len(), 1600);
    assert_eq!(s.peak(), 0);
    assert!(silence(ms(-1.0), 16_000).is_empty());
    // 1.001 seconds are a little less than 1001 milliseconds
    assert_eq!(parse("<break time=\"1.001s\"/>"), vec![pause(1.001 * 1000.0)]);
    assert_eq!(silence(ms(1.001 * 1000.0), 16_000).len(), 16_015);
    assert_eq!(silence(ms(1001.0), 16_000).len(), 16_016);
}

// ---- digests and paths ----

#[test]
fn digests_of_known_texts() {
    assert_eq!(
        hash_hex(b"abc"),
        "ba7816bf8f01cfea414140de5dae2223b00361a396177a9cb410ff61f20015ad"
    );
    assert_eq!(
        hash_hex(b""),
        "e3b0c44298fc1c149afbf4c8996fb92427ae41e4649b934ca495991b7852b855"
    );
    assert_eq!(hex(&vec![0, 15, 16, 255]), "000f10ff");
}

#[test]
fn ordinals_are_padded() {
    assert_eq!(padded_decimal(7), "0007");
    assert_eq!(padded_decimal(12345), "12345");
}

#[test]
fn paths_stay_within_their_root() {
    assert_eq!(join_path("/var/objects", "a.wav"), "/var/objects/a.wav");
    assert!(within("/var/objects/a.wav", "/var/objects"));
    assert!(!within("/var/objects2/a.wav", "/var/objects"));
    assert!(!within("/etc/passwd", "/var/objects"));
}

// ---- the command line ----

fn words(args: &[&str]) -> Vec<String> {
    args.iter().map(|a| a.to_string()).collect()
}

#[test]
fn flags_are_read_in_any_order() {
    let a = parse_args(&words(&["--text", "hi", "--gate", "--db", "x.pad", "--text", "ho"]))
        .unwrap();
    assert_eq!(a.text.as_deref(), Some("ho"));
    assert_eq!(a.db.as_deref(), Some("x.pad"));
    assert!(a.gate);
    assert!(a.wav.is_none() && a.out.is_none() && a.voice.is_none());
    assert!(a.corpora.is_none() && a.gates.is_none() && a.addr.is_none());
}

#[test]
fn bad_flags_are_refused() {
    assert_eq!(
        parse_args(&words(&["--text"])).unwrap_err(),
        "missing value for --text; try again with --text VALUE"
    );
    assert_eq!(
        parse_args(&words(&["--nope", "x"])).unwrap_err(),
        "unknown flag: --nope; run `mimic`, then try again"
    );
}

#[test]
fn commands_get_their_defaults() {
    match read_command(&words(&["compose", "--db", "x.pad", "--text", "hi"])) {
        Ok(Command::Compose { db, text, out, voice }) => {
            assert_eq!((db.as_str(), text.as_str()), ("x.pad", "hi"));
            assert_eq!((out.as_str(), voice.as_str()), ("mimic_out.wav", "default"));
        }
        other => panic!("{:?}", other),
    }
    match read_command(&words(&["eval", "--gate", "--out", "r"])) {
        Ok(Command::Eval { corpora, gates, out, gate }) => {
            assert_eq!((corpora.as_str(), gates.as_str()), ("assets/corpora", "eval/gates.txt"));
            assert_eq!((out.as_str(), gate), ("r", true));
        }
        other => panic!("{:?}", other),
    }
    match read_command(&words(&["serve", "--db", "x.pad"])) {
        Ok(Command::Serve { addr, .. }) => assert_eq!(addr, "127.0.0.1:8787"),
        other => panic!("{:?}", other),
    }
}

#[test]
fn incomplete_commands_are_refused() {
    let refused = |args: &[&str]| match read_command(&words(args)) {
        Err(Refusal::Message(m)) => m,
        other => panic!("{:?}", other),
    };
    assert_eq!(refused(&["ingest"]), "missing --text; try again with --text TEXT");
    assert_eq!(
        refused(&["lookup", "--text", "hi"]),
        "missing --db PATH; try again with --db PATH"
    );
    assert_eq!(refused(&["stats"]), "missing --db PATH; try again with --db PATH");
    assert_eq!(
        refused(&["dance", "--now", "x"]),
        "unknown flag: --now; run `mimic`, then try again"
    );
    assert!(matches!(read_command(&words(&["dance"])), Err(Refusal::Usage)));
    assert!(matches!(read_command(&Vec::new()), Err(Refusal::Usage)));
}

#[test]
fn results_are_described() {
    let audio = WavAudio::new(vec![1; 1600], SAMPLE_RATE);
    let mut store = MimicStore::new();
    let plain = IngestOptions::v1();
    let ingested =
        ingest_with_options(&mut store, "Hi you", &audio, "v", "mock", &plain, None, &NoCodec)
            .unwrap();
    assert_eq!(
        describe_ingest("Hi you", &audio, &ingested),
        "ingested \"hi you\" (100 ms): 1 phrase + 2 word + 0 phoneme units (0 unresolved words)"
    );
    // the even number of milliseconds in the middle of two
    for (samples, rate, length) in
        [(24, 16_000u32, "2"), (40, 16_000, "2"), (41, 16_000, "3"), (0, 0, "NaN"), (1, 0, "inf")]
    {
        let line = describe_ingest("x", &WavAudio::new(vec![0; samples], rate), &ingested);
        assert!(line.contains(&format!("({length} ms)")), "{line}");
    }
    assert_eq!(
        describe_lookup(&store, "hi"),
        vec!["  [word] node 1 \"hi\" 33 ms -> 1.wav".to_string()]
    );
    assert_eq!(
        describe_lookup(&store, "Nobody!"),
        vec!["no cached units for \"nobody\"".to_string()]
    );
    assert_eq!(
        describe_stats(&store.stats()),
        vec![
            "units: 1 phrases, 2 words, 0 morphemes, 0 phonemes".to_string(),
            "graph: 4 nodes, 1 edges".to_string(),
        ]
    );
    let mut report = ComposeReport::empty();
    report.total_chars = 8;
    report.cached_chars = 5;
    report.generated_chars = 3;
    report.hits.push(("hi".to_string(), UnitLevel::Word));
    report.tts_calls.push("red".to_string());
    report.mean_seam_discontinuity = ms(0.123456789).size;
    assert_eq!(
        describe_compose("Hi Red", &report, "o.wav", &audio),
        vec![
            "composed \"hi red\"".to_string(),
            "cache hit: 62.5% (5 cached / 3 generated of 8 chars)".to_string(),
            "  [word] hi".to_string(),
            "tts calls (1):".to_string(),
            "  \"red\"".to_string(),
            "seam discontinuity: 0.1235 (lower is smoother)".to_string(),
            "wrote o.wav (100 ms, 1600 samples)".to_string(),
        ]
    );
    assert!(describe_compose("x", &ComposeReport::empty(), "o.wav", &audio)
        .contains(&"tts calls: none \u{2014} fully served from cache".to_string()));
    assert!(describe_gate(true, true).is_none() && describe_gate(false, false).is_none());
    assert!(describe_gate(true, false).unwrap().starts_with("P1 gate failed"));
}

#[test]
fn home_is_expanded() {
    assert_eq!(expand("~/x/y", "/home/a"), "/home/a/x/y");
    assert_eq!(expand("/x/~/y", "/home/a"), "/x/~/y");
}

#[test]
fn tokens_come_from_the_configuration() {
    let token = voxd_token("[server]\nauth_token = \"s3\"\n", "/c.toml");
    assert_eq!(token.unwrap(), "s3");
    let missing = "missing server.auth_token in /c.toml; set it with `voxd-cli config set server.auth_token TOKEN`";
    assert_eq!(voxd_token("[server]\nauth_token = \"\"\n", "/c.toml").unwrap_err(), missing);
    assert_eq!(voxd_token("[other]\nx = 1\n", "/c.toml").unwrap_err(), missing);
    assert!(voxd_token("[server", "/c.toml").is_err());
    assert_eq!(choose_token(Err("no".to_string()), "/c.toml").unwrap_err(), "no");
}

#[test]
fn only_bearers_of_the_token_pass() {
    assert!(authorized("/health", None, "t"));
    assert!(authorized("/v1/plans", Some("Bearer t"), "t"));
    assert!(!authorized("/v1/plans", Some("Bearer x"), "t"));
    assert!(!authorized("/v1/plans", Some("t"), "t"));
    assert!(!authorized("/v1/plans", None, "t"));
}

#[test]
fn base64_comes_back() {
    let data: Vec<u8> = (0..=255).collect();
    for n in [0, 1, 2, 3, 4, 100, 256] {
        let text = base64_encode(&data[..n]);
        assert_eq!(base64_decode(&text).unwrap(), data[..n].to_vec());
        let bare = text.trim_end_matches('=').to_string();
        assert_eq!(base64_decode(&bare).unwrap(), data[..n].to_vec());
    }
}
