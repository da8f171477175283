//! Wire formats of speech providers: the requests that are sent to them and
//! what their responses hold.
//!
//! Costs are approximate public list prices; verify before relying on them.

use crate::audio::{parse_wav, parsed_wav, WavAudio, WavView};
use crate::base64::{base64_decode, decoded_text};
use crate::bytes::{copy_range, pcm_range, pcm_samples};
use crate::error::{outcome, ErrorView, MimicError};
use crate::http::{header_views, lossy, lossy_text};
use crate::json::{found_view, json_string, look_inside, quote_json, string_inside, Spot};
use crate::text::{chars_of, dec, decimal, same_text, string_of_range, without_slashes};
use crate::SAMPLE_RATE;
use vstd::prelude::*;
use vstd::string::*;
use vstd::utf8::*;

verus! {

/// Approximate dollars for a million generated characters.
pub open spec fn list_price(provider: Seq<char>) -> u64 {
    if provider == "openai-tts"@ {
        15
    } else if provider == "openai-tts-hd"@ {
        30
    } else if provider == "elevenlabs"@ {
        300
    } else if provider == "cartesia"@ {
        100
    } else if provider == "gemini-tts"@ {
        30
    } else {
        0
    }
}

/// Approximate dollars for a million generated characters.
pub fn cost_per_million_chars(provider: &str) -> (r: u64)
    ensures
        r == list_price(provider@),
{
    if same_text(provider, "openai-tts") {
        15
    } else if same_text(provider, "openai-tts-hd") {
        30
    } else if same_text(provider, "elevenlabs") {
        300
    } else if same_text(provider, "cartesia") {
        100
    } else if same_text(provider, "gemini-tts") {
        30
    } else {
        0
    }
}

/// The providers whose wire format is known.
#[derive(Debug, Clone, Copy, PartialEq, Eq, Structural)]
pub enum ProviderKind {
    OpenAi,
    ElevenLabs,
    Cartesia,
    Gemini,
}

/// The name of a provider.
pub open spec fn kind_name(kind: ProviderKind) -> Seq<char> {
    match kind {
        ProviderKind::OpenAi => "openai-tts"@,
        ProviderKind::ElevenLabs => "elevenlabs"@,
        ProviderKind::Cartesia => "cartesia"@,
        ProviderKind::Gemini => "gemini-tts"@,
    }
}

impl ProviderKind {
    /// The name that units of the provider are recorded under.
    pub fn name(&self) -> (r: &'static str)
        ensures
            r@ == kind_name(*self),
    {
        match self {
            ProviderKind::OpenAi => "openai-tts",
            ProviderKind::ElevenLabs => "elevenlabs",
            ProviderKind::Cartesia => "cartesia",
            ProviderKind::Gemini => "gemini-tts",
        }
    }
}

/// An HTTP speech provider. `base_url` holds scheme and host, and any gateway
/// path prefix; endpoints are appended by kind.
pub struct HttpProvider {
    pub kind: ProviderKind,
    pub base_url: String,
    pub api_key: String,
    pub model: String,
    pub default_voice: String,
}

/// The value of a provider.
#[verifier::ext_equal]
pub struct ProviderView {
    pub kind: ProviderKind,
    pub base_url: Seq<char>,
    pub api_key: Seq<char>,
    pub model: Seq<char>,
    pub default_voice: Seq<char>,
}

impl View for HttpProvider {
    type V = ProviderView;

    open spec fn view(&self) -> ProviderView {
        ProviderView {
            kind: self.kind,
            base_url: self.base_url@,
            api_key: self.api_key@,
            model: self.model@,
            default_voice: self.default_voice@,
        }
    }
}

// ---- requests ----

/// The voice that a request is for: the default voice where none is named.
pub open spec fn voice_for(p: ProviderView, voice: Seq<char>) -> Seq<char> {
    if voice == "default"@ || voice.len() == 0 {
        p.default_voice
    } else {
        voice
    }
}

/// Where the request for a text goes.
pub open spec fn request_url(p: ProviderView, voice: Seq<char>) -> Seq<char> {
    match p.kind {
        ProviderKind::OpenAi => p.base_url + "/v1/audio/speech"@,
        ProviderKind::ElevenLabs => p.base_url + "/v1/text-to-speech/"@ + voice_for(p, voice)
            + "?output_format=pcm_16000"@,
        ProviderKind::Cartesia => p.base_url + "/tts/bytes"@,
        ProviderKind::Gemini => p.base_url + "/v1beta/models/"@ + p.model
            + ":generateContent?key="@ + p.api_key,
    }
}

/// The headers of a request.
pub open spec fn request_headers(p: ProviderView) -> Seq<(Seq<char>, Seq<char>)> {
    let json = ("Content-Type"@, "application/json"@);
    match p.kind {
        ProviderKind::OpenAi => seq![("Authorization"@, "Bearer "@ + p.api_key), json],
        ProviderKind::ElevenLabs => seq![("xi-api-key"@, p.api_key), json],
        ProviderKind::Cartesia => seq![
            ("X-API-Key"@, p.api_key),
            ("Cartesia-Version"@, "2024-06-10"@),
            json,
        ],
        ProviderKind::Gemini => seq![json],
    }
}

/// The body of a request: a JSON object with its members in the order of their
/// names.
pub open spec fn request_body(p: ProviderView, text: Seq<char>, voice: Seq<char>) -> Seq<char> {
    let said = json_string(text);
    let model = json_string(p.model);
    let v = json_string(voice_for(p, voice));
    match p.kind {
        ProviderKind::OpenAi => "{\"input\":"@ + said + ",\"model\":"@ + model
            + ",\"response_format\":\"wav\",\"voice\":"@ + v + "}"@,
        ProviderKind::ElevenLabs => "{\"model_id\":"@ + model + ",\"text\":"@ + said + "}"@,
        ProviderKind::Cartesia => "{\"model_id\":"@ + model
            + ",\"output_format\":{\"container\":\"wav\",\"encoding\":\"pcm_s16le\",\"sample_rate\":16000},\"transcript\":"@
            + said + ",\"voice\":{\"id\":"@ + v + ",\"mode\":\"id\"}}"@,
        ProviderKind::Gemini => "{\"contents\":[{\"parts\":[{\"text\":"@ + said
            + "}]}],\"generationConfig\":{\"responseModalities\":[\"AUDIO\"],\"speechConfig\":{\"voiceConfig\":{\"prebuiltVoiceConfig\":{\"voiceName\":"@
            + v + "}}}}}"@,
    }
}

// ---- responses ----

/// Two of every three samples, which takes 24 kHz to 16 kHz.
pub open spec fn decimated(s: Seq<i16>) -> Seq<i16> {
    Seq::new(2 * (s.len() / 3), |i: int| s[3 * (i / 2) + i % 2])
}

/// The audio that a response holds, given what stands in it where Gemini puts
/// its data.
pub open spec fn response_audio(
    kind: ProviderKind,
    body: Seq<u8>,
    data: core::result::Result<Option<Seq<char>>, Seq<char>>,
) -> core::result::Result<WavView, ErrorView> {
    match kind {
        ProviderKind::OpenAi | ProviderKind::Cartesia => parsed_wav(body),
        ProviderKind::ElevenLabs => Ok(
            WavView { samples: pcm_samples(body), sample_rate: SAMPLE_RATE },
        ),
        ProviderKind::Gemini => match data {
            Err(m) => Err(ErrorView::Wav("gemini: bad json: "@ + m)),
            Ok(None) => Err(ErrorView::Wav("gemini: no inlineData.data"@)),
            Ok(Some(t)) => match decoded_text(t) {
                Err(e) => Err(e),
                Ok(pcm) => Ok(
                    WavView { samples: decimated(pcm_samples(pcm)), sample_rate: SAMPLE_RATE },
                ),
            },
        },
    }
}

/// What stands in a response where Gemini puts its data.
pub open spec fn gemini_data(body: Seq<u8>) -> core::result::Result<
    Option<Seq<char>>,
    Seq<char>,
> {
    string_inside(body, "candidates"@, 0, "content"@, "parts"@, 0, "inlineData"@, "data"@)
}

/// The first bytes of a body, as they are quoted in a message.
pub open spec fn excerpt(body: Seq<u8>) -> Seq<u8> {
    if body.len() <= 200 {
        body
    } else {
        body.take(200)
    }
}

/// What comes of a response: audio where the status is 200.
pub open spec fn answer_of(kind: ProviderKind, status: u16, body: Seq<u8>) -> core::result::Result<
    WavView,
    ErrorView,
> {
    if status != 200 {
        Err(
            ErrorView::Wav(
                kind_name(kind) + ": HTTP "@ + dec(status as nat) + ": "@ + lossy_text(
                    excerpt(body),
                ),
            ),
        )
    } else {
        response_audio(kind, body, gemini_data(body))
    }
}

/// Keeps two of every three samples.
pub fn decimate(s: &Vec<i16>) -> (r: Vec<i16>)
    ensures
        r@ == decimated(s@),
{
    let n: usize = s.len();
    let mut out: Vec<i16> = Vec::new();
    let mut i: usize = 0;
    while n - i >= 3
        invariant
            n == s@.len(),
            i <= n,
            i % 3 == 0,
            out@.len() == 2 * (i / 3),
            forall|k: int| 0 <= k < out@.len() ==> out@[k] == s@[3 * (k / 2) + k % 2],
        decreases n - i,
    {
        out.push(s[i]);
        out.push(s[i + 1]);
        proof {
            let k = 2 * (i as int / 3);
            assert(k / 2 == i / 3 && k % 2 == 0);
            assert((k + 1) / 2 == i / 3 && (k + 1) % 2 == 1);
        }
        i += 3;
    }
    assert(out@ =~= decimated(s@));
    out
}

/// The audio that a response holds, given what stands in it where Gemini puts
/// its data.
pub fn read_audio(
    kind: ProviderKind,
    body: &[u8],
    data: core::result::Result<Option<String>, String>,
) -> (r: core::result::Result<WavAudio, MimicError>)
    ensures
        outcome(r) == response_audio(kind, body@, found_view(data)),
{
    match kind {
        ProviderKind::OpenAi | ProviderKind::Cartesia => parse_wav(body),
        ProviderKind::ElevenLabs => {
            let samples = pcm_range(body, 0, body.len());
            assert(body@.subrange(0, body@.len() as int) =~= body@);
            Ok(WavAudio::new(samples, SAMPLE_RATE))
        },
        ProviderKind::Gemini => match data {
            Err(m) => {
                let mut t = "gemini: bad json: ".to_owned();
                t.append(m.as_str());
                Err(MimicError::Wav(t))
            },
            Ok(None) => Err(MimicError::Wav("gemini: no inlineData.data".to_owned())),
            Ok(Some(t)) => match base64_decode(t.as_str()) {
                Err(e) => Err(e),
                Ok(pcm) => {
                    let wide = pcm_range(pcm.as_slice(), 0, pcm.len());
                    assert(pcm@.subrange(0, pcm@.len() as int) =~= pcm@);
                    Ok(WavAudio::new(decimate(&wide), SAMPLE_RATE))
                },
            },
        },
    }
}

fn trim_url(s: &str) -> (r: String)
    ensures
        r@ == without_slashes(s@),
{
    let v = chars_of(s);
    let mut n: usize = v.len();
    assert(v@.take(n as int) =~= v@);
    while n > 0 && v[n - 1] == '/'
        invariant
            n <= v@.len(),
            v@ == s@,
            without_slashes(v@.take(n as int)) == without_slashes(s@),
        decreases n,
    {
        let ghost t = v@.take(n as int);
        assert(t.last() == v@[n - 1]);
        assert(t.drop_last() =~= v@.take(n - 1));
        n -= 1;
    }
    proof {
        let t = v@.take(n as int);
        if n > 0 {
            assert(t.last() == v@[n - 1]);
        }
        assert(v@.subrange(0, n as int) =~= t);
    }
    string_of_range(&v, 0, n)
}

fn header(name: &str, value: &str) -> (r: (String, String))
    ensures
        r.0@ == name@,
        r.1@ == value@,
{
    (name.to_owned(), value.to_owned())
}

impl HttpProvider {
    /// A provider at a base URL, whose trailing slashes do not count.
    pub fn new(
        kind: ProviderKind,
        base_url: &str,
        api_key: &str,
        model: &str,
        default_voice: &str,
    ) -> (r: HttpProvider)
        ensures
            r@ == (ProviderView {
                kind,
                base_url: without_slashes(base_url@),
                api_key: api_key@,
                model: model@,
                default_voice: default_voice@,
            }),
    {
        HttpProvider {
            kind,
            base_url: trim_url(base_url),
            api_key: api_key.to_owned(),
            model: model.to_owned(),
            default_voice: default_voice.to_owned(),
        }
    }

    fn voice_or(&self, voice: &str) -> (r: String)
        ensures
            r@ == voice_for(self@, voice@),
    {
        if same_text(voice, "default") || voice.is_empty() {
            self.default_voice.clone()
        } else {
            voice.to_owned()
        }
    }

    fn url(&self, voice: &str) -> (r: String)
        ensures
            r@ == request_url(self@, voice@),
    {
        let mut out = self.base_url.clone();
        match self.kind {
            ProviderKind::OpenAi => {
                out.append("/v1/audio/speech");
            },
            ProviderKind::ElevenLabs => {
                out.append("/v1/text-to-speech/");
                out.append(self.voice_or(voice).as_str());
                out.append("?output_format=pcm_16000");
            },
            ProviderKind::Cartesia => {
                out.append("/tts/bytes");
            },
            ProviderKind::Gemini => {
                out.append("/v1beta/models/");
                out.append(self.model.as_str());
                out.append(":generateContent?key=");
                out.append(self.api_key.as_str());
            },
        }
        out
    }

    fn headers(&self) -> (r: Vec<(String, String)>)
        ensures
            header_views(r@) == request_headers(self@),
    {
        let mut out: Vec<(String, String)> = Vec::new();
        match self.kind {
            ProviderKind::OpenAi => {
                let mut bearer = "Bearer ".to_owned();
                bearer.append(self.api_key.as_str());
                out.push(header("Authorization", bearer.as_str()));
            },
            ProviderKind::ElevenLabs => {
                out.push(header("xi-api-key", self.api_key.as_str()));
            },
            ProviderKind::Cartesia => {
                out.push(header("X-API-Key", self.api_key.as_str()));
                out.push(header("Cartesia-Version", "2024-06-10"));
            },
            ProviderKind::Gemini => {},
        }
        out.push(header("Content-Type", "application/json"));
        assert(header_views(out@) =~= request_headers(self@));
        out
    }

    fn body(&self, text: &str, voice: &str) -> (r: String)
        ensures
            r@ == request_body(self@, text@, voice@),
    {
        let said = quote_json(text);
        let model = quote_json(self.model.as_str());
        let v = quote_json(self.voice_or(voice).as_str());
        let mut out = String::new();
        match self.kind {
            ProviderKind::OpenAi => {
                out.append("{\"input\":");
                out.append(said.as_str());
                out.append(",\"model\":");
                out.append(model.as_str());
                out.append(",\"response_format\":\"wav\",\"voice\":");
                out.append(v.as_str());
                out.append("}");
            },
            ProviderKind::ElevenLabs => {
                out.append("{\"model_id\":");
                out.append(model.as_str());
                out.append(",\"text\":");
                out.append(said.as_str());
                out.append("}");
            },
            ProviderKind::Cartesia => {
                out.append("{\"model_id\":");
                out.append(model.as_str());
                out.append(
                    ",\"output_format\":{\"container\":\"wav\",\"encoding\":\"pcm_s16le\",\"sample_rate\":16000},\"transcript\":",
                );
                out.append(said.as_str());
                out.append(",\"voice\":{\"id\":");
                out.append(v.as_str());
                out.append(",\"mode\":\"id\"}}");
            },
            ProviderKind::Gemini => {
                out.append("{\"contents\":[{\"parts\":[{\"text\":");
                out.append(said.as_str());
                out.append(
                    "}]}],\"generationConfig\":{\"responseModalities\":[\"AUDIO\"],\"speechConfig\":{\"voiceConfig\":{\"prebuiltVoiceConfig\":{\"voiceName\":",
                );
                out.append(v.as_str());
                out.append("}}}}}");
            },
        }
        assert(out@ =~= request_body(self@, text@, voice@));
        out
    }

    /// The request for a text: its URL, its headers and its body.
    pub fn request(&self, text: &str, voice: &str) -> (r: (
        String,
        Vec<(String, String)>,
        Vec<u8>,
    ))
        ensures
            r.0@ == request_url(self@, voice@),
            header_views(r.1@) == request_headers(self@),
            r.2@ == encode_utf8(request_body(self@, text@, voice@)),
    {
        let body = self.body(text, voice);
        let bytes = body.as_str().as_bytes();
        let copy = copy_range(bytes, 0, bytes.len());
        assert(copy@ =~= bytes@);
        (self.url(voice), self.headers(), copy)
    }

    /// The audio that a response holds.
    pub fn parse(&self, body: &[u8]) -> (r: core::result::Result<WavAudio, MimicError>)
        ensures
            outcome(r) == response_audio(self.kind, body@, gemini_data(body@)),
    {
        let at = Spot {
            outer: "candidates",
            first: 0,
            inner: "content",
            list: "parts",
            second: 0,
            member: "inlineData",
            leaf: "data",
        };
        match self.kind {
            ProviderKind::Gemini => read_audio(self.kind, body, look_inside(body, &at)),
            _ => {
                let r = read_audio(self.kind, body, Ok(None));
                r
            },
        }
    }

    /// What comes of a response to a request.
    pub fn answer(&self, status: u16, body: &[u8]) -> (r: core::result::Result<
        WavAudio,
        MimicError,
    >)
        ensures
            outcome(r) == answer_of(self.kind, status, body@),
    {
        if status != 200 {
            let n: usize = if body.len() <= 200 {
                body.len()
            } else {
                200
            };
            let head = copy_range(body, 0, n);
            assert(head@ =~= excerpt(body@));
            let mut m = self.kind.name().to_owned();
            m.append(": HTTP ");
            m.append(decimal(status as u64).as_str());
            m.append(": ");
            m.append(lossy(head.as_slice()).as_str());
            return Err(MimicError::Wav(m));
        }
        self.parse(body)
    }
}

// ---- laws ----

/// A request for the default voice is the request for the voice that the
/// provider is set to.
pub proof fn default_voice_stands_for_the_set_one(p: ProviderView, text: Seq<char>)
    ensures
        request_body(p, text, "default"@) == request_body(p, text, p.default_voice),
        request_url(p, "default"@) == request_url(p, p.default_voice),
{
}

/// Raw samples that a provider sends arrive as they were sent.
pub proof fn raw_samples_arrive_unchanged(
    samples: Seq<i16>,
    data: core::result::Result<Option<Seq<char>>, Seq<char>>,
)
    ensures
        response_audio(ProviderKind::ElevenLabs, crate::bytes::pcm_bytes(samples), data) == Ok::<
            WavView,
            ErrorView,
        >(WavView { samples, sample_rate: SAMPLE_RATE }),
{
    crate::bytes::pcm_round_trip(samples);
}

/// Whether one piece of two texts stands between the same characters in both.
pub open spec fn same_around(a: Seq<char>, x: Seq<char>, b: Seq<char>, y: Seq<char>) -> bool {
    exists|front: Seq<char>, back: Seq<char>|
        a == #[trigger] (front + x + back) && b == front + y + back
}

proof fn lemma_around(
    a: Seq<char>,
    x: Seq<char>,
    b: Seq<char>,
    y: Seq<char>,
    front: Seq<char>,
    back: Seq<char>,
)
    requires
        a == front + x + back,
        b == front + y + back,
    ensures
        same_around(a, x, b, y),
{
}

/// A request says its text: two requests that differ in their texts differ in
/// that, and each holds its own text as a JSON string.
pub proof fn requests_say_their_text(
    p: ProviderView,
    text: Seq<char>,
    other: Seq<char>,
    voice: Seq<char>,
)
    ensures
        same_around(
            request_body(p, text, voice),
            json_string(text),
            request_body(p, other, voice),
            json_string(other),
        ),
{
    let a = request_body(p, text, voice);
    let b = request_body(p, other, voice);
    let model = json_string(p.model);
    let v = json_string(voice_for(p, voice));
    let (front, back) = match p.kind {
        ProviderKind::OpenAi => (
            "{\"input\":"@,
            ",\"model\":"@ + model + ",\"response_format\":\"wav\",\"voice\":"@ + v + "}"@,
        ),
        ProviderKind::ElevenLabs => ("{\"model_id\":"@ + model + ",\"text\":"@, "}"@),
        ProviderKind::Cartesia => (
            "{\"model_id\":"@ + model
                + ",\"output_format\":{\"container\":\"wav\",\"encoding\":\"pcm_s16le\",\"sample_rate\":16000},\"transcript\":"@,
            ",\"voice\":{\"id\":"@ + v + ",\"mode\":\"id\"}}"@,
        ),
        ProviderKind::Gemini => (
            "{\"contents\":[{\"parts\":[{\"text\":"@,
            "}]}],\"generationConfig\":{\"responseModalities\":[\"AUDIO\"],\"speechConfig\":{\"voiceConfig\":{\"prebuiltVoiceConfig\":{\"voiceName\":"@
                + v + "}}}}}"@,
        ),
    };
    assert(a =~= front + json_string(text) + back);
    assert(b =~= front + json_string(other) + back);
    lemma_around(a, json_string(text), b, json_string(other), front, back);
}

/// A request asks for its voice: in its URL where the provider reads it there,
/// and in its body otherwise.
pub proof fn requests_ask_for_their_voice(
    p: ProviderView,
    text: Seq<char>,
    voice: Seq<char>,
    other: Seq<char>,
)
    requires
        voice != "default"@,
        voice.len() > 0,
        other != "default"@,
        other.len() > 0,
    ensures
        p.kind == ProviderKind::ElevenLabs ==> same_around(
            request_url(p, voice),
            voice,
            request_url(p, other),
            other,
        ),
        p.kind != ProviderKind::ElevenLabs ==> same_around(
            request_body(p, text, voice),
            json_string(voice),
            request_body(p, text, other),
            json_string(other),
        ),
{
    let said = json_string(text);
    let model = json_string(p.model);
    if p.kind == ProviderKind::ElevenLabs {
        let front = p.base_url + "/v1/text-to-speech/"@;
        let back = "?output_format=pcm_16000"@;
        lemma_around(request_url(p, voice), voice, request_url(p, other), other, front, back);
    } else {
        let a = request_body(p, text, voice);
        let b = request_body(p, text, other);
        let (front, back) = match p.kind {
            ProviderKind::Cartesia => (
                "{\"model_id\":"@ + model
                    + ",\"output_format\":{\"container\":\"wav\",\"encoding\":\"pcm_s16le\",\"sample_rate\":16000},\"transcript\":"@
                    + said + ",\"voice\":{\"id\":"@,
                ",\"mode\":\"id\"}}"@,
            ),
            ProviderKind::Gemini => (
                "{\"contents\":[{\"parts\":[{\"text\":"@ + said
                    + "}]}],\"generationConfig\":{\"responseModalities\":[\"AUDIO\"],\"speechConfig\":{\"voiceConfig\":{\"prebuiltVoiceConfig\":{\"voiceName\":"@,
                "}}}}}"@,
            ),
            _ => (
                "{\"input\":"@ + said + ",\"model\":"@ + model
                    + ",\"response_format\":\"wav\",\"voice\":"@,
                "}"@,
            ),
        };
        assert(a =~= front + json_string(voice) + back);
        assert(b =~= front + json_string(other) + back);
        lemma_around(a, json_string(voice), b, json_string(other), front, back);
    }
}

/// A request carries the key of its provider, at the end of its URL or at the
/// end of its first header, and goes to the provider's own address.
pub proof fn requests_carry_their_key(p: ProviderView, voice: Seq<char>)
    ensures
        request_url(p, voice).take(p.base_url.len() as int) == p.base_url,
        ({
            let bearer = if p.kind == ProviderKind::Gemini {
                request_url(p, voice)
            } else {
                request_headers(p)[0].1
            };
            bearer.len() >= p.api_key.len() && bearer.skip(bearer.len() - p.api_key.len())
                == p.api_key
        }),
{
    let url = request_url(p, voice);
    assert(url.take(p.base_url.len() as int) =~= p.base_url);
    let bearer = if p.kind == ProviderKind::Gemini {
        url
    } else {
        request_headers(p)[0].1
    };
    assert(bearer.skip(bearer.len() - p.api_key.len()) =~= p.api_key);
}

/// Whether a sample at 16 kHz is one of those at 24 kHz, and off its place by no
/// more than half a sample.
pub open spec fn taken_nearby(s: Seq<i16>, x: i16, i: int) -> bool {
    exists|j: int| 0 <= j < s.len() && 3 * i - 1 <= 2 * j <= 3 * i && x == #[trigger] s[j]
}

/// Audio that is taken from 24 kHz to 16 kHz keeps its time: two thirds of its
/// samples stay, each in its place.
pub proof fn resampled_audio_keeps_its_time(s: Seq<i16>)
    ensures
        2 * s.len() - 4 <= 3 * decimated(s).len() <= 2 * s.len(),
        forall|i: int|
            0 <= i < decimated(s).len() ==> taken_nearby(s, #[trigger] decimated(s)[i], i),
{
    let d = decimated(s);
    assert forall|i: int| 0 <= i < d.len() implies taken_nearby(s, #[trigger] d[i], i) by {
        let j = 3 * (i / 2) + i % 2;
        assert(d[i] == s[j]);
    }
}

/// Only what is answered with success is heard.
pub proof fn failures_are_not_heard(kind: ProviderKind, status: u16, body: Seq<u8>)
    ensures
        answer_of(kind, status, body) is Ok ==> status == 200,
        status == 200 && kind == ProviderKind::OpenAi ==> answer_of(kind, status, body)
            == parsed_wav(body),
        status == 200 && kind == ProviderKind::Cartesia ==> answer_of(kind, status, body)
            == parsed_wav(body),
{
}

} // verus!
