//! Plan requests, and the manifests that say which spans of a text are cached
//! and which are missing.

use crate::audio::{to_wav_bytes, wav_bytes};
use crate::codec::AudioCodec;
use crate::digest::{content_name, hash_hex, join_path, joined_path, padded, padded_decimal};
use crate::error::{ErrorView, MimicError};
use crate::store::{audio_at, matching, property, MimicStore, NodeId, NodeView};
use crate::text::{
    chars_of, dec, decimal, join_words, same_text, spoken, texts, total_len, whitespace,
};
use crate::units::{normalized, tokenize, tokens, tokens_spell_the_normal_form, UnitLevel};
use vstd::prelude::*;
use vstd::string::*;
use vstd::utf8::*;

verus! {

/// A text to be planned, and the voice, model and settings it is asked for in.
pub struct PlanRequest {
    pub text: String,
    pub voice_id: String,
    pub model_id: String,
    pub settings_key: String,
}

/// The value of a request.
#[verifier::ext_equal]
pub struct RequestView {
    pub text: Seq<char>,
    pub voice_id: Seq<char>,
    pub model_id: Seq<char>,
    pub settings_key: Seq<char>,
}

impl View for PlanRequest {
    type V = RequestView;

    open spec fn view(&self) -> RequestView {
        RequestView {
            text: self.text@,
            voice_id: self.voice_id@,
            model_id: self.model_id@,
            settings_key: self.settings_key@,
        }
    }
}

impl Clone for PlanRequest {
    fn clone(&self) -> (r: PlanRequest)
        ensures
            r@ == self@,
    {
        PlanRequest {
            text: self.text.clone(),
            voice_id: self.voice_id.clone(),
            model_id: self.model_id.clone(),
            settings_key: self.settings_key.clone(),
        }
    }
}

/// The model that a request is for where it names none.
pub fn default_model() -> (r: String)
    ensures
        r@ == "eleven_multilingual_v2"@,
{
    "eleven_multilingual_v2".to_owned()
}

/// One span of a manifest: served by a cached unit, or missing.
#[derive(Debug, PartialEq, Eq)]
pub struct ManifestSpan {
    pub span_id: String,
    pub kind: String,
    pub text: String,
    pub node_id: Option<u64>,
    pub link: Option<String>,
    pub sha256: Option<String>,
    pub bytes: u64,
}

/// The value of a span.
#[verifier::ext_equal]
pub struct SpanView {
    pub span_id: Seq<char>,
    pub kind: Seq<char>,
    pub text: Seq<char>,
    pub node_id: Option<u64>,
    pub link: Option<Seq<char>>,
    pub sha256: Option<Seq<char>>,
    pub bytes: u64,
}

/// The text of an optional string.
pub open spec fn text_of(s: Option<String>) -> Option<Seq<char>> {
    match s {
        Some(t) => Some(t@),
        None => None,
    }
}

fn copy_text(s: &Option<String>) -> (r: Option<String>)
    ensures
        text_of(r) == text_of(*s),
{
    match s {
        Some(t) => Some(t.clone()),
        None => None,
    }
}

impl View for ManifestSpan {
    type V = SpanView;

    open spec fn view(&self) -> SpanView {
        SpanView {
            span_id: self.span_id@,
            kind: self.kind@,
            text: self.text@,
            node_id: self.node_id,
            link: text_of(self.link),
            sha256: text_of(self.sha256),
            bytes: self.bytes,
        }
    }
}

impl Clone for ManifestSpan {
    fn clone(&self) -> (r: ManifestSpan)
        ensures
            r@ == self@,
    {
        ManifestSpan {
            span_id: self.span_id.clone(),
            kind: self.kind.clone(),
            text: self.text.clone(),
            node_id: self.node_id,
            link: copy_text(&self.link),
            sha256: copy_text(&self.sha256),
            bytes: self.bytes,
        }
    }
}

/// The values of a sequence of spans.
pub open spec fn manifest_spans(v: Seq<ManifestSpan>) -> Seq<SpanView> {
    Seq::new(v.len(), |i: int| v[i]@)
}

/// A file that a manifest links to: where its content belongs, and under which
/// name the manifest links it.
pub struct Artifact {
    pub object: String,
    pub link: String,
    pub bytes: Vec<u8>,
}

/// The value of an artifact.
#[verifier::ext_equal]
pub struct ArtifactView {
    pub object: Seq<char>,
    pub link: Seq<char>,
    pub bytes: Seq<u8>,
}

impl View for Artifact {
    type V = ArtifactView;

    open spec fn view(&self) -> ArtifactView {
        ArtifactView { object: self.object@, link: self.link@, bytes: self.bytes@ }
    }
}

/// The values of a sequence of artifacts.
pub open spec fn artifact_views(v: Seq<Artifact>) -> Seq<ArtifactView> {
    Seq::new(v.len(), |i: int| v[i]@)
}

// ---- the cache domain ----

/// The domain in which audio of a request may be reused: one for each model
/// and settings.
pub open spec fn domain_of(r: RequestView) -> Seq<char> {
    "voxd-elevenlabs:"@ + content_name(
        encode_utf8(r.model_id + seq!['\0'] + r.settings_key),
    ).take(16)
}

/// The domain in which audio of a request may be reused.
pub fn cache_domain(request: &PlanRequest) -> (r: String)
    ensures
        r@ == domain_of(request@),
{
    let mut key = request.model_id.clone();
    key.push('\0');
    key.append(request.settings_key.as_str());
    assert(key@ =~= request.model_id@ + seq!['\0'] + request.settings_key@);
    let digest = hash_hex(key.as_str().as_bytes());
    let mut out = "voxd-elevenlabs:".to_owned();
    let head = crate::text::string_of_range(&chars_of(digest.as_str()), 0, 16);
    out.append(head.as_str());
    assert(head@ =~= digest@.take(16));
    out
}

// ---- reuse ----

/// What a manifest is drafted against.
pub struct Planning {
    pub nodes: Seq<NodeView>,
    pub voice: Seq<char>,
    pub domain: Seq<char>,
    pub object_root: Seq<char>,
}

/// Whether a unit may be reused: recorded in the voice and in the domain that
/// are asked for.
pub open spec fn reusable(x: Planning, id: NodeId) -> bool {
    &&& property(x.nodes, id, "voice"@) == Some(x.voice)
    &&& property(x.nodes, id, "cache_domain"@) == Some(x.domain)
}

/// The first unit that may be reused.
pub open spec fn first_reusable(x: Planning, ids: Seq<NodeId>) -> Option<NodeId>
    decreases ids.len(),
{
    if ids.len() == 0 {
        None
    } else if reusable(x, ids[0]) {
        Some(ids[0])
    } else {
        first_reusable(x, ids.skip(1))
    }
}

/// The unit that serves a text at a level.
pub open spec fn unit_for(x: Planning, level: UnitLevel, text: Seq<char>) -> Option<NodeId> {
    first_reusable(x, matching(x.nodes, level, text))
}

/// What a manifest is drafted against, given a store and the strings asked for.
pub open spec fn planning(
    nodes: Seq<NodeView>,
    voice: Seq<char>,
    domain: Seq<char>,
    object_root: Seq<char>,
) -> Planning {
    Planning { nodes, voice, domain, object_root }
}

fn find_unit(
    store: &MimicStore,
    voice: &str,
    domain: &str,
    level: UnitLevel,
    text: &str,
    x: Ghost<Planning>,
) -> (r: Option<NodeId>)
    requires
        x@.nodes == store@.nodes,
        x@.voice == voice@,
        x@.domain == domain@,
    ensures
        r == unit_for(x@, level, text@),
{
    let ids = store.lookup_exact(level, text);
    let mut i: usize = 0;
    assert(ids@.skip(0) =~= ids@);
    while i < ids.len()
        invariant
            x@.nodes == store@.nodes,
            x@.voice == voice@,
            x@.domain == domain@,
            ids@ == matching(x@.nodes, level, text@),
            i <= ids@.len(),
            first_reusable(x@, ids@.skip(i as int)) == first_reusable(x@, ids@),
        decreases ids@.len() - i,
    {
        let id: NodeId = ids[i];
        assert(ids@.skip(i as int)[0] == id);
        assert(ids@.skip(i as int).skip(1) =~= ids@.skip(i + 1));
        let same_voice = match store.prop_string(id, "voice") {
            Some(v) => same_text(v.as_str(), voice),
            None => false,
        };
        let same_domain = match store.prop_string(id, "cache_domain") {
            Some(d) => same_text(d.as_str(), domain),
            None => false,
        };
        if same_voice && same_domain {
            return Some(id);
        }
        i += 1;
    }
    None
}

// ---- spans ----

/// The name of span `n`.
pub open spec fn span_name(n: nat) -> Seq<char> {
    "span-"@ + padded(n)
}

/// The name under which span `n` links to the audio of a unit.
pub open spec fn link_name(n: nat, id: NodeId) -> Seq<char> {
    padded(n) + "-"@ + dec(id.0 as nat) + ".wav"@
}

/// Span `n`, served by a unit with the wav file `wav`.
pub open spec fn cached_span(n: nat, text: Seq<char>, id: NodeId, wav: Seq<u8>) -> SpanView {
    SpanView {
        span_id: span_name(n),
        kind: "cached"@,
        text,
        node_id: Some(id.0),
        link: Some(link_name(n, id)),
        sha256: Some(content_name(wav)),
        bytes: wav.len() as u64,
    }
}

/// Span `n`, which the cache has nothing for.
pub open spec fn missing_span(n: nat, text: Seq<char>) -> SpanView {
    SpanView {
        span_id: span_name(n),
        kind: "missing"@,
        text,
        node_id: None,
        link: None,
        sha256: None,
        bytes: 0,
    }
}

/// The file that span `n` links to.
pub open spec fn span_artifact(x: Planning, n: nat, id: NodeId, wav: Seq<u8>) -> ArtifactView {
    ArtifactView {
        object: joined_path(x.object_root, content_name(wav) + ".wav"@),
        link: link_name(n, id),
        bytes: wav,
    }
}

/// A manifest while it is drafted: its spans and files, the words since the
/// last cached span, and the characters that the cache serves.
#[verifier::ext_equal]
pub struct Drafting {
    pub spans: Seq<SpanView>,
    pub artifacts: Seq<ArtifactView>,
    pub missing: Seq<Seq<char>>,
    pub cached: nat,
}

/// The draft with its missing words as one span.
pub open spec fn flushed(d: Drafting) -> Drafting {
    if d.missing.len() == 0 {
        d
    } else {
        Drafting {
            spans: d.spans.push(missing_span(d.spans.len(), spoken(d.missing))),
            artifacts: d.artifacts,
            missing: Seq::empty(),
            cached: d.cached,
        }
    }
}

/// The draft with a span that a unit serves.
pub open spec fn served(
    x: Planning,
    d: Drafting,
    text: Seq<char>,
    id: NodeId,
    wav: Seq<u8>,
    chars: nat,
) -> Drafting {
    Drafting {
        spans: d.spans.push(cached_span(d.spans.len(), text, id, wav)),
        artifacts: d.artifacts.push(span_artifact(x, d.spans.len(), id, wav)),
        missing: d.missing,
        cached: d.cached + chars,
    }
}

/// A draft, or the problem met on the way.
pub type Drafted = core::result::Result<Drafting, ErrorView>;

/// The draft after one more word.
pub open spec fn word_drafted<C: AudioCodec + ?Sized>(
    x: Planning,
    d: Drafting,
    word: Seq<char>,
    codec: &C,
) -> Drafted {
    match unit_for(x, UnitLevel::Word, word) {
        None => Ok(Drafting { missing: d.missing.push(word), ..d }),
        Some(id) => match audio_at(x.nodes, id, codec) {
            Err(e) => Err(e),
            Ok(a) => Ok(served(x, flushed(d), word, id, wav_bytes(a), word.len())),
        },
    }
}

/// The draft of nothing.
pub open spec fn no_draft() -> Drafting {
    Drafting { spans: Seq::empty(), artifacts: Seq::empty(), missing: Seq::empty(), cached: 0 }
}

/// The draft after the first `n` words.
pub open spec fn words_drafted<C: AudioCodec + ?Sized>(
    x: Planning,
    words: Seq<Seq<char>>,
    n: nat,
    codec: &C,
) -> Drafted
    decreases n,
{
    if n == 0 {
        Ok(no_draft())
    } else {
        match words_drafted(x, words, (n - 1) as nat, codec) {
            Err(e) => Err(e),
            Ok(d) => word_drafted(x, d, words[n - 1], codec),
        }
    }
}

/// The number of characters that are not white space.
pub open spec fn visible(s: Seq<char>) -> nat
    decreases s.len(),
{
    if s.len() == 0 {
        0
    } else {
        visible(s.drop_last()) + (if whitespace(s.last()) {
            0nat
        } else {
            1nat
        })
    }
}

/// The manifest of a text in normal form: the whole of it where it is cached as
/// a phrase, and else its cached words with the words between them as missing
/// spans.
pub open spec fn drafted<C: AudioCodec + ?Sized>(x: Planning, text: Seq<char>, codec: &C) -> Drafted {
    match unit_for(x, UnitLevel::Phrase, text) {
        Some(id) => match audio_at(x.nodes, id, codec) {
            Err(e) => Err(e),
            Ok(a) => Ok(served(x, no_draft(), text, id, wav_bytes(a), visible(text))),
        },
        None => match words_drafted(x, tokens(text), tokens(text).len(), codec) {
            Err(e) => Err(e),
            Ok(d) => Ok(flushed(d)),
        },
    }
}

/// A manifest while it is drafted.
pub struct DraftSpans {
    pub spans: Vec<ManifestSpan>,
    pub artifacts: Vec<Artifact>,
    pub missing: Vec<String>,
    pub cached_chars: usize,
}

impl View for DraftSpans {
    type V = Drafting;

    open spec fn view(&self) -> Drafting {
        Drafting {
            spans: manifest_spans(self.spans@),
            artifacts: artifact_views(self.artifacts@),
            missing: texts(self.missing@),
            cached: self.cached_chars as nat,
        }
    }
}

/// Counts the characters that are not white space.
pub fn count_visible(s: &str) -> (r: usize)
    ensures
        r == visible(s@),
        r <= s@.len(),
{
    let v = chars_of(s);
    let mut count: usize = 0;
    let mut i: usize = 0;
    while i < v.len()
        invariant
            v@ == s@,
            i <= v@.len(),
            count <= i,
            count == visible(v@.take(i as int)),
        decreases v@.len() - i,
    {
        assert(v@.take(i + 1).drop_last() =~= v@.take(i as int));
        if !v[i].is_whitespace() {
            count += 1;
        }
        i += 1;
    }
    assert(v@.take(i as int) =~= v@);
    count
}

fn name_span(n: usize) -> (r: String)
    ensures
        r@ == span_name(n as nat),
{
    let mut out = "span-".to_owned();
    out.append(padded_decimal(n).as_str());
    out
}

fn name_link(n: usize, id: NodeId) -> (r: String)
    ensures
        r@ == link_name(n as nat, id),
{
    let mut out = padded_decimal(n);
    out.append("-");
    out.append(decimal(id.0).as_str());
    out.append(".wav");
    out
}

impl DraftSpans {
    fn start() -> (r: DraftSpans)
        ensures
            r@ == no_draft(),
    {
        let r = DraftSpans {
            spans: Vec::new(),
            artifacts: Vec::new(),
            missing: Vec::new(),
            cached_chars: 0,
        };
        assert(r@ =~= no_draft());
        r
    }

    /// Turns the missing words into one span.
    fn flush(&mut self)
        ensures
            final(self)@ == flushed(old(self)@),
    {
        let ghost before = self@;
        assert(before.missing.len() == self.missing@.len());
        if self.missing.len() > 0 {
            let n: usize = self.spans.len();
            let text = join_words(&self.missing, 0, self.missing.len());
            assert(before.missing.subrange(0, before.missing.len() as int) =~= before.missing);
            self.spans.push(
                ManifestSpan {
                    span_id: name_span(n),
                    kind: "missing".to_owned(),
                    text,
                    node_id: None,
                    link: None,
                    sha256: None,
                    bytes: 0,
                },
            );
            self.missing = Vec::new();
            assert(self@ =~= flushed(before));
        }
    }

    /// Adds a span that a unit serves.
    fn serve(
        &mut self,
        object_root: &str,
        text: &str,
        id: NodeId,
        wav: Vec<u8>,
        chars: usize,
        x: Ghost<Planning>,
    )
        requires
            old(self).cached_chars + chars <= usize::MAX,
            x@.object_root == object_root@,
        ensures
            final(self)@ == served(x@, old(self)@, text@, id, wav@, chars as nat),
    {
        let ghost before = self@;
        let n: usize = self.spans.len();
        let digest = hash_hex(wav.as_slice());
        let mut file = digest.clone();
        file.append(".wav");
        let object = join_path(object_root, file.as_str());
        let bytes: u64 = wav.len() as u64;
        assert(before.spans.len() == n);
        self.spans.push(
            ManifestSpan {
                span_id: name_span(n),
                kind: "cached".to_owned(),
                text: text.to_owned(),
                node_id: Some(id.0),
                link: Some(name_link(n, id)),
                sha256: Some(digest),
                bytes,
            },
        );
        self.artifacts.push(Artifact { object, link: name_link(n, id), bytes: wav });
        self.cached_chars = self.cached_chars + chars;
        assert(self@ =~= served(x@, before, text@, id, self.artifacts@.last().bytes@, chars as nat));
    }
}

/// Adds one word to a draft.
fn draft_word<C: AudioCodec + ?Sized>(
    d: &mut DraftSpans,
    store: &MimicStore,
    word: &str,
    voice: &str,
    domain: &str,
    object_root: &str,
    codec: &C,
) -> (r: core::result::Result<(), MimicError>)
    requires
        old(d).cached_chars + word@.len() <= usize::MAX,
    ensures
        ({
            let x = planning(store@.nodes, voice@, domain@, object_root@);
            let next = word_drafted(x, old(d)@, word@, codec);
            match r {
                Err(e) => next == Err::<Drafting, ErrorView>(e@),
                Ok(()) => next == Ok::<Drafting, ErrorView>(final(d)@) && final(d).cached_chars
                    <= old(d).cached_chars + word@.len(),
            }
        }),
{
    let ghost x = planning(store@.nodes, voice@, domain@, object_root@);
    let ghost before = d@;
    match find_unit(store, voice, domain, UnitLevel::Word, word, Ghost(x)) {
        Some(id) => {
            match store.get_audio(id, codec) {
                Err(e) => Err(e),
                Ok(audio) => {
                    d.flush();
                    assert(d@.cached == before.cached);
                    let chars: usize = crate::text::char_count(word);
                    d.serve(object_root, word, id, to_wav_bytes(&audio), chars, Ghost(x));
                    Ok(())
                },
            }
        },
        None => {
            d.missing.push(word.to_owned());
            assert(d@ =~= Drafting { missing: before.missing.push(word@), ..before });
            Ok(())
        },
    }
}

proof fn lemma_word_sizes(ws: Seq<Seq<char>>, i: int)
    requires
        0 <= i < ws.len(),
    ensures
        total_len(ws.take(i + 1)) == total_len(ws.take(i)) + ws[i].len(),
        total_len(ws.take(i + 1)) <= total_len(ws),
{
    assert(ws.take(i + 1).drop_last() =~= ws.take(i));
    assert(ws.take(i + 1) + ws.skip(i + 1) =~= ws);
    crate::text::lemma_total_len_append(ws.take(i + 1), ws.skip(i + 1));
}

/// Drafts the spans of a sequence of words.
fn draft_words<C: AudioCodec + ?Sized>(
    d: &mut DraftSpans,
    store: &MimicStore,
    words: &Vec<String>,
    voice: &str,
    domain: &str,
    object_root: &str,
    codec: &C,
) -> (r: core::result::Result<(), MimicError>)
    requires
        old(d)@ == no_draft(),
        total_len(texts(words@)) <= usize::MAX,
    ensures
        ({
            let x = planning(store@.nodes, voice@, domain@, object_root@);
            let all = words_drafted(x, texts(words@), words@.len(), codec);
            match r {
                Err(e) => all == Err::<Drafting, ErrorView>(e@),
                Ok(()) => all == Ok::<Drafting, ErrorView>(final(d)@),
            }
        }),
{
    let ghost x = planning(store@.nodes, voice@, domain@, object_root@);
    let ghost ws = texts(words@);
    let n: usize = words.len();
    let mut i: usize = 0;
    let ghost mut cur = d@;
    while i < n
        invariant
            x == planning(store@.nodes, voice@, domain@, object_root@),
            n == words@.len(),
            ws == texts(words@),
            total_len(ws) <= usize::MAX,
            i <= n,
            cur == d@,
            words_drafted(x, ws, i as nat, codec) == Ok::<Drafting, ErrorView>(cur),
            d.cached_chars <= total_len(ws.take(i as int)),
        decreases n - i,
    {
        let word = words[i].as_str();
        proof {
            assert(ws[i as int] == word@);
            lemma_word_sizes(ws, i as int);
        }
        match draft_word(d, store, word, voice, domain, object_root, codec) {
            Err(e) => {
                proof {
                    lemma_drafting_fails(x, ws, (i + 1) as nat, n as nat, codec);
                }
                return Err(e);
            },
            Ok(()) => {},
        }
        proof {
            cur = d@;
        }
        i += 1;
    }
    Ok(())
}

/// Says which spans of a text in normal form are cached and which are missing.
pub fn draft_spans<C: AudioCodec + ?Sized>(
    store: &MimicStore,
    text: &str,
    voice: &str,
    domain: &str,
    object_root: &str,
    codec: &C,
) -> (r: core::result::Result<DraftSpans, MimicError>)
    ensures
        crate::error::outcome(r) == drafted(
            planning(store@.nodes, voice@, domain@, object_root@),
            text@,
            codec,
        ),
{
    let ghost x = planning(store@.nodes, voice@, domain@, object_root@);
    let mut d = DraftSpans::start();
    match find_unit(store, voice, domain, UnitLevel::Phrase, text, Ghost(x)) {
        Some(id) => {
            match store.get_audio(id, codec) {
                Err(e) => Err(e),
                Ok(audio) => {
                    let chars: usize = count_visible(text);
                    d.serve(object_root, text, id, to_wav_bytes(&audio), chars, Ghost(x));
                    Ok(d)
                },
            }
        },
        None => {
            let words = tokenize(text);
            match draft_words(&mut d, store, &words, voice, domain, object_root, codec) {
                Err(e) => {
                    return Err(e);
                },
                Ok(()) => {},
            }
            d.flush();
            Ok(d)
        },
    }
}

/// A problem met early ends the draft.
proof fn lemma_drafting_fails<C: AudioCodec + ?Sized>(
    x: Planning,
    words: Seq<Seq<char>>,
    k: nat,
    n: nat,
    codec: &C,
)
    requires
        k <= n,
        words_drafted(x, words, k, codec) is Err,
    ensures
        words_drafted(x, words, n, codec) == words_drafted(x, words, k, codec),
    decreases n,
{
    if k < n {
        lemma_drafting_fails(x, words, k, (n - 1) as nat, codec);
    }
}

// ---- laws ----

/// Whether the spans of a manifest are named by their position, and each is
/// either served by a unit that may be reused, or missing.
pub open spec fn spans_are_sound(x: Planning, spans: Seq<SpanView>) -> bool {
    forall|k: int|
        0 <= k < spans.len() ==> {
            let span = #[trigger] spans[k];
            &&& span.span_id == span_name(k as nat)
            &&& match span.node_id {
                Some(n) => span.kind == "cached"@ && reusable(x, NodeId(n)) && span.link == Some(
                    link_name(k as nat, NodeId(n)),
                ) && span.sha256 is Some,
                None => span == missing_span(k as nat, span.text),
            }
        }
}

/// Whether span `k` is missing.
pub open spec fn is_missing(spans: Seq<SpanView>, k: int) -> bool {
    spans[k].node_id is None
}

/// Whether no two missing spans are neighbours.
pub open spec fn spans_are_coalesced(spans: Seq<SpanView>) -> bool {
    forall|k: int|
        0 < k < spans.len() ==> !(#[trigger] is_missing(spans, k) && is_missing(spans, k - 1))
}

/// The texts of a sequence of spans.
pub open spec fn manifest_texts(spans: Seq<SpanView>) -> Seq<Seq<char>> {
    Seq::new(spans.len(), |k: int| spans[k].text)
}

proof fn lemma_first_reusable(x: Planning, ids: Seq<NodeId>)
    ensures
        first_reusable(x, ids) matches Some(id) ==> reusable(x, id),
    decreases ids.len(),
{
    if ids.len() > 0 && !reusable(x, ids[0]) {
        lemma_first_reusable(x, ids.skip(1));
    }
}

proof fn lemma_spoken_grouped(t: Seq<Seq<char>>, m: Seq<Seq<char>>)
    requires
        m.len() > 0,
    ensures
        spoken(t.push(spoken(m))) == spoken(t + m),
    decreases m.len(),
{
    let grouped = t.push(spoken(m));
    assert(grouped.drop_last() =~= t);
    assert((t + m).drop_last() =~= t + m.drop_last());
    if m.len() == 1 {
        assert(t + m =~= grouped);
    } else {
        lemma_spoken_grouped(t, m.drop_last());
        let inner = t.push(spoken(m.drop_last()));
        assert(inner.drop_last() =~= t);
        if t.len() == 0 {
            assert(t + m =~= m);
            assert(t + m.drop_last() =~= m.drop_last());
            assert(grouped =~= seq![spoken(m)]);
        } else {
            assert(spoken(grouped) =~= spoken(t) + seq![' '] + spoken(m));
            assert(spoken(m) =~= spoken(m.drop_last()) + seq![' '] + m.last());
            assert(spoken(inner) =~= spoken(t) + seq![' '] + spoken(m.drop_last()));
            assert(spoken(t + m) =~= spoken(t + m.drop_last()) + seq![' '] + m.last());
        }
    }
}

/// What holds of a draft after some words.
spec fn draft_is_sound(x: Planning, d: Drafting, words: Seq<Seq<char>>) -> bool {
    &&& spans_are_sound(x, d.spans)
    &&& spans_are_coalesced(d.spans)
    &&& spoken(manifest_texts(d.spans) + d.missing) == spoken(words)
    &&& d.spans.len() == 0 && d.missing.len() == 0 <==> words.len() == 0
}

/// Whether the last span of a draft, where there is one, is cached.
spec fn ends_cached(d: Drafting) -> bool {
    d.spans.len() > 0 ==> !is_missing(d.spans, d.spans.len() - 1)
}

proof fn lemma_flushed(x: Planning, d: Drafting, words: Seq<Seq<char>>)
    requires
        draft_is_sound(x, d, words),
        ends_cached(d),
    ensures
        draft_is_sound(x, flushed(d), words),
        flushed(d).missing.len() == 0,
        d.missing.len() > 0 ==> flushed(d).spans.len() > 0,
{
    let f = flushed(d);
    if d.missing.len() > 0 {
        let n = d.spans.len();
        let t = manifest_texts(d.spans);
        assert(manifest_texts(f.spans) =~= t.push(spoken(d.missing)));
        assert(manifest_texts(f.spans) + f.missing =~= t.push(spoken(d.missing)));
        lemma_spoken_grouped(t, d.missing);
        assert forall|k: int| 0 <= k < f.spans.len() implies {
            let span = #[trigger] f.spans[k];
            &&& span.span_id == span_name(k as nat)
            &&& match span.node_id {
                Some(n) => span.kind == "cached"@ && reusable(x, NodeId(n)) && span.link == Some(
                    link_name(k as nat, NodeId(n)),
                ) && span.sha256 is Some,
                None => span == missing_span(k as nat, span.text),
            }
        } by {
            if k < n {
                assert(f.spans[k] == d.spans[k]);
            }
        }
        assert forall|k: int| 0 < k < f.spans.len() implies !(#[trigger] is_missing(f.spans, k)
            && is_missing(f.spans, k - 1)) by {
            assert(f.spans[k - 1] == d.spans[k - 1]);
            if k < n {
                assert(f.spans[k] == d.spans[k]);
                assert(!(is_missing(d.spans, k) && is_missing(d.spans, k - 1)));
            } else {
                assert(!is_missing(d.spans, d.spans.len() - 1));
            }
        }
    }
}

proof fn lemma_served(
    x: Planning,
    d: Drafting,
    words: Seq<Seq<char>>,
    text: Seq<char>,
    id: NodeId,
    wav: Seq<u8>,
    chars: nat,
)
    requires
        draft_is_sound(x, d, words),
        d.missing.len() == 0,
        reusable(x, id),
    ensures
        draft_is_sound(x, served(x, d, text, id, wav, chars), words.push(text)),
        ends_cached(served(x, d, text, id, wav, chars)),
{
    let f = served(x, d, text, id, wav, chars);
    let n = d.spans.len();
    let t = manifest_texts(d.spans);
    assert(manifest_texts(f.spans) =~= t.push(text));
    assert(manifest_texts(f.spans) + f.missing =~= t.push(text));
    assert(t + d.missing =~= t);
    assert(t.push(text).drop_last() =~= t);
    assert(words.push(text).drop_last() =~= words);
    assert(spoken(t.push(text)) =~= spoken(words.push(text)));
    assert forall|k: int| 0 <= k < f.spans.len() implies {
        let span = #[trigger] f.spans[k];
        &&& span.span_id == span_name(k as nat)
        &&& match span.node_id {
            Some(n) => span.kind == "cached"@ && reusable(x, NodeId(n)) && span.link == Some(
                link_name(k as nat, NodeId(n)),
            ) && span.sha256 is Some,
            None => span == missing_span(k as nat, span.text),
        }
    } by {
        if k < n {
            assert(f.spans[k] == d.spans[k]);
        } else {
            assert(NodeId(id.0) == id);
        }
    }
    assert forall|k: int| 0 < k < f.spans.len() implies !(#[trigger] is_missing(f.spans, k)
        && is_missing(f.spans, k - 1)) by {
        if k < n {
            assert(f.spans[k - 1] == d.spans[k - 1]);
            assert(f.spans[k] == d.spans[k]);
            assert(!(is_missing(d.spans, k) && is_missing(d.spans, k - 1)));
        }
    }
}

proof fn lemma_words_drafted<C: AudioCodec + ?Sized>(
    x: Planning,
    words: Seq<Seq<char>>,
    n: nat,
    codec: &C,
)
    requires
        n <= words.len(),
        words_drafted(x, words, n, codec) is Ok,
    ensures
        draft_is_sound(x, words_drafted(x, words, n, codec)->Ok_0, words.take(n as int)),
        ends_cached(words_drafted(x, words, n, codec)->Ok_0),
    decreases n,
{
    if n == 0 {
        let d = no_draft();
        assert(manifest_texts(d.spans) + d.missing =~= words.take(0));
    } else {
        lemma_words_drafted(x, words, (n - 1) as nat, codec);
        let before = words.take(n - 1);
        let word = words[n - 1];
        let d = words_drafted(x, words, (n - 1) as nat, codec)->Ok_0;
        let next = words_drafted(x, words, n, codec)->Ok_0;
        assert(words.take(n as int) =~= before.push(word));
        match unit_for(x, UnitLevel::Word, word) {
            None => {
                let t = manifest_texts(d.spans);
                assert(manifest_texts(next.spans) + next.missing =~= (t + d.missing).push(word));
                assert((t + d.missing).push(word).drop_last() =~= t + d.missing);
                assert(before.push(word).drop_last() =~= before);
                assert(spoken((t + d.missing).push(word)) =~= spoken(before.push(word)));
            },
            Some(id) => {
                lemma_first_reusable(x, matching(x.nodes, UnitLevel::Word, word));
                lemma_flushed(x, d, before);
                let wav = wav_bytes(audio_at(x.nodes, id, codec)->Ok_0);
                lemma_served(x, flushed(d), before, word, id, wav, word.len());
            },
        }
    }
}

/// A manifest covers its text: spoken in order, its spans say the whole of it.
/// Spans are named by their position. A span is served only by a unit that was
/// recorded in the voice and in the domain asked for. Missing words are
/// coalesced: no two missing spans are neighbours.
pub proof fn manifest_covers_the_text<C: AudioCodec + ?Sized>(
    x: Planning,
    text: Seq<char>,
    codec: &C,
)
    requires
        drafted(x, text, codec) is Ok,
    ensures
        ({
            let d = drafted(x, text, codec)->Ok_0;
            &&& spans_are_sound(x, d.spans)
            &&& spans_are_coalesced(d.spans)
            &&& spoken(manifest_texts(d.spans)) == (if unit_for(
                x,
                UnitLevel::Phrase,
                text,
            ) is Some {
                text
            } else {
                spoken(tokens(text))
            })
        }),
{
    let d = drafted(x, text, codec)->Ok_0;
    match unit_for(x, UnitLevel::Phrase, text) {
        Some(id) => {
            lemma_first_reusable(x, matching(x.nodes, UnitLevel::Phrase, text));
            let none = no_draft();
            let nothing = Seq::<Seq<char>>::empty();
            assert(manifest_texts(none.spans) + none.missing =~= nothing);
            let wav = wav_bytes(audio_at(x.nodes, id, codec)->Ok_0);
            lemma_served(x, none, nothing, text, id, wav, visible(text));
            assert(manifest_texts(d.spans) =~= seq![text]);
        },
        None => {
            let words = tokens(text);
            lemma_words_drafted(x, words, words.len(), codec);
            assert(words.take(words.len() as int) =~= words);
            lemma_flushed(x, words_drafted(x, words, words.len(), codec)->Ok_0, words);
            assert(manifest_texts(d.spans) + d.missing =~= manifest_texts(d.spans));
        },
    }
}

/// The characters of the missing spans that are not white space.
pub open spec fn missing_visible(spans: Seq<SpanView>) -> nat
    decreases spans.len(),
{
    if spans.len() == 0 {
        0
    } else {
        missing_visible(spans.drop_last()) + (if spans.last().node_id is None {
            visible(spans.last().text)
        } else {
            0
        })
    }
}

/// Whether no word of a sequence holds white space.
pub open spec fn are_solid(ws: Seq<Seq<char>>) -> bool {
    forall|i: int, k: int|
        0 <= i < ws.len() && 0 <= k < ws[i].len() ==> !whitespace(#[trigger] ws[i][k])
}

proof fn lemma_visible_append(a: Seq<char>, b: Seq<char>)
    ensures
        visible(a + b) == visible(a) + visible(b),
    decreases b.len(),
{
    if b.len() == 0 {
        assert(a + b =~= a);
    } else {
        assert((a + b).drop_last() =~= a + b.drop_last());
        lemma_visible_append(a, b.drop_last());
    }
}

proof fn lemma_visible_word(w: Seq<char>)
    requires
        forall|k: int| 0 <= k < w.len() ==> !whitespace(#[trigger] w[k]),
    ensures
        visible(w) == w.len(),
    decreases w.len(),
{
    if w.len() > 0 {
        let init = w.drop_last();
        assert forall|k: int| 0 <= k < init.len() implies !whitespace(#[trigger] init[k]) by {
            assert(init[k] == w[k]);
        }
        lemma_visible_word(init);
    }
}

/// Of words with spaces between them, the words are visible.
pub proof fn lemma_visible_spoken(ws: Seq<Seq<char>>)
    requires
        are_solid(ws),
    ensures
        visible(spoken(ws)) == total_len(ws),
    decreases ws.len(),
{
    if ws.len() > 0 {
        let init = ws.drop_last();
        let last = ws.last();
        assert forall|i: int, k: int|
            0 <= i < init.len() && 0 <= k < init[i].len() implies !whitespace(
            #[trigger] init[i][k],
        ) by {
            assert(init[i][k] == ws[i][k]);
        }
        lemma_visible_spoken(init);
        assert forall|k: int| 0 <= k < last.len() implies !whitespace(#[trigger] last[k]) by {
            assert(last[k] == ws[ws.len() - 1][k]);
        }
        lemma_visible_word(last);
        if ws.len() == 1 {
            assert(total_len(init) == 0);
        } else {
            lemma_visible_append(spoken(init) + seq![' '], last);
            lemma_visible_append(spoken(init), seq![' ']);
            assert(visible(seq![' ']) == 0) by {
                reveal_with_fuel(visible, 2);
                assert(seq![' '].drop_last() =~= Seq::<char>::empty());
            }
        }
    }
}

/// What a draft accounts for after some words.
spec fn draft_adds_up(d: Drafting, words: Seq<Seq<char>>) -> bool {
    &&& are_solid(d.missing)
    &&& d.cached + missing_visible(d.spans) + total_len(d.missing) == total_len(words)
}

proof fn lemma_flushed_adds_up(d: Drafting, words: Seq<Seq<char>>)
    requires
        draft_adds_up(d, words),
    ensures
        draft_adds_up(flushed(d), words),
{
    if d.missing.len() > 0 {
        lemma_visible_spoken(d.missing);
        assert(flushed(d).spans.drop_last() =~= d.spans);
    }
}

proof fn lemma_words_add_up<C: AudioCodec + ?Sized>(
    x: Planning,
    words: Seq<Seq<char>>,
    n: nat,
    codec: &C,
)
    requires
        n <= words.len(),
        are_solid(words),
        words_drafted(x, words, n, codec) is Ok,
    ensures
        draft_adds_up(words_drafted(x, words, n, codec)->Ok_0, words.take(n as int)),
    decreases n,
{
    if n > 0 {
        lemma_words_add_up(x, words, (n - 1) as nat, codec);
        let before = words.take(n - 1);
        let word = words[n - 1];
        let d = words_drafted(x, words, (n - 1) as nat, codec)->Ok_0;
        let next = words_drafted(x, words, n, codec)->Ok_0;
        assert(words.take(n as int).drop_last() =~= before);
        match unit_for(x, UnitLevel::Word, word) {
            None => {
                assert(next.missing.drop_last() =~= d.missing);
                assert forall|i: int, k: int|
                    0 <= i < next.missing.len() && 0 <= k < next.missing[i].len() implies
                    !whitespace(#[trigger] next.missing[i][k]) by {
                    if i < d.missing.len() {
                        assert(next.missing[i][k] == d.missing[i][k]);
                    } else {
                        assert(next.missing[i][k] == words[n - 1][k]);
                    }
                }
            },
            Some(id) => {
                lemma_flushed_adds_up(d, before);
                assert(next.spans.drop_last() =~= flushed(d).spans);
            },
        }
    }
}

/// A manifest accounts for every character of its text: what the cache serves
/// and what is missing add up to all that is not white space.
pub proof fn manifest_accounts_for_every_character<C: AudioCodec + ?Sized>(
    x: Planning,
    text: Seq<char>,
    codec: &C,
)
    requires
        normalized(text) == text || unit_for(x, UnitLevel::Phrase, text) is Some,
        drafted(x, text, codec) is Ok,
    ensures
        ({
            let d = drafted(x, text, codec)->Ok_0;
            d.cached + missing_visible(d.spans) == visible(text)
        }),
{
    let d = drafted(x, text, codec)->Ok_0;
    let words = tokens(text);
    assert(are_solid(words) && spoken(words) == normalized(text)) by {
        tokens_spell_the_normal_form(text);
    }
    match unit_for(x, UnitLevel::Phrase, text) {
        Some(_) => {
            reveal_with_fuel(missing_visible, 2);
            assert(d.spans.drop_last() =~= Seq::<SpanView>::empty());
        },
        None => {
            lemma_visible_spoken(words);
            lemma_words_add_up(x, words, words.len(), codec);
            assert(words.take(words.len() as int) =~= words);
            lemma_flushed_adds_up(words_drafted(x, words, words.len(), codec)->Ok_0, words);
            assert(total_len(d.missing) == 0);
        },
    }
}

/// A text that is cached as a phrase in the voice and the domain asked for is
/// served by that phrase alone, and nothing of it is missing.
pub proof fn cached_phrases_serve_whole_texts<C: AudioCodec + ?Sized>(
    x: Planning,
    text: Seq<char>,
    k: int,
    codec: &C,
)
    requires
        ({
            let ids = matching(x.nodes, UnitLevel::Phrase, text);
            0 <= k < ids.len() && reusable(x, ids[k])
        }),
        drafted(x, text, codec) is Ok,
    ensures
        ({
            let d = drafted(x, text, codec)->Ok_0;
            &&& d.spans.len() == 1
            &&& d.spans[0].node_id is Some
            &&& d.spans[0].text == text
            &&& d.missing.len() == 0
            &&& d.cached == visible(text)
        }),
{
    lemma_some_reusable(x, matching(x.nodes, UnitLevel::Phrase, text), k);
}

proof fn lemma_some_reusable(x: Planning, ids: Seq<NodeId>, k: int)
    requires
        0 <= k < ids.len(),
        reusable(x, ids[k]),
    ensures
        first_reusable(x, ids) is Some,
    decreases ids.len(),
{
    if !reusable(x, ids[0]) {
        assert(ids.skip(1)[k - 1] == ids[k]);
        lemma_some_reusable(x, ids.skip(1), k - 1);
    }
}

/// Nothing recorded in another voice or domain serves a request: where no unit
/// may be reused, the whole text is missing.
pub proof fn other_voices_serve_nothing<C: AudioCodec + ?Sized>(
    x: Planning,
    text: Seq<char>,
    codec: &C,
)
    requires
        forall|id: NodeId| !#[trigger] reusable(x, id),
    ensures
        drafted(x, text, codec) is Ok,
        ({
            let d = drafted(x, text, codec)->Ok_0;
            &&& d.cached == 0
            &&& d.artifacts.len() == 0
            &&& d.spans == (if tokens(text).len() == 0 {
                Seq::empty()
            } else {
                seq![missing_span(0, spoken(tokens(text)))]
            })
        }),
{
    lemma_first_reusable(x, matching(x.nodes, UnitLevel::Phrase, text));
    let words = tokens(text);
    lemma_nothing_served(x, words, words.len(), codec);
    assert(words.take(words.len() as int) =~= words);
    let d = drafted(x, text, codec)->Ok_0;
    if words.len() > 0 {
        assert(d.spans =~= seq![missing_span(0, spoken(words))]);
    }
}

proof fn lemma_nothing_served<C: AudioCodec + ?Sized>(
    x: Planning,
    words: Seq<Seq<char>>,
    n: nat,
    codec: &C,
)
    requires
        n <= words.len(),
        forall|id: NodeId| !#[trigger] reusable(x, id),
    ensures
        words_drafted(x, words, n, codec) == Ok::<Drafting, ErrorView>(
            Drafting { missing: words.take(n as int), ..no_draft() },
        ),
    decreases n,
{
    if n > 0 {
        lemma_nothing_served(x, words, (n - 1) as nat, codec);
        lemma_first_reusable(x, matching(x.nodes, UnitLevel::Word, words[n - 1]));
        assert(words.take(n - 1).push(words[n - 1]) =~= words.take(n as int));
    } else {
        assert(words.take(0) =~= Seq::<Seq<char>>::empty());
    }
}

} // verus!
