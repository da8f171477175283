//! The greedy composer: what a request resolves to in the cache, and the
//! speech made of it.

use crate::audio::{sliced, splice, spliced, wavs, WavAudio, WavView};
use crate::codec::AudioCodec;
use crate::double::average;
use crate::error::{ErrorView, MimicError, Result};
use crate::fade::{FadeCurve, Gains};
use crate::g2p::G2p;
use crate::pipeline::opt_dict;
use crate::report::{hit_views, mean_seam, seams, ComposeReport, ReportView};
use crate::store::{
    audio_at, entries_at, entry_pairs, fits_better, index_entries_are_complete, indexed, matching,
    EntryView, MimicStore, NodeId, NodeView,
};
use crate::speak::{
    all_spoken, answered, grown, kept, span_text, span_views, spans_within, speak_spans,
    spoken_audio, word_at, word_before, Reply,
};
use crate::text::{join_words, lemma_total_len_append, same_text, texts, total_len};
use crate::tts::TtsProvider;
use crate::units::{
    candidates, morpheme_candidates, morphemes, tokenize, tokens, tokens_are_not_empty, Candidate,
    CandidateView, UnitLevel,
};
use crate::CROSSFADE_MS;
use vstd::prelude::*;

verus! {

/// One resolved fragment of the output.
pub struct Part {
    pub audio: WavAudio,
    pub text: String,
    pub level: UnitLevel,
}

/// The value of a fragment.
#[verifier::ext_equal]
pub struct PartView {
    pub audio: WavView,
    pub text: Seq<char>,
    pub level: UnitLevel,
}

impl View for Part {
    type V = PartView;

    open spec fn view(&self) -> PartView {
        PartView { audio: self.audio@, text: self.text@, level: self.level }
    }
}

/// What becomes of one word of a request.
pub enum Slot {
    /// Nothing in the cache covers the word.
    Open,
    /// A fragment that starts at an earlier word covers it.
    Covered,
    /// A fragment starts here.
    Part(Part),
}

/// The value of a slot.
pub enum SlotView {
    Open,
    Covered,
    Part(PartView),
}

impl View for Slot {
    type V = SlotView;

    open spec fn view(&self) -> SlotView {
        match self {
            Slot::Open => SlotView::Open,
            Slot::Covered => SlotView::Covered,
            Slot::Part(p) => SlotView::Part(p@),
        }
    }
}

/// The values of a sequence of slots.
pub open spec fn slot_views(v: Seq<Slot>) -> Seq<SlotView> {
    Seq::new(v.len(), |i: int| v[i]@)
}

/// Slots, or the problem met while filling them.
pub type Planned = core::result::Result<Seq<SlotView>, ErrorView>;

// ---- phrases ----

/// The position of the first phrase with exactly the words `span`.
pub open spec fn phrase_at(ph: Seq<(Seq<char>, Seq<NodeId>)>, span: Seq<Seq<char>>) -> nat
    decreases ph.len(),
{
    if ph.len() == 0 || tokens(ph[0].0) == span {
        0
    } else {
        1 + phrase_at(ph.skip(1), span)
    }
}

pub proof fn lemma_phrase_at(ph: Seq<(Seq<char>, Seq<NodeId>)>, span: Seq<Seq<char>>, k: nat)
    requires
        k <= ph.len(),
        forall|i: int| 0 <= i < k ==> tokens((#[trigger] ph[i]).0) != span,
        k < ph.len() ==> tokens(ph[k as int].0) == span,
    ensures
        phrase_at(ph, span) == k,
    decreases ph.len(),
{
    if ph.len() > 0 && k > 0 {
        assert(tokens(ph[0].0) != span);
        let t = ph.skip(1);
        assert forall|i: int| 0 <= i < k - 1 implies tokens((#[trigger] t[i]).0) != span by {
            assert(t[i] == ph[i + 1]);
        }
        if k < ph.len() {
            assert(t[k - 1] == ph[k as int]);
        }
        lemma_phrase_at(t, span, (k - 1) as nat);
    }
}

/// Whether the words from `start` on are all open.
pub open spec fn all_open(slots: Seq<SlotView>, start: nat, len: nat) -> bool {
    forall|k: int| start <= k < start + len ==> #[trigger] slots[k] is Open
}

/// The slots with a fragment over `len` words from `start` on.
pub open spec fn claimed(slots: Seq<SlotView>, start: nat, len: nat, part: PartView) -> Seq<
    SlotView,
> {
    Seq::new(
        slots.len(),
        |i: int|
            if i == start {
                SlotView::Part(part)
            } else if start < i < start + len {
                SlotView::Covered
            } else {
                slots[i]
            },
    )
}

/// A request: the cache it is resolved against, and its words.
pub struct Request {
    pub nodes: Seq<NodeView>,
    pub words: Seq<Seq<char>>,
}

/// The cached phrases.
pub open spec fn phrases(q: Request) -> Seq<(Seq<char>, Seq<NodeId>)> {
    entries_at(indexed(q.nodes), UnitLevel::Phrase)
}

/// The slots after the phrase of `len` words at `start`, if one is cached and
/// the words are still open.
pub open spec fn phrase_tried<C: AudioCodec + ?Sized>(
    q: Request,
    slots: Seq<SlotView>,
    len: nat,
    start: nat,
    codec: &C,
) -> Planned {
    let ph = phrases(q);
    let k = phrase_at(ph, q.words.subrange(start as int, (start + len) as int)) as int;
    if k < ph.len() && all_open(slots, start, len) {
        match audio_at(q.nodes, ph[k].1[0], codec) {
            Err(e) => Err(e),
            Ok(audio) => Ok(
                claimed(
                    slots,
                    start,
                    len,
                    PartView { audio, text: ph[k].0, level: UnitLevel::Phrase },
                ),
            ),
        }
    } else {
        Ok(slots)
    }
}

/// The slots after the phrases of `len` words at the first `m` starts.
pub open spec fn starts_tried<C: AudioCodec + ?Sized>(
    q: Request,
    slots: Seq<SlotView>,
    len: nat,
    m: nat,
    codec: &C,
) -> Planned
    decreases m,
{
    if m == 0 {
        Ok(slots)
    } else {
        match starts_tried(q, slots, len, (m - 1) as nat, codec) {
            Err(e) => Err(e),
            Ok(s) => phrase_tried(q, s, len, (m - 1) as nat, codec),
        }
    }
}

/// Slots of which every one is open.
pub open spec fn open_slots(n: nat) -> Seq<SlotView> {
    Seq::new(n, |i: int| SlotView::Open)
}

/// The slots after phrases of the `m` greatest lengths, longest first.
pub open spec fn lengths_tried<C: AudioCodec + ?Sized>(q: Request, m: nat, codec: &C) -> Planned
    decreases m,
{
    if m == 0 {
        Ok(open_slots(q.words.len()))
    } else {
        match lengths_tried(q, (m - 1) as nat, codec) {
            Err(e) => Err(e),
            Ok(s) => starts_tried(q, s, (q.words.len() - m + 1) as nat, m, codec),
        }
    }
}

// ---- words ----

/// The unit among `ids` that fits a context best.
pub open spec fn best_of(
    nodes: Seq<NodeView>,
    ids: Seq<NodeId>,
    prev: Option<Seq<char>>,
    next: Option<Seq<char>>,
) -> NodeId {
    choose|id: NodeId|
        ids.contains(id) && forall|i: int|
            0 <= i < ids.len() ==> fits_better(nodes, id, #[trigger] ids[i], prev, next)
}

/// Only one unit fits best.
proof fn lemma_best_is_unique(
    nodes: Seq<NodeView>,
    ids: Seq<NodeId>,
    prev: Option<Seq<char>>,
    next: Option<Seq<char>>,
    id: NodeId,
)
    requires
        ids.contains(id),
        forall|i: int|
            0 <= i < ids.len() ==> fits_better(nodes, id, #[trigger] ids[i], prev, next),
    ensures
        best_of(nodes, ids, prev, next) == id,
{
    let b = best_of(nodes, ids, prev, next);
    let i = choose|i: int| 0 <= i < ids.len() && ids[i] == id;
    let j = choose|j: int| 0 <= j < ids.len() && ids[j] == b;
    assert(fits_better(nodes, b, ids[i], prev, next));
    assert(fits_better(nodes, id, ids[j], prev, next));
}

/// The position of the first candidate that is cached as a word.
pub open spec fn cached_candidate(nodes: Seq<NodeView>, cands: Seq<CandidateView>) -> nat
    decreases cands.len(),
{
    if cands.len() == 0 || matching(nodes, UnitLevel::Word, cands[0].word).len() > 0 {
        0
    } else {
        1 + cached_candidate(nodes, cands.skip(1))
    }
}

pub proof fn lemma_cached_candidate(nodes: Seq<NodeView>, cands: Seq<CandidateView>, k: nat)
    requires
        k <= cands.len(),
        forall|i: int|
            0 <= i < k ==> matching(nodes, UnitLevel::Word, (#[trigger] cands[i]).word).len() == 0,
        k < cands.len() ==> matching(nodes, UnitLevel::Word, cands[k as int].word).len() > 0,
    ensures
        cached_candidate(nodes, cands) == k,
    decreases cands.len(),
{
    if cands.len() > 0 && k > 0 {
        assert(matching(nodes, UnitLevel::Word, cands[0].word).len() == 0);
        let t = cands.skip(1);
        assert forall|i: int| 0 <= i < k - 1 implies matching(
            nodes,
            UnitLevel::Word,
            (#[trigger] t[i]).word,
        ).len() == 0 by {
            assert(t[i] == cands[i + 1]);
        }
        if k < cands.len() {
            assert(t[k - 1] == cands[k as int]);
        }
        lemma_cached_candidate(nodes, t, (k - 1) as nat);
    }
}

/// The first cached candidate for a stem, and the units it is cached as.
pub open spec fn stem_source(nodes: Seq<NodeView>, word: Seq<char>) -> Option<
    (CandidateView, Seq<NodeId>),
> {
    let cands = morphemes(word);
    let k = cached_candidate(nodes, cands) as int;
    if k < cands.len() {
        Some((cands[k], matching(nodes, UnitLevel::Word, cands[k].word)))
    } else {
        None
    }
}

/// What word `i` resolves to on its own: the cached word that fits its
/// neighbours best, or a segment of a longer cached word.
pub open spec fn word_resolved<C: AudioCodec + ?Sized>(
    q: Request,
    i: int,
    codec: &C,
) -> Option<core::result::Result<PartView, ErrorView>> {
    let w = q.words[i];
    let hits = matching(q.nodes, UnitLevel::Word, w);
    if hits.len() > 0 {
        let id = best_of(q.nodes, hits, word_before(q.words, i), word_at(q.words, i + 1));
        match audio_at(q.nodes, id, codec) {
            Err(e) => Some(Err(e)),
            Ok(audio) => Some(Ok(PartView { audio, text: w, level: UnitLevel::Word })),
        }
    } else {
        match stem_source(q.nodes, w) {
            None => None,
            Some((c, ids)) => match audio_at(q.nodes, ids[0], codec) {
                Err(e) => Some(Err(e)),
                Ok(full) => Some(
                    Ok(
                        PartView {
                            audio: sliced(full, c.from, c.to),
                            text: w,
                            level: UnitLevel::Morpheme,
                        },
                    ),
                ),
            },
        }
    }
}

/// The slots after the first `m` words were resolved where still open.
pub open spec fn words_tried<C: AudioCodec + ?Sized>(
    q: Request,
    slots: Seq<SlotView>,
    m: nat,
    codec: &C,
) -> Planned
    decreases m,
{
    if m == 0 {
        Ok(slots)
    } else {
        match words_tried(q, slots, (m - 1) as nat, codec) {
            Err(e) => Err(e),
            Ok(s) => if s[m - 1] is Open {
                match word_resolved(q, m - 1, codec) {
                    None => Ok(s),
                    Some(Err(e)) => Err(e),
                    Some(Ok(p)) => Ok(s.update(m - 1, SlotView::Part(p))),
                }
            } else {
                Ok(s)
            },
        }
    }
}

/// What each word of a request resolves to in the cache: phrases first,
/// longest first, then single words.
pub open spec fn plan<C: AudioCodec + ?Sized>(q: Request, codec: &C) -> Planned {
    match lengths_tried(q, q.words.len(), codec) {
        Err(e) => Err(e),
        Ok(s) => words_tried(q, s, q.words.len(), codec),
    }
}

/// A problem met early ends the pass.
proof fn lemma_starts_error<C: AudioCodec + ?Sized>(
    q: Request,
    slots: Seq<SlotView>,
    len: nat,
    k: nat,
    m: nat,
    codec: &C,
)
    requires
        k <= m,
        starts_tried(q, slots, len, k, codec) is Err,
    ensures
        starts_tried(q, slots, len, m, codec) == starts_tried(q, slots, len, k, codec),
    decreases m,
{
    if k < m {
        lemma_starts_error(q, slots, len, k, (m - 1) as nat, codec);
    }
}

proof fn lemma_lengths_error<C: AudioCodec + ?Sized>(q: Request, k: nat, m: nat, codec: &C)
    requires
        k <= m,
        lengths_tried(q, k, codec) is Err,
    ensures
        lengths_tried(q, m, codec) == lengths_tried(q, k, codec),
    decreases m,
{
    if k < m {
        lemma_lengths_error(q, k, (m - 1) as nat, codec);
    }
}

proof fn lemma_words_error<C: AudioCodec + ?Sized>(
    q: Request,
    slots: Seq<SlotView>,
    k: nat,
    m: nat,
    codec: &C,
)
    requires
        k <= m,
        words_tried(q, slots, k, codec) is Err,
    ensures
        words_tried(q, slots, m, codec) == words_tried(q, slots, k, codec),
    decreases m,
{
    if k < m {
        lemma_words_error(q, slots, k, (m - 1) as nat, codec);
    }
}

// ---- planning ----

/// Whether the words from `start` on are exactly `span`.
pub fn words_match(words: &Vec<String>, start: usize, span: &Vec<String>) -> (r: bool)
    requires
        start + span@.len() <= words@.len(),
    ensures
        r == (texts(words@).subrange(start as int, start + span@.len()) == texts(span@)),
{
    let ghost part = texts(words@).subrange(start as int, start + span@.len());
    let n: usize = span.len();
    let total: usize = words.len();
    let mut i: usize = 0;
    while i < n
        invariant
            n == span@.len(),
            total == words@.len(),
            start + n <= total,
            part == texts(words@).subrange(start as int, start + n),
            i <= n,
            forall|k: int| 0 <= k < i ==> part[k] == texts(span@)[k],
        decreases n - i,
    {
        if !same_text(words[start + i].as_str(), span[i].as_str()) {
            assert(part[i as int] != texts(span@)[i as int]);
            return false;
        }
        i += 1;
    }
    assert(part =~= texts(span@));
    true
}

/// A cached phrase with its words.
pub struct Phrase {
    pub text: String,
    pub words: Vec<String>,
    pub ids: Vec<NodeId>,
}

/// The phrases as the cache lists them.
pub open spec fn phrase_pairs(v: Seq<Phrase>) -> Seq<(Seq<char>, Seq<NodeId>)> {
    Seq::new(v.len(), |i: int| (v[i].text@, v[i].ids@))
}

/// Phrases that are listed with their own words and at least one unit.
pub open spec fn phrases_known(v: Seq<Phrase>) -> bool {
    forall|i: int|
        0 <= i < v.len() ==> texts((#[trigger] v[i]).words@) == tokens(v[i].text@)
            && v[i].ids@.len() > 0
}

/// Entries of a level are entries of the index.
pub proof fn lemma_entries_at(index: Seq<EntryView>, level: UnitLevel, k: int)
    requires
        0 <= k < entries_at(index, level).len(),
    ensures
        exists|j: int|
            0 <= j < index.len() && entries_at(index, level)[k] == (
                (#[trigger] index[j]).text,
                index[j].ids,
            ) && index[j].level == level,
    decreases index.len(),
{
    let init = index.drop_last();
    let before = entries_at(init, level);
    if k < before.len() {
        lemma_entries_at(init, level, k);
        let j = choose|j: int|
            0 <= j < init.len() && before[k] == ((#[trigger] init[j]).text, init[j].ids)
                && init[j].level == level;
        assert(index[j] == init[j]);
    } else {
        assert(index[index.len() - 1] == index.last());
    }
}

/// The cached phrases with their words.
pub fn list_phrases(store: &MimicStore) -> (r: Vec<Phrase>)
    ensures
        phrase_pairs(r@) == entries_at(indexed(store@.nodes), UnitLevel::Phrase),
        phrases_known(r@),
{
    let listed = store.units_for_level(UnitLevel::Phrase);
    let ghost all = entry_pairs(listed@);
    proof {
        index_entries_are_complete(store@.nodes);
        assert forall|k: int| 0 <= k < all.len() implies (#[trigger] all[k]).1.len() > 0 by {
            lemma_entries_at(indexed(store@.nodes), UnitLevel::Phrase, k);
        }
    }
    let mut out: Vec<Phrase> = Vec::new();
    let mut i: usize = 0;
    while i < listed.len()
        invariant
            all == entry_pairs(listed@),
            forall|k: int| 0 <= k < all.len() ==> (#[trigger] all[k]).1.len() > 0,
            i <= listed@.len(),
            out@.len() == i,
            forall|k: int|
                0 <= k < i ==> ((#[trigger] out@[k]).text@, out@[k].ids@) == all[k],
            phrases_known(out@),
        decreases listed@.len() - i,
    {
        let words = tokenize(listed[i].0.as_str());
        let ids = crate::store::copy_ids(&listed[i].1);
        assert(all[i as int].1.len() > 0);
        out.push(Phrase { text: listed[i].0.clone(), words, ids });
        i += 1;
    }
    assert(phrase_pairs(out@) =~= all);
    out
}

/// The position of the first phrase with exactly `len` words from `start` on.
fn find_phrase(ph: &Vec<Phrase>, words: &Vec<String>, start: usize, len: usize) -> (r: usize)
    requires
        start + len <= words@.len(),
        phrases_known(ph@),
    ensures
        r == phrase_at(
            phrase_pairs(ph@),
            texts(words@).subrange(start as int, start + len),
        ),
        r <= ph@.len(),
{
    let ghost pairs = phrase_pairs(ph@);
    let ghost span = texts(words@).subrange(start as int, start + len);
    let mut k: usize = 0;
    while k < ph.len()
        invariant
            start + len <= words@.len(),
            phrases_known(ph@),
            pairs == phrase_pairs(ph@),
            span == texts(words@).subrange(start as int, start + len),
            k <= ph@.len(),
            forall|i: int| 0 <= i < k ==> tokens((#[trigger] pairs[i]).0) != span,
        decreases ph@.len() - k,
    {
        assert(texts(ph@[k as int].words@).len() == ph@[k as int].words@.len());
        assert(pairs[k as int].0 == ph@[k as int].text@);
        if ph[k].words.len() == len && words_match(words, start, &ph[k].words) {
            proof {
                lemma_phrase_at(pairs, span, k as nat);
            }
            return k;
        }
        k += 1;
    }
    proof {
        lemma_phrase_at(pairs, span, k as nat);
    }
    k
}

fn is_open(slot: &Slot) -> (r: bool)
    ensures
        r == (slot@ is Open),
{
    match slot {
        Slot::Open => true,
        _ => false,
    }
}

fn range_open(slots: &Vec<Slot>, start: usize, len: usize) -> (r: bool)
    requires
        start + len <= slots@.len(),
    ensures
        r == all_open(slot_views(slots@), start as nat, len as nat),
{
    let total: usize = slots.len();
    let mut i: usize = 0;
    while i < len
        invariant
            total == slots@.len(),
            start + len <= total,
            i <= len,
            forall|k: int| start <= k < start + i ==> #[trigger] slot_views(slots@)[k] is Open,
        decreases len - i,
    {
        assert(slot_views(slots@)[start + i] == slots@[start + i]@);
        if !is_open(&slots[start + i]) {
            return false;
        }
        i += 1;
    }
    true
}

/// Puts a fragment over `len` words from `start` on.
fn claim(slots: &mut Vec<Slot>, start: usize, len: usize, part: Part)
    requires
        0 < len,
        start + len <= old(slots)@.len(),
    ensures
        slot_views(final(slots)@) == claimed(
            slot_views(old(slots)@),
            start as nat,
            len as nat,
            part@,
        ),
{
    let ghost first = slots@;
    let total: usize = slots.len();
    slots.set(start, Slot::Part(part));
    let mut i: usize = 1;
    while i < len
        invariant
            0 < len,
            total == first.len(),
            start + len <= total,
            slots@.len() == first.len(),
            1 <= i <= len,
            slots@[start as int]@ == SlotView::Part(part@),
            forall|k: int| start < k < start + i ==> (#[trigger] slots@[k])@ is Covered,
            forall|k: int|
                0 <= k < first.len() && (k < start || k >= start + i) ==> #[trigger] slots@[k]
                    == first[k],
        decreases len - i,
    {
        slots.set(start + i, Slot::Covered);
        i += 1;
    }
    assert(slot_views(slots@) =~= claimed(slot_views(first), start as nat, len as nat, part@));
}

/// Claims phrases, longest first.
fn plan_phrases<C: AudioCodec + ?Sized>(
    store: &MimicStore,
    words: &Vec<String>,
    codec: &C,
) -> (r: core::result::Result<Vec<Slot>, MimicError>)
    ensures
        ({
            let q = Request { nodes: store@.nodes, words: texts(words@) };
            match r {
                Ok(slots) => lengths_tried(q, q.words.len(), codec) == Planned::Ok(
                    slot_views(slots@),
                ) && slots@.len() == words@.len(),
                Err(e) => lengths_tried(q, q.words.len(), codec) == Planned::Err(e@),
            }
        }),
{
    let ghost q = Request { nodes: store@.nodes, words: texts(words@) };
    let ph = list_phrases(store);
    let n: usize = words.len();
    let mut slots: Vec<Slot> = Vec::new();
    let mut i: usize = 0;
    while i < n
        invariant
            i <= n,
            slots@.len() == i,
            forall|k: int| 0 <= k < i ==> (#[trigger] slots@[k])@ is Open,
        decreases n - i,
    {
        slots.push(Slot::Open);
        i += 1;
    }
    assert(slot_views(slots@) =~= open_slots(n as nat));
    let mut m: usize = 0;
    while m < n
        invariant
            q == (Request { nodes: store@.nodes, words: texts(words@) }),
            n == words@.len(),
            phrase_pairs(ph@) == phrases(q),
            phrases_known(ph@),
            m <= n,
            slots@.len() == n,
            lengths_tried(q, m as nat, codec) == Planned::Ok(slot_views(slots@)),
        decreases n - m,
    {
        let len: usize = n - m;
        let ghost round = slot_views(slots@);
        let mut start: usize = 0;
        while start < m + 1
            invariant
                q == (Request { nodes: store@.nodes, words: texts(words@) }),
                n == words@.len(),
                phrase_pairs(ph@) == phrases(q),
                phrases_known(ph@),
                m < n,
                len == n - m,
                start <= m + 1,
                slots@.len() == n,
                lengths_tried(q, m as nat, codec) == Planned::Ok(round),
                starts_tried(q, round, len as nat, start as nat, codec) == Planned::Ok(
                    slot_views(slots@),
                ),
            decreases m + 1 - start,
        {
            let ghost before = slot_views(slots@);
            let k: usize = find_phrase(&ph, words, start, len);
            if k < ph.len() && range_open(&slots, start, len) {
                assert(phrases(q)[k as int].1 == ph@[k as int].ids@);
                assert(ph@[k as int].ids@.len() > 0);
                match store.get_audio(ph[k].ids[0], codec) {
                    Err(e) => {
                        proof {
                            lemma_starts_error(
                                q,
                                round,
                                len as nat,
                                (start + 1) as nat,
                                (m + 1) as nat,
                                codec,
                            );
                            lemma_lengths_error(q, (m + 1) as nat, n as nat, codec);
                        }
                        return Err(e);
                    },
                    Ok(audio) => {
                        claim(
                            &mut slots,
                            start,
                            len,
                            Part { audio, text: ph[k].text.clone(), level: UnitLevel::Phrase },
                        );
                        assert(slot_views(slots@).len() == slots@.len());
                    },
                }
            }
            start += 1;
        }
        m += 1;
    }
    Ok(slots)
}

/// What word `i` resolves to on its own.
fn resolve_word<C: AudioCodec + ?Sized>(
    store: &MimicStore,
    words: &Vec<String>,
    i: usize,
    codec: &C,
) -> (r: Option<core::result::Result<Part, MimicError>>)
    requires
        i < words@.len(),
    ensures
        ({
            let q = Request { nodes: store@.nodes, words: texts(words@) };
            match r {
                None => word_resolved(q, i as int, codec) is None,
                Some(Err(e)) => word_resolved(q, i as int, codec) == Some(
                    Err::<PartView, ErrorView>(e@),
                ),
                Some(Ok(p)) => word_resolved(q, i as int, codec) == Some(
                    Ok::<PartView, ErrorView>(p@),
                ),
            }
        }),
{
    let ghost q = Request { nodes: store@.nodes, words: texts(words@) };
    let n: usize = words.len();
    let w: &str = words[i].as_str();
    assert(w@ == q.words[i as int]);
    let hits = store.lookup_exact(UnitLevel::Word, w);
    if hits.len() > 0 {
        let prev: Option<&str> = if i > 0 {
            Some(words[i - 1].as_str())
        } else {
            None
        };
        let next: Option<&str> = if n - i > 1 {
            Some(words[i + 1].as_str())
        } else {
            None
        };
        let id: NodeId = match store.best_context_match(hits, prev, next) {
            Some(id) => {
                proof {
                    lemma_best_is_unique(
                        q.nodes,
                        hits@,
                        word_before(q.words, i as int),
                        word_at(q.words, i + 1),
                        id,
                    );
                }
                id
            },
            None => hits[0],
        };
        return match store.get_audio(id, codec) {
            Err(e) => Some(Err(e)),
            Ok(audio) => Some(Ok(Part { audio, text: words[i].clone(), level: UnitLevel::Word })),
        };
    }
    let cands = morpheme_candidates(w);
    let ghost all = candidates(cands@);
    let mut k: usize = 0;
    while k < cands.len()
        invariant
            q == (Request { nodes: store@.nodes, words: texts(words@) }),
            i < words@.len(),
            w@ == q.words[i as int],
            w@ == words@[i as int]@,
            matching(q.nodes, UnitLevel::Word, w@).len() == 0,
            all == candidates(cands@),
            all == morphemes(w@),
            k <= cands@.len(),
            forall|j: int|
                0 <= j < k ==> matching(q.nodes, UnitLevel::Word, (#[trigger] all[j]).word).len()
                    == 0,
        decreases cands@.len() - k,
    {
        let c: &Candidate = &cands[k];
        assert(all[k as int] == c@);
        let found = store.lookup_exact(UnitLevel::Word, c.word.as_str());
        if found.len() > 0 {
            proof {
                lemma_cached_candidate(q.nodes, all, k as nat);
            }
            return match store.get_audio(found[0], codec) {
                Err(e) => Some(Err(e)),
                Ok(full) => Some(
                    Ok(
                        Part {
                            audio: full.slice_frac(c.from, c.to),
                            text: words[i].clone(),
                            level: UnitLevel::Morpheme,
                        },
                    ),
                ),
            };
        }
        k += 1;
    }
    proof {
        lemma_cached_candidate(q.nodes, all, k as nat);
    }
    None
}

/// What each word of a request resolves to in the cache.
pub fn plan_request<C: AudioCodec + ?Sized>(
    store: &MimicStore,
    words: &Vec<String>,
    codec: &C,
) -> (r: core::result::Result<Vec<Slot>, MimicError>)
    ensures
        ({
            let q = Request { nodes: store@.nodes, words: texts(words@) };
            match r {
                Ok(slots) => plan(q, codec) == Planned::Ok(slot_views(slots@)) && slots@.len()
                    == words@.len(),
                Err(e) => plan(q, codec) == Planned::Err(e@),
            }
        }),
{
    let ghost q = Request { nodes: store@.nodes, words: texts(words@) };
    let mut slots: Vec<Slot> = match plan_phrases(store, words, codec) {
        Err(e) => {
            return Err(e);
        },
        Ok(s) => s,
    };
    let ghost first = slot_views(slots@);
    let n: usize = words.len();
    let mut i: usize = 0;
    while i < n
        invariant
            q == (Request { nodes: store@.nodes, words: texts(words@) }),
            n == words@.len(),
            lengths_tried(q, n as nat, codec) == Planned::Ok(first),
            i <= n,
            slots@.len() == n,
            words_tried(q, first, i as nat, codec) == Planned::Ok(slot_views(slots@)),
        decreases n - i,
    {
        let ghost before = slot_views(slots@);
        assert(before[i as int] == slots@[i as int]@);
        let open = is_open(&slots[i]);
        if open {
            match resolve_word(store, words, i, codec) {
                None => {},
                Some(Err(e)) => {
                    proof {
                        lemma_words_error(q, first, (i + 1) as nat, n as nat, codec);
                    }
                    return Err(e);
                },
                Some(Ok(p)) => {
                    slots.set(i, Slot::Part(p));
                    assert(slot_views(slots@) =~= before.update(i as int, SlotView::Part(p@)));
                },
            }
        }
        i += 1;
    }
    Ok(slots)
}

// ---- misses ----

/// The end of the open run at `i`.
pub open spec fn run_end(slots: Seq<SlotView>, i: nat) -> nat
    decreases slots.len() - i,
{
    if i < slots.len() && slots[i as int] is Open {
        run_end(slots, i + 1)
    } else {
        i
    }
}

proof fn lemma_run_end(slots: Seq<SlotView>, i: nat)
    requires
        i <= slots.len(),
    ensures
        i <= run_end(slots, i) <= slots.len(),
        i < slots.len() && slots[i as int] is Open ==> i < run_end(slots, i),
        forall|k: int| i <= k < run_end(slots, i) ==> #[trigger] slots[k] is Open,
    decreases slots.len() - i,
{
    if i < slots.len() && slots[i as int] is Open {
        lemma_run_end(slots, i + 1);
    }
}

/// The maximal runs of open words from `i` on.
pub open spec fn open_runs(slots: Seq<SlotView>, i: nat) -> Seq<(nat, nat)>
    decreases slots.len() - i,
    via open_runs_shrink
{
    if i >= slots.len() {
        Seq::empty()
    } else if slots[i as int] is Open {
        seq![(i, run_end(slots, i))] + open_runs(slots, run_end(slots, i))
    } else {
        open_runs(slots, i + 1)
    }
}

#[via_fn]
proof fn open_runs_shrink(slots: Seq<SlotView>, i: nat) {
    if i < slots.len() {
        lemma_run_end(slots, i);
    }
}

fn list_runs(slots: &Vec<Slot>) -> (r: Vec<(usize, usize)>)
    ensures
        span_views(r@) == open_runs(slot_views(slots@), 0),
        spans_within(span_views(r@), slots@.len()),
{
    let ghost sv = slot_views(slots@);
    let n: usize = slots.len();
    let mut out: Vec<(usize, usize)> = Vec::new();
    let mut i: usize = 0;
    assert(span_views(out@) + open_runs(sv, 0) =~= open_runs(sv, 0));
    while i < n
        invariant
            n == slots@.len(),
            sv == slot_views(slots@),
            i <= n,
            span_views(out@) + open_runs(sv, i as nat) == open_runs(sv, 0),
            spans_within(span_views(out@), n as nat),
        decreases n - i,
    {
        let open = is_open(&slots[i]);
        assert(sv[i as int] == slots@[i as int]@);
        if open {
            let start: usize = i;
            i += 1;
            while i < n && is_open(&slots[i])
                invariant
                    n == slots@.len(),
                    sv == slot_views(slots@),
                    start < i <= n,
                    run_end(sv, start as nat) == run_end(sv, i as nat),
                decreases n - i,
            {
                assert(sv[i as int] == slots@[i as int]@);
                i += 1;
            }
            proof {
                if i < n {
                    assert(sv[i as int] == slots@[i as int]@);
                }
                assert(run_end(sv, start as nat) == i);
            }
            let ghost before = span_views(out@);
            out.push((start, i));
            proof {
                let here = (start as nat, i as nat);
                assert(span_views(out@) =~= before + seq![here]);
                assert((before + seq![here]) + open_runs(sv, i as nat) =~= before + (seq![here]
                    + open_runs(sv, i as nat)));
                assert forall|k: int| 0 <= k < span_views(out@).len() implies (
                #[trigger] span_views(out@)[k]).0 < span_views(out@)[k].1 <= n by {
                    if k < before.len() {
                        assert(span_views(out@)[k] == before[k]);
                    }
                }
            }
        } else {
            i += 1;
        }
    }
    assert(span_views(out@) + Seq::<(nat, nat)>::empty() =~= span_views(out@));
    out
}

/// The slots with the first `k` misses answered.
pub open spec fn filled(
    words: Seq<Seq<char>>,
    slots: Seq<SlotView>,
    replies: Seq<WavView>,
    k: nat,
) -> Seq<SlotView>
    decreases k,
{
    if k == 0 {
        slots
    } else {
        let run = open_runs(slots, 0)[k - 1];
        claimed(
            filled(words, slots, replies, (k - 1) as nat),
            run.0,
            (run.1 - run.0) as nat,
            PartView {
                audio: replies[k - 1],
                text: span_text(words, run),
                level: UnitLevel::Word,
            },
        )
    }
}

/// The fragments of the first `n` slots, in speaking order.
pub open spec fn parts_of(slots: Seq<SlotView>, n: nat) -> Seq<PartView>
    decreases n,
{
    if n == 0 {
        Seq::empty()
    } else {
        match slots[n - 1] {
            SlotView::Part(p) => parts_of(slots, (n - 1) as nat).push(p),
            _ => parts_of(slots, (n - 1) as nat),
        }
    }
}

/// The characters of the first `n` words that are open, or that are not.
pub open spec fn chars_where(
    words: Seq<Seq<char>>,
    slots: Seq<SlotView>,
    open: bool,
    n: nat,
) -> nat
    decreases n,
{
    if n == 0 {
        0
    } else {
        chars_where(words, slots, open, (n - 1) as nat) + (if (slots[n - 1] is Open) == open {
            words[n - 1].len()
        } else {
            0
        })
    }
}

/// Every character is either served from the cache or generated.
pub proof fn characters_add_up(words: Seq<Seq<char>>, slots: Seq<SlotView>, n: nat)
    requires
        n <= words.len(),
    ensures
        chars_where(words, slots, true, n) + chars_where(words, slots, false, n) == total_len(
            words.take(n as int),
        ),
    decreases n,
{
    if n > 0 {
        characters_add_up(words, slots, (n - 1) as nat);
        assert(words.take(n as int).drop_last() =~= words.take(n - 1));
        assert(words.take(n as int).last() == words[n - 1]);
    } else {
        assert(words.take(0) =~= Seq::<Seq<char>>::empty());
    }
}

/// The audio of fragments.
pub open spec fn part_audio(parts: Seq<PartView>) -> Seq<WavView> {
    Seq::new(parts.len(), |i: int| parts[i].audio)
}

/// The text and level of fragments.
pub open spec fn part_hits(parts: Seq<PartView>) -> Seq<(Seq<char>, UnitLevel)> {
    Seq::new(parts.len(), |i: int| (parts[i].text, parts[i].level))
}

/// The texts of spans.
pub open spec fn span_texts(words: Seq<Seq<char>>, spans: Seq<(nat, nat)>) -> Seq<Seq<char>> {
    Seq::new(spans.len(), |k: int| span_text(words, spans[k]))
}

/// The speech and the report once every miss is answered.
pub open spec fn finished(
    words: Seq<Seq<char>>,
    slots: Seq<SlotView>,
    replies: Seq<WavView>,
    t: Gains,
) -> core::result::Result<(WavView, ReportView), ErrorView> {
    let runs = open_runs(slots, 0);
    let parts = parts_of(filled(words, slots, replies, runs.len()), words.len());
    match spliced(part_audio(parts), CROSSFADE_MS, t) {
        Err(e) => Err(e),
        Ok(audio) => Ok(
            (
                audio,
                ReportView {
                    total_chars: total_len(words),
                    cached_chars: chars_where(words, slots, false, words.len()),
                    generated_chars: chars_where(words, slots, true, words.len()),
                    tts_calls: span_texts(words, runs),
                    hits: part_hits(parts),
                    units: Seq::empty(),
                    mean_seam_discontinuity: average(seams(part_audio(parts))),
                },
            ),
        ),
    }
}

/// The value of a finished compose.
pub open spec fn composed_view(
    r: core::result::Result<(WavAudio, ComposeReport), MimicError>,
) -> core::result::Result<(WavView, ReportView), ErrorView> {
    match r {
        Ok((a, rep)) => Ok((a@, rep@)),
        Err(e) => Err(e@),
    }
}

/// Counts the characters that are open, or that are not.
fn count_where(words: &Vec<String>, slots: &Vec<Slot>, open: bool) -> (r: usize)
    requires
        slots@.len() == words@.len(),
        total_len(texts(words@)) <= usize::MAX,
    ensures
        r == chars_where(texts(words@), slot_views(slots@), open, words@.len()),
{
    let ghost ws = texts(words@);
    let ghost sv = slot_views(slots@);
    let n: usize = words.len();
    let mut sum: usize = 0;
    let mut i: usize = 0;
    while i < n
        invariant
            n == words@.len(),
            slots@.len() == n,
            ws == texts(words@),
            sv == slot_views(slots@),
            total_len(ws) <= usize::MAX,
            i <= n,
            sum == chars_where(ws, sv, open, i as nat),
        decreases n - i,
    {
        proof {
            characters_add_up(ws, sv, (i + 1) as nat);
            assert(ws.take(i + 1) + ws.skip(i + 1) =~= ws);
            lemma_total_len_append(ws.take(i + 1), ws.skip(i + 1));
            assert(sv[i as int] == slots@[i as int]@);
        }
        let here = is_open(&slots[i]);
        if here == open {
            sum += crate::text::char_count(words[i].as_str());
        }
        i += 1;
    }
    sum
}

/// Makes the speech and the report out of what the cache gave and what a
/// provider answered for the misses.
pub fn finish<F: FadeCurve + ?Sized>(
    words: &Vec<String>,
    slots: Vec<Slot>,
    replies: &Vec<WavAudio>,
    fades: &F,
) -> (r: core::result::Result<(WavAudio, ComposeReport), MimicError>)
    requires
        slots@.len() == words@.len(),
        total_len(texts(words@)) <= usize::MAX,
        replies@.len() == open_runs(slot_views(slots@), 0).len(),
    ensures
        composed_view(r) == finished(
            texts(words@),
            slot_views(slots@),
            wavs(replies@),
            fades.gains(),
        ),
{
    let ghost ws = texts(words@);
    let ghost planned = slot_views(slots@);
    let ghost runs = open_runs(planned, 0);
    let n: usize = words.len();
    let cached_chars: usize = count_where(words, &slots, false);
    let generated_chars: usize = count_where(words, &slots, true);
    proof {
        characters_add_up(ws, planned, n as nat);
        assert(ws.take(n as int) =~= ws);
    }
    let total_chars: usize = cached_chars + generated_chars;
    let spans = list_runs(&slots);
    let mut slots = slots;
    let mut calls: Vec<String> = Vec::new();
    let mut k: usize = 0;
    assert(span_views(spans@).len() == spans@.len());
    while k < spans.len()
        invariant
            n == words@.len(),
            ws == texts(words@),
            runs == open_runs(planned, 0),
            span_views(spans@) == runs,
            spans@.len() == runs.len(),
            spans_within(runs, n as nat),
            replies@.len() == runs.len(),
            k <= spans@.len(),
            slots@.len() == n,
            slot_views(slots@) == filled(ws, planned, wavs(replies@), k as nat),
            calls@.len() == k,
            forall|i: int| 0 <= i < k ==> (#[trigger] calls@[i])@ == span_text(ws, runs[i]),
        decreases spans@.len() - k,
    {
        let (from, to) = spans[k];
        assert(runs[k as int] == (from as nat, to as nat));
        let text = join_words(words, from, to);
        calls.push(text.clone());
        let audio = replies[k].clone();
        assert(wavs(replies@)[k as int] == replies@[k as int]@);
        claim(&mut slots, from, to - from, Part { audio, text, level: UnitLevel::Word });
        assert(slot_views(slots@).len() == slots@.len());
        k += 1;
    }
    assert(texts(calls@) =~= span_texts(ws, runs));
    let ghost done = slot_views(slots@);
    let ghost parts = parts_of(done, n as nat);
    let mut audios: Vec<WavAudio> = Vec::new();
    let mut hits: Vec<(String, UnitLevel)> = Vec::new();
    let mut i: usize = 0;
    assert(wavs(audios@) =~= part_audio(parts_of(done, 0)));
    assert(hit_views(hits@) =~= part_hits(parts_of(done, 0)));
    while i < n
        invariant
            n == slots@.len(),
            done == slot_views(slots@),
            i <= n,
            wavs(audios@) == part_audio(parts_of(done, i as nat)),
            hit_views(hits@) == part_hits(parts_of(done, i as nat)),
        decreases n - i,
    {
        assert(done[i as int] == slots@[i as int]@);
        if let Slot::Part(p) = &slots[i] {
            let ghost a0 = wavs(audios@);
            let ghost h0 = hit_views(hits@);
            let ghost before = parts_of(done, i as nat);
            let audio = p.audio.clone();
            let text = p.text.clone();
            audios.push(audio);
            hits.push((text, p.level));
            proof {
                assert(wavs(audios@) =~= a0.push(p@.audio));
                assert(hit_views(hits@) =~= h0.push((p@.text, p@.level)));
                assert(part_audio(before.push(p@)) =~= part_audio(before).push(p@.audio));
                assert(part_hits(before.push(p@)) =~= part_hits(before).push(
                    (p@.text, p@.level),
                ));
            }
        }
        i += 1;
    }
    let mean = mean_seam(&audios);
    match splice(audios.as_slice(), CROSSFADE_MS, fades) {
        Err(e) => Err(e),
        Ok(audio) => {
            let report = ComposeReport {
                total_chars,
                cached_chars,
                generated_chars,
                tts_calls: calls,
                hits,
                units: Vec::new(),
                mean_seam_discontinuity: mean,
            };
            assert(report@.units =~= Seq::empty());
            Ok((audio, report))
        },
    }
}

/// What a compose may have done: its outcome and the store it leaves.
pub open spec fn composed<T: TtsProvider + ?Sized, C: AudioCodec + ?Sized>(
    before: crate::store::StoreView,
    after: crate::store::StoreView,
    r: core::result::Result<(WavView, ReportView), ErrorView>,
    tts: &T,
    text: Seq<char>,
    voice: Seq<char>,
    dict: crate::speak::Dict,
    codec: &C,
    t: Gains,
) -> bool {
    let words = tokens(text);
    if words.len() == 0 {
        r == Err::<(WavView, ReportView), ErrorView>(ErrorView::NotFound("empty text"@)) && after
            == before
    } else {
        match plan(Request { nodes: before.nodes, words }, codec) {
            Err(e) => r == Err::<(WavView, ReportView), ErrorView>(e) && after == before,
            Ok(slots) => {
                let runs = open_runs(slots, 0);
                exists|replies: Seq<Reply>|
                    {
                        &&& #[trigger] answered(tts, words, runs, voice, replies)
                        &&& after == grown(
                            before,
                            words,
                            runs,
                            replies,
                            voice,
                            tts.provider_name(),
                            dict,
                            kept(replies),
                            codec,
                        )
                        &&& if all_spoken(runs, replies) {
                            r == finished(words, slots, spoken_audio(replies), t)
                        } else {
                            r == Err::<(WavView, ReportView), ErrorView>(replies.last()->Err_0)
                        }
                    }
            },
        }
    }
}

/// Resolves a request against the cache at the highest available level,
/// synthesizes only the missing spans, splices everything, and grows the cache
/// with what was freshly generated.
pub fn compose<T: TtsProvider + ?Sized, C: AudioCodec + ?Sized, F: FadeCurve + ?Sized>(
    store: &mut MimicStore,
    tts: &T,
    text: &str,
    voice: &str,
    g2p: Option<&G2p>,
    codec: &C,
    fades: &F,
) -> (r: core::result::Result<(WavAudio, ComposeReport), MimicError>)
    ensures
        composed(
            old(store)@,
            final(store)@,
            composed_view(r),
            tts,
            text@,
            voice@,
            opt_dict(g2p),
            codec,
            fades.gains(),
        ),
{
    let words = tokenize(text);
    if words.len() == 0 {
        return Err(MimicError::NotFound("empty text".to_owned()));
    }
    proof {
        tokens_are_not_empty(text@);
        assert(texts(words@).len() == words@.len());
    }
    let slots = match plan_request(store, &words, codec) {
        Err(e) => {
            return Err(e);
        },
        Ok(s) => s,
    };
    let spans = list_runs(&slots);
    let replies = match speak_spans(store, tts, &words, &spans, voice, g2p, codec) {
        Err(e) => {
            return Err(e);
        },
        Ok(a) => a,
    };
    assert(wavs(replies@).len() == replies@.len());
    finish(&words, slots, &replies, fades)
}

} // verus!
