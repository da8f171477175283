//! The exit gates of an evaluation: thresholds, decisions, and what is said
//! about them.

use crate::double::{over, ratio, unit, whole, whole_is_positive, Double};
use crate::eval::{
    elapsed_ms, exact_ms, row_views, to_elapsed_ms, to_exact_ms, BoundaryStats, EvalReport,
    EvalView, ModeRow, ReplayReport, ReplayView, RowView,
};
use crate::figures::{
    average_signed, fixed, fixed_signed, mean_signed, plain_signed, show_fixed, signed_views,
    Signed,
};
use crate::limits::capped;
use crate::numeral::{
    is_digit, numerals_read_back, read_double, reading_of, whole_numerals_are_read, Reading,
    ReadingView,
};
use crate::text::{
    chars_of, dec, decimal, find_char, find_from, lemma_find_char, lines_of, same_text,
    split_lines, texts, trim_range, trimmed, trimmed_end, trimmed_start, whitespace,
};
use vstd::prelude::*;
use vstd::string::*;

verus! {

// ---- thresholds ----

/// A threshold: a number, or what is none.
#[derive(Debug, Clone, Copy, PartialEq, Eq)]
pub enum Threshold {
    Number(Signed),
    Unknown,
}

/// The value of a threshold.
pub enum ThresholdView {
    Number(int),
    Unknown,
}

impl View for Threshold {
    type V = ThresholdView;

    open spec fn view(&self) -> ThresholdView {
        match self {
            Threshold::Number(x) => ThresholdView::Number(x@),
            Threshold::Unknown => ThresholdView::Unknown,
        }
    }
}

/// Thresholds in milliseconds, percent, or plain numbers. A threshold that is
/// not a number is passed by nothing that has to reach it from below, and by
/// everything that has to reach it from above.
#[derive(Debug, Clone, Copy, PartialEq, Eq)]
pub struct Gates {
    pub max_median: Threshold,
    pub max_p90: Threshold,
    pub min_coverage: Threshold,
    pub min_longtail: Threshold,
    pub min_storage_ratio: Threshold,
    pub min_stoi: Threshold,
    pub min_voice: Threshold,
}

/// The values of thresholds.
pub struct GatesView {
    pub max_median: ThresholdView,
    pub max_p90: ThresholdView,
    pub min_coverage: ThresholdView,
    pub min_longtail: ThresholdView,
    pub min_storage_ratio: ThresholdView,
    pub min_stoi: ThresholdView,
    pub min_voice: ThresholdView,
}

impl View for Gates {
    type V = GatesView;

    open spec fn view(&self) -> GatesView {
        GatesView {
            max_median: self.max_median@,
            max_p90: self.max_p90@,
            min_coverage: self.min_coverage@,
            min_longtail: self.min_longtail@,
            min_storage_ratio: self.min_storage_ratio@,
            min_stoi: self.min_stoi@,
            min_voice: self.min_voice@,
        }
    }
}

/// A threshold at a ratio.
pub open spec fn at_ratio(num: nat, den: nat) -> ThresholdView {
    ThresholdView::Number(ratio(num, den) as int)
}

/// The thresholds that hold where nothing else is said.
pub open spec fn built_in_gates() -> GatesView {
    GatesView {
        max_median: at_ratio(20, 1),
        max_p90: at_ratio(60, 1),
        min_coverage: at_ratio(80, 1),
        min_longtail: at_ratio(815, 10),
        min_storage_ratio: at_ratio(10, 1),
        min_stoi: at_ratio(95, 100),
        min_voice: at_ratio(90, 100),
    }
}

/// The threshold that a text states.
pub open spec fn threshold(s: Seq<char>) -> ThresholdView {
    match reading_of(trimmed(s)) {
        ReadingView::Value(x) => ThresholdView::Number(x),
        _ => ThresholdView::Unknown,
    }
}

/// Thresholds with one of them set by its key. An unknown key sets none.
pub open spec fn with_threshold(g: GatesView, key: Seq<char>, v: ThresholdView) -> GatesView {
    if key == "boundary_median_ms_max"@ {
        GatesView { max_median: v, ..g }
    } else if key == "boundary_p90_ms_max"@ {
        GatesView { max_p90: v, ..g }
    } else if key == "replay_coverage_min_pct"@ {
        GatesView { min_coverage: v, ..g }
    } else if key == "longtail_coverage_min_pct"@ {
        GatesView { min_longtail: v, ..g }
    } else if key == "storage_ratio_min"@ {
        GatesView { min_storage_ratio: v, ..g }
    } else if key == "stoi_min"@ {
        GatesView { min_stoi: v, ..g }
    } else if key == "voice_fidelity_min"@ {
        GatesView { min_voice: v, ..g }
    } else {
        g
    }
}

/// Thresholds after one line: `key = value`, or a comment.
pub open spec fn with_line(g: GatesView, raw: Seq<char>) -> GatesView {
    let line = trimmed(raw);
    let eq = find_char(line, '=') as int;
    if line.len() == 0 || line[0] == '#' || eq >= line.len() {
        g
    } else {
        with_threshold(g, trimmed(line.take(eq)), threshold(line.skip(eq + 1)))
    }
}

/// Thresholds after lines. Later lines replace earlier ones.
pub open spec fn with_lines(g: GatesView, lines: Seq<Seq<char>>) -> GatesView
    decreases lines.len(),
{
    if lines.len() == 0 {
        g
    } else {
        with_line(with_lines(g, lines.drop_last()), lines.last())
    }
}

/// The thresholds of a gates file, or the built-in ones where there is none.
pub open spec fn gates_of(text: Option<Seq<char>>) -> GatesView {
    match text {
        Some(t) => with_lines(built_in_gates(), lines_of(t)),
        None => built_in_gates(),
    }
}

fn threshold_at(num: u32, den: u32) -> (r: Threshold)
    requires
        den > 0,
    ensures
        r@ == at_ratio(num as nat, den as nat),
{
    Threshold::Number(Signed::of(Double::of_ratio(num as u128, den as u64)))
}

fn read_threshold(v: &Vec<char>, from: usize) -> (r: Threshold)
    requires
        from <= v@.len(),
    ensures
        r@ == threshold(v@.skip(from as int)),
{
    assert(v@.subrange(from as int, v@.len() as int) =~= v@.skip(from as int));
    match read_double(trim_range(v, from, v.len()).as_str()) {
        Reading::Value(x) => Threshold::Number(x),
        Reading::Unknown => Threshold::Unknown,
        Reading::Malformed => Threshold::Unknown,
    }
}

fn set_threshold(g: Gates, key: &str, v: Threshold) -> (r: Gates)
    ensures
        r@ == with_threshold(g@, key@, v@),
{
    if same_text(key, "boundary_median_ms_max") {
        Gates { max_median: v, ..g }
    } else if same_text(key, "boundary_p90_ms_max") {
        Gates { max_p90: v, ..g }
    } else if same_text(key, "replay_coverage_min_pct") {
        Gates { min_coverage: v, ..g }
    } else if same_text(key, "longtail_coverage_min_pct") {
        Gates { min_longtail: v, ..g }
    } else if same_text(key, "storage_ratio_min") {
        Gates { min_storage_ratio: v, ..g }
    } else if same_text(key, "stoi_min") {
        Gates { min_stoi: v, ..g }
    } else if same_text(key, "voice_fidelity_min") {
        Gates { min_voice: v, ..g }
    } else {
        g
    }
}

fn read_line(g: Gates, raw: &str) -> (r: Gates)
    ensures
        r@ == with_line(g@, raw@),
{
    let all = chars_of(raw);
    assert(all@.subrange(0, all@.len() as int) =~= raw@);
    let line = chars_of(trim_range(&all, 0, all.len()).as_str());
    let n: usize = line.len();
    let eq: usize = find_from(&line, 0, '=');
    assert(line@.skip(0) =~= line@);
    if n == 0 || line[0] == '#' || eq >= n {
        return g;
    }
    assert(line@.subrange(0, eq as int) =~= line@.take(eq as int));
    let key = trim_range(&line, 0, eq);
    set_threshold(g, key.as_str(), read_threshold(&line, eq + 1))
}

/// Reads the thresholds of a gates file: `key = value` lines, `#` for comments.
pub fn read_gates(text: Option<&str>) -> (r: Gates)
    ensures
        r@ == gates_of(crate::store::opt_text(text)),
{
    let mut g = Gates {
        max_median: threshold_at(20, 1),
        max_p90: threshold_at(60, 1),
        min_coverage: threshold_at(80, 1),
        min_longtail: threshold_at(815, 10),
        min_storage_ratio: threshold_at(10, 1),
        min_stoi: threshold_at(95, 100),
        min_voice: threshold_at(90, 100),
    };
    let t = match text {
        None => {
            return g;
        },
        Some(t) => t,
    };
    let lines = split_lines(t);
    let ghost all = lines_of(t@);
    let mut i: usize = 0;
    assert(texts(lines@).len() == lines@.len());
    assert(all.take(0) =~= Seq::<Seq<char>>::empty());
    while i < lines.len()
        invariant
            texts(lines@) == all,
            lines@.len() == all.len(),
            i <= lines@.len(),
            g@ == with_lines(built_in_gates(), all.take(i as int)),
        decreases lines@.len() - i,
    {
        assert(all.take(i + 1).drop_last() =~= all.take(i as int));
        assert(all.take(i + 1).last() == lines@[i as int]@);
        g = read_line(g, lines[i].as_str());
        i += 1;
    }
    assert(all.take(i as int) =~= all);
    g
}

// ---- decisions ----

/// Whether a measurement stays within a threshold.
pub open spec fn within(x: int, t: ThresholdView) -> bool {
    match t {
        ThresholdView::Number(v) => x <= v,
        ThresholdView::Unknown => false,
    }
}

/// Whether a measurement falls short of a threshold.
pub open spec fn short_of(x: int, t: ThresholdView) -> bool {
    match t {
        ThresholdView::Number(v) => x < v,
        ThresholdView::Unknown => false,
    }
}

fn is_within(x: Double, t: Threshold) -> (r: bool)
    ensures
        r == within(x@ as int, t@),
{
    match t {
        Threshold::Number(v) => !v.less(Signed::of(x)),
        Threshold::Unknown => false,
    }
}

fn is_short(x: Signed, t: Threshold) -> (r: bool)
    ensures
        r == short_of(x@, t@),
{
    match t {
        Threshold::Number(v) => x.less(v),
        Threshold::Unknown => false,
    }
}

/// The position of the row of the current mode over the long tail, or the length.
pub open spec fn longtail_spot(rows: Seq<RowView>) -> nat
    decreases rows.len(),
{
    if rows.len() == 0 || (rows[0].mode == "p4-current"@ && rows[0].corpus == "long_tail"@) {
        0
    } else {
        1 + longtail_spot(rows.skip(1))
    }
}

/// What rows say of storage and fidelity.
#[derive(Debug)]
pub struct CodecSums {
    pub rows: usize,
    pub token_bytes: u64,
    pub wav_bytes: u64,
    pub stoi: Vec<Signed>,
    pub voice: Vec<Signed>,
}

/// The value of what rows say of storage and fidelity.
#[verifier::ext_equal]
pub struct CodecView {
    pub rows: nat,
    pub token_bytes: u64,
    pub wav_bytes: u64,
    pub stoi: Seq<int>,
    pub voice: Seq<int>,
}

impl View for CodecSums {
    type V = CodecView;

    open spec fn view(&self) -> CodecView {
        CodecView {
            rows: self.rows as nat,
            token_bytes: self.token_bytes,
            wav_bytes: self.wav_bytes,
            stoi: signed_views(self.stoi@),
            voice: signed_views(self.voice@),
        }
    }
}

/// A sequence with one more value, where there is one.
pub open spec fn with_some(v: Seq<int>, x: Option<int>) -> Seq<int> {
    match x {
        Some(y) => v.push(y),
        None => v,
    }
}

/// What the rows of the current mode say of storage and fidelity, taken together.
pub open spec fn codec_sums(rows: Seq<RowView>) -> CodecView
    decreases rows.len(),
{
    if rows.len() == 0 {
        CodecView {
            rows: 0,
            token_bytes: 0,
            wav_bytes: 0,
            stoi: Seq::empty(),
            voice: Seq::empty(),
        }
    } else {
        let b = codec_sums(rows.drop_last());
        let row = rows.last();
        if row.mode == "p4-current"@ {
            CodecView {
                rows: b.rows + 1,
                token_bytes: capped(b.token_bytes as nat + row.token_bytes as nat),
                wav_bytes: capped(b.wav_bytes as nat + row.wav_bytes as nat),
                stoi: with_some(b.stoi, row.stoi),
                voice: with_some(b.voice, row.voice_fidelity),
            }
        } else {
            b
        }
    }
}

/// How many wav bytes a token byte stands for.
pub open spec fn storage_ratio(c: CodecView) -> nat {
    if c.token_bytes == 0 {
        0
    } else {
        over(whole(c.wav_bytes as nat), whole(c.token_bytes as nat))
    }
}

/// Whether a mean falls short of a threshold. Nothing measured falls short of
/// nothing.
pub open spec fn mean_short(v: Seq<int>, t: ThresholdView) -> bool {
    average_signed(v) matches Some(m) && short_of(m, t)
}

/// Whether the boundaries pass.
pub open spec fn boundaries_pass(b: BoundaryStats, g: GatesView) -> bool {
    b.boundaries > 0 && within(exact_ms(b.median as nat) as int, g.max_median) && within(
        exact_ms(b.p90 as nat) as int,
        g.max_p90,
    )
}

/// Whether the replay passes.
pub open spec fn replay_passes(r: Option<ReplayView>, g: GatesView) -> bool {
    r matches Some(x) && !short_of(x.coverage_pct as int, g.min_coverage) && elapsed_ms(
        x.p99 as nat,
    ) < exact_ms(x.simulated_cloud_p99 as nat)
}

/// Whether the long tail is covered.
pub open spec fn longtail_passes(rows: Seq<RowView>, g: GatesView) -> bool {
    let k = longtail_spot(rows) as int;
    k < rows.len() && !short_of(rows[k].cache_hit_pct as int, g.min_longtail)
}

/// Whether storage and fidelities pass, where the current mode was run.
pub open spec fn codec_passes(rows: Seq<RowView>, g: GatesView) -> bool {
    let c = codec_sums(rows);
    c.rows == 0 || {
        &&& c.token_bytes > 0
        &&& !short_of(storage_ratio(c) as int, g.min_storage_ratio)
        &&& !mean_short(c.stoi, g.min_stoi)
        &&& !mean_short(c.voice, g.min_voice)
    }
}

/// Whether an evaluation passes its gates.
pub open spec fn gates_pass(e: EvalView, g: GatesView) -> bool {
    &&& boundaries_pass(e.boundary, g)
    &&& replay_passes(e.replay, g)
    &&& longtail_passes(e.rows, g)
    &&& codec_passes(e.rows, g)
}

/// Takes together what the rows of the current mode say of storage and fidelity.
pub fn sum_codec(rows: &Vec<ModeRow>) -> (r: CodecSums)
    ensures
        r@ == codec_sums(row_views(rows@)),
{
    let ghost all = row_views(rows@);
    let mut c = CodecSums {
        rows: 0,
        token_bytes: 0,
        wav_bytes: 0,
        stoi: Vec::new(),
        voice: Vec::new(),
    };
    let mut i: usize = 0;
    assert(all.take(0) =~= Seq::<RowView>::empty());
    assert(signed_views(c.stoi@) =~= Seq::empty() && signed_views(c.voice@) =~= Seq::empty());
    assert(c@ =~= codec_sums(all.take(0)));
    while i < rows.len()
        invariant
            all == row_views(rows@),
            i <= rows@.len(),
            c.rows <= i,
            c@ == codec_sums(all.take(i as int)),
        decreases rows@.len() - i,
    {
        let ghost before = c@;
        let row = &rows[i];
        assert(all.take(i + 1).drop_last() =~= all.take(i as int));
        assert(all.take(i + 1).last() == row@);
        if same_text(row.mode.as_str(), "p4-current") {
            c.rows = c.rows + 1;
            c.token_bytes = c.token_bytes.saturating_add(row.token_bytes);
            c.wav_bytes = c.wav_bytes.saturating_add(row.wav_bytes);
            if let Some(s) = row.stoi {
                c.stoi.push(s);
                assert(signed_views(c.stoi@) =~= before.stoi.push(s@));
            }
            if let Some(v) = row.voice_fidelity {
                c.voice.push(v);
                assert(signed_views(c.voice@) =~= before.voice.push(v@));
            }
            assert(c@ =~= codec_sums(all.take(i + 1)));
        }
        i += 1;
    }
    assert(all.take(i as int) =~= all);
    c
}

/// How many wav bytes a token byte stands for.
pub fn measure_ratio(c: &CodecSums) -> (r: Double)
    ensures
        r@ == storage_ratio(c@),
{
    if c.token_bytes == 0 {
        return Double::zero();
    }
    proof {
        whole_is_positive(c.token_bytes as nat);
    }
    Double::of(c.wav_bytes).over(Double::of(c.token_bytes))
}

fn find_longtail(rows: &Vec<ModeRow>) -> (r: usize)
    ensures
        r == longtail_spot(row_views(rows@)),
        r <= rows@.len(),
{
    let ghost all = row_views(rows@);
    let mut i: usize = 0;
    assert(all.skip(0) =~= all);
    while i < rows.len()
        invariant
            all == row_views(rows@),
            i <= rows@.len(),
            longtail_spot(all) == i + longtail_spot(all.skip(i as int)),
        decreases rows@.len() - i,
    {
        assert(all.skip(i as int)[0] == rows@[i as int]@);
        assert(all.skip(i as int).skip(1) =~= all.skip(i + 1));
        if same_text(rows[i].mode.as_str(), "p4-current") && same_text(
            rows[i].corpus.as_str(),
            "long_tail",
        ) {
            return i;
        }
        i += 1;
    }
    i
}

// ---- messages ----

/// A threshold as it is written, with so many decimals.
pub open spec fn threshold_text(t: ThresholdView, decimals: nat) -> Seq<char> {
    match t {
        ThresholdView::Number(v) => fixed_signed(v, decimals),
        ThresholdView::Unknown => "NaN"@,
    }
}

/// A threshold as it is written, with as many decimals as it needs.
pub open spec fn plain_threshold(t: ThresholdView) -> Seq<char> {
    match t {
        ThresholdView::Number(v) => plain_signed(v),
        ThresholdView::Unknown => "NaN"@,
    }
}

fn write_threshold(t: Threshold, decimals: u32) -> (r: String)
    requires
        decimals <= 1,
    ensures
        r@ == threshold_text(t@, decimals as nat),
{
    match t {
        Threshold::Number(v) => v.show(decimals),
        Threshold::Unknown => "NaN".to_owned(),
    }
}

fn write_plain(t: Threshold) -> (r: String)
    ensures
        r@ == plain_threshold(t@),
{
    match t {
        Threshold::Number(v) => v.show_plain(),
        Threshold::Unknown => "NaN".to_owned(),
    }
}

/// What is said of the boundaries.
pub open spec fn boundary_messages(b: BoundaryStats, g: GatesView) -> Seq<Seq<char>> {
    let told = seq![
        "boundary clips: "@ + dec(b.clips as nat) + ", boundaries measured: "@ + dec(
            b.boundaries as nat,
        ),
        "boundary median: "@ + fixed(exact_ms(b.median as nat), 2) + " ms (gate \u{2264} "@
            + threshold_text(g.max_median, 0) + " ms; v1-baseline median "@ + fixed(exact_ms(b.baseline_median as nat), 2) + " ms)"@,
        "boundary p90: "@ + fixed(exact_ms(b.p90 as nat), 2) + " ms (gate \u{2264} "@ + threshold_text(
            g.max_p90,
            0,
        ) + " ms), max "@ + fixed(exact_ms(b.max as nat), 2) + " ms"@,
    ];
    if b.boundaries == 0 {
        told.push("no boundaries measured \u{2014} boundary gate cannot pass"@)
    } else {
        told
    }
}

/// What is said of the replay.
pub open spec fn replay_messages(r: Option<ReplayView>, g: GatesView) -> Seq<Seq<char>> {
    match r {
        None => seq!["replay missing \u{2014} replay gate cannot pass"@],
        Some(x) => {
            let told = seq![
                "replay: "@ + dec(x.requests as nat) + " requests, coverage "@ + fixed(x.coverage_pct, 1) + "% (gate \u{2265} "@ + threshold_text(g.min_coverage, 0) + "%), p99 "@
                    + fixed(elapsed_ms(x.p99 as nat), 1) + " ms vs simulated-cloud p99 "@ + fixed(
                    exact_ms(x.simulated_cloud_p99 as nat),
                    0,
                ) + " ms"@,
            ];
            if replay_passes(r, g) {
                told
            } else {
                told.push("replay gate FAILED (coverage or latency)"@)
            }
        },
    }
}

/// What is said of the long tail.
pub open spec fn longtail_messages(rows: Seq<RowView>, g: GatesView) -> Seq<Seq<char>> {
    let k = longtail_spot(rows) as int;
    if k >= rows.len() {
        seq!["p4-current long_tail row missing \u{2014} gate cannot pass"@]
    } else {
        let told = seq![
            "long-tail coverage (p4-current): "@ + fixed(rows[k].cache_hit_pct, 1)
                + "% (gate \u{2265} "@ + threshold_text(g.min_longtail, 1)
                + "%; v1-baseline row shows the pre-P3 number)"@,
        ];
        if longtail_passes(rows, g) {
            told
        } else {
            told.push("long-tail coverage gate FAILED"@)
        }
    }
}

/// What is said of a mean fidelity.
pub open spec fn mean_messages(
    v: Seq<int>,
    t: ThresholdView,
    told: Seq<char>,
    failed: Seq<char>,
    skipped: Seq<char>,
) -> Seq<Seq<char>> {
    match average_signed(v) {
        None => seq![skipped],
        Some(m) => {
            let said = told + fixed_signed(m, 3) + " (gate \u{2265} "@
                + plain_threshold(t) + ")"@;
            if mean_short(v, t) {
                seq![said, failed]
            } else {
                seq![said]
            }
        },
    }
}

/// What is said of the storage of tokens.
pub open spec fn storage_messages(c: CodecView, g: GatesView) -> Seq<Seq<char>> {
    let ratio = storage_ratio(c);
    let told = "codec storage: "@ + dec(c.token_bytes as nat) + " B tokens vs "@ + dec(
        c.wav_bytes as nat,
    ) + " B wav-equivalent = "@ + fixed(ratio, 1) + "\u{d7} (gate \u{2265} "@
        + threshold_text(g.min_storage_ratio, 0) + "\u{d7})"@;
    if c.token_bytes == 0 || short_of(ratio as int, g.min_storage_ratio) {
        seq![told, "codec storage gate FAILED"@]
    } else {
        seq![told]
    }
}

/// What is said of storage and fidelities.
pub open spec fn codec_messages(rows: Seq<RowView>, g: GatesView) -> Seq<Seq<char>> {
    let c = codec_sums(rows);
    if c.rows == 0 {
        Seq::empty()
    } else {
        storage_messages(c, g) + mean_messages(
            c.stoi,
            g.min_stoi,
            "codec STOI (fully-cached): "@,
            "codec STOI gate FAILED"@,
            "codec STOI: no fully-cached utterances \u{2014} skipped"@,
        ) + mean_messages(
            c.voice,
            g.min_voice,
            "voice fidelity (fully-cached): "@,
            "voice fidelity gate FAILED"@,
            "voice fidelity: no fully-cached utterances \u{2014} skipped"@,
        )
    }
}

/// The verdict.
pub open spec fn verdict(pass: bool) -> Seq<char> {
    if pass {
        "GATE: PASS"@
    } else {
        "GATE: FAIL"@
    }
}

/// All that is said of an evaluation.
pub open spec fn gate_messages(e: EvalView, g: GatesView) -> Seq<Seq<char>> {
    boundary_messages(e.boundary, g) + replay_messages(e.replay, g) + longtail_messages(e.rows, g)
        + codec_messages(e.rows, g) + seq![verdict(gates_pass(e, g))]
}

/// Whether an evaluation passes, and what is said about it.
#[derive(Debug)]
pub struct GateResult {
    pub pass: bool,
    pub messages: Vec<String>,
}

fn tell(out: &mut Vec<String>, m: String)
    ensures
        texts(final(out)@) == texts(old(out)@).push(m@),
{
    let ghost before = texts(out@);
    out.push(m);
    assert(texts(out@) =~= before.push(m@));
}

fn tell_boundaries(b: &BoundaryStats, g: &Gates) -> (r: Vec<String>)
    ensures
        texts(r@) == boundary_messages(*b, g@),
{
    let mut out: Vec<String> = Vec::new();
    assert(texts(out@) =~= Seq::<Seq<char>>::empty());
    let mut a = "boundary clips: ".to_owned();
    a.append(decimal(b.clips as u64).as_str());
    a.append(", boundaries measured: ");
    a.append(decimal(b.boundaries as u64).as_str());
    tell(&mut out, a);
    let mut m = "boundary median: ".to_owned();
    m.append(show_fixed(to_exact_ms(b.median), 2).as_str());
    m.append(" ms (gate \u{2264} ");
    m.append(write_threshold(g.max_median, 0).as_str());
    m.append(" ms; v1-baseline median ");
    m.append(show_fixed(to_exact_ms(b.baseline_median), 2).as_str());
    m.append(" ms)");
    tell(&mut out, m);
    let mut p = "boundary p90: ".to_owned();
    p.append(show_fixed(to_exact_ms(b.p90), 2).as_str());
    p.append(" ms (gate \u{2264} ");
    p.append(write_threshold(g.max_p90, 0).as_str());
    p.append(" ms), max ");
    p.append(show_fixed(to_exact_ms(b.max), 2).as_str());
    p.append(" ms");
    tell(&mut out, p);
    if b.boundaries == 0 {
        tell(&mut out, "no boundaries measured \u{2014} boundary gate cannot pass".to_owned());
    }
    assert(texts(out@) =~= boundary_messages(*b, g@));
    out
}

fn decide_replay(r: &Option<ReplayReport>, g: &Gates, v: Ghost<Option<ReplayView>>) -> (p: bool)
    requires
        v@ == (match *r {
            Some(x) => Some(x@),
            None => None,
        }),
    ensures
        p == replay_passes(v@, g@),
{
    match r {
        None => false,
        Some(x) => !is_short(Signed::of(x.coverage_pct), g.min_coverage) && to_elapsed_ms(
            x.p99,
        ).less(to_exact_ms(x.simulated_cloud_p99)),
    }
}

fn tell_replay(r: &Option<ReplayReport>, g: &Gates, v: Ghost<Option<ReplayView>>) -> (m: Vec<
    String,
>)
    requires
        v@ == (match *r {
            Some(x) => Some(x@),
            None => None,
        }),
    ensures
        texts(m@) == replay_messages(v@, g@),
{
    let mut out: Vec<String> = Vec::new();
    assert(texts(out@) =~= Seq::<Seq<char>>::empty());
    match r {
        None => {
            tell(&mut out, "replay missing \u{2014} replay gate cannot pass".to_owned());
        },
        Some(x) => {
            let mut m = "replay: ".to_owned();
            m.append(decimal(x.requests as u64).as_str());
            m.append(" requests, coverage ");
            m.append(show_fixed(x.coverage_pct, 1).as_str());
            m.append("% (gate \u{2265} ");
            m.append(write_threshold(g.min_coverage, 0).as_str());
            m.append("%), p99 ");
            m.append(show_fixed(to_elapsed_ms(x.p99), 1).as_str());
            m.append(" ms vs simulated-cloud p99 ");
            m.append(show_fixed(to_exact_ms(x.simulated_cloud_p99), 0).as_str());
            m.append(" ms");
            tell(&mut out, m);
            if !decide_replay(r, g, v) {
                tell(&mut out, "replay gate FAILED (coverage or latency)".to_owned());
            }
        },
    }
    assert(texts(out@) =~= replay_messages(v@, g@));
    out
}

fn tell_longtail(rows: &Vec<ModeRow>, g: &Gates) -> (r: (bool, Vec<String>))
    ensures
        r.0 == longtail_passes(row_views(rows@), g@),
        texts(r.1@) == longtail_messages(row_views(rows@), g@),
{
    let ghost all = row_views(rows@);
    let mut out: Vec<String> = Vec::new();
    assert(texts(out@) =~= Seq::<Seq<char>>::empty());
    let k: usize = find_longtail(rows);
    let mut pass = false;
    if k >= rows.len() {
        tell(
            &mut out,
            "p4-current long_tail row missing \u{2014} gate cannot pass".to_owned(),
        );
    } else {
        assert(all[k as int] == rows@[k as int]@);
        let mut m = "long-tail coverage (p4-current): ".to_owned();
        m.append(show_fixed(rows[k].cache_hit_pct, 1).as_str());
        m.append("% (gate \u{2265} ");
        m.append(write_threshold(g.min_longtail, 1).as_str());
        m.append("%; v1-baseline row shows the pre-P3 number)");
        tell(&mut out, m);
        pass = !is_short(Signed::of(rows[k].cache_hit_pct), g.min_longtail);
        if !pass {
            tell(&mut out, "long-tail coverage gate FAILED".to_owned());
        }
    }
    assert(texts(out@) =~= longtail_messages(all, g@));
    (pass, out)
}

fn tell_mean(v: &Vec<Signed>, t: Threshold, told: &str, failed: &str, skipped: &str) -> (r: (
    bool,
    Vec<String>,
))
    ensures
        r.0 == !mean_short(signed_views(v@), t@),
        texts(r.1@) == mean_messages(signed_views(v@), t@, told@, failed@, skipped@),
{
    let mut out: Vec<String> = Vec::new();
    assert(texts(out@) =~= Seq::<Seq<char>>::empty());
    let mut pass = true;
    match mean_signed(v) {
        None => {
            tell(&mut out, skipped.to_owned());
        },
        Some(m) => {
            let mut s = told.to_owned();
            s.append(m.show(3).as_str());
            s.append(" (gate \u{2265} ");
            s.append(write_plain(t).as_str());
            s.append(")");
            tell(&mut out, s);
            if is_short(m, t) {
                pass = false;
                tell(&mut out, failed.to_owned());
            }
        },
    }
    assert(texts(out@) =~= mean_messages(signed_views(v@), t@, told@, failed@, skipped@));
    (pass, out)
}

fn tell_storage(c: &CodecSums, g: &Gates) -> (r: (bool, Vec<String>))
    ensures
        r.0 == (c@.token_bytes > 0 && !short_of(storage_ratio(c@) as int, g@.min_storage_ratio)),
        texts(r.1@) == storage_messages(c@, g@),
{
    let mut out: Vec<String> = Vec::new();
    assert(texts(out@) =~= Seq::<Seq<char>>::empty());
    let ratio = measure_ratio(c);
    let mut m = "codec storage: ".to_owned();
    m.append(decimal(c.token_bytes).as_str());
    m.append(" B tokens vs ");
    m.append(decimal(c.wav_bytes).as_str());
    m.append(" B wav-equivalent = ");
    m.append(show_fixed(ratio, 1).as_str());
    m.append("\u{d7} (gate \u{2265} ");
    m.append(write_threshold(g.min_storage_ratio, 0).as_str());
    m.append("\u{d7})");
    tell(&mut out, m);
    let pass = !(c.token_bytes == 0 || is_short(Signed::of(ratio), g.min_storage_ratio));
    if !pass {
        tell(&mut out, "codec storage gate FAILED".to_owned());
    }
    assert(texts(out@) =~= storage_messages(c@, g@));
    (pass, out)
}

fn tell_codec(rows: &Vec<ModeRow>, g: &Gates) -> (r: (bool, Vec<String>))
    ensures
        r.0 == codec_passes(row_views(rows@), g@),
        texts(r.1@) == codec_messages(row_views(rows@), g@),
{
    let c = sum_codec(rows);
    if c.rows == 0 {
        let none: Vec<String> = Vec::new();
        assert(texts(none@) =~= Seq::<Seq<char>>::empty());
        return (true, none);
    }
    let (a, mut out) = tell_storage(&c, g);
    let (b, mut stoi) = tell_mean(
        &c.stoi,
        g.min_stoi,
        "codec STOI (fully-cached): ",
        "codec STOI gate FAILED",
        "codec STOI: no fully-cached utterances \u{2014} skipped",
    );
    let (d, mut voice) = tell_mean(
        &c.voice,
        g.min_voice,
        "voice fidelity (fully-cached): ",
        "voice fidelity gate FAILED",
        "voice fidelity: no fully-cached utterances \u{2014} skipped",
    );
    join(&mut out, &mut stoi);
    join(&mut out, &mut voice);
    (a && b && d, out)
}

fn join(out: &mut Vec<String>, more: &mut Vec<String>)
    ensures
        texts(final(out)@) == texts(old(out)@) + texts(old(more)@),
{
    let ghost a = texts(out@);
    let ghost b = texts(more@);
    out.append(more);
    assert(texts(out@) =~= a + b);
}

/// Checks the exit gates of an evaluation against the thresholds of a gates file.
pub fn check_gates(report: &EvalReport, gates_file: Option<&str>) -> (r: GateResult)
    ensures
        ({
            let g = gates_of(crate::store::opt_text(gates_file));
            &&& r.pass == gates_pass(report@, g)
            &&& texts(r.messages@) == gate_messages(report@, g)
        }),
{
    let g = read_gates(gates_file);
    let ghost e = report@;
    let b = &report.boundary;
    let boundaries = b.boundaries > 0 && is_within(to_exact_ms(b.median), g.max_median)
        && is_within(to_exact_ms(b.p90), g.max_p90);
    let mut out = tell_boundaries(b, &g);
    let replay = decide_replay(&report.replay, &g, Ghost(e.replay));
    let mut more = tell_replay(&report.replay, &g, Ghost(e.replay));
    join(&mut out, &mut more);
    let (longtail, mut rest) = tell_longtail(&report.rows, &g);
    join(&mut out, &mut rest);
    let (codec, mut last) = tell_codec(&report.rows, &g);
    join(&mut out, &mut last);
    let pass = boundaries && replay && longtail && codec;
    let ghost before = texts(out@);
    let word: String = if pass {
        "GATE: PASS".to_owned()
    } else {
        "GATE: FAIL".to_owned()
    };
    tell(&mut out, word);
    assert(texts(out@) =~= before + seq![verdict(pass)]);
    GateResult { pass, messages: out }
}

/// An evaluation passes exactly when its verdict says so, and the verdict is the
/// last that is said.
pub proof fn verdict_is_the_last_word(e: EvalView, g: GatesView)
    ensures
        gate_messages(e, g).len() > 0,
        gate_messages(e, g).last() == verdict(gates_pass(e, g)),
        gate_messages(e, g).last() == "GATE: PASS"@ <==> gates_pass(e, g),
{
    reveal_strlit("GATE: PASS");
    reveal_strlit("GATE: FAIL");
    assert("GATE: PASS"@[6] != "GATE: FAIL"@[6]);
}

/// A line sets the threshold of its key to its number.
pub proof fn lines_set_their_threshold(g: GatesView, key: Seq<char>, n: nat)
    requires
        key.len() > 0,
        !key.contains('='),
        key[0] != '#',
        !whitespace(key[0]),
        !whitespace(key.last()),
        n <= 0x20_0000_0000_0000,
    ensures
        with_line(g, key + " = "@ + dec(n)) == with_threshold(
            g,
            key,
            ThresholdView::Number((n * unit()) as int),
        ),
{
    reveal_strlit(" = ");
    let d = dec(n);
    let raw = key + " = "@ + d;
    numerals_read_back(n);
    whole_numerals_are_read(n);
    assert(is_digit(d[0]) && is_digit(d[d.len() - 1]));
    assert(raw[0] == key[0]);
    assert(raw.last() == d[d.len() - 1]);
    assert(trimmed(raw) == raw);
    let at = key.len() as int + 1;
    lemma_find_char(raw, '=');
    assert(raw[at] == '=');
    let eq = find_char(raw, '=') as int;
    assert(eq == at) by {
        if eq < key.len() {
            assert(key[eq] == '=');
            assert(key.contains('='));
        }
    }
    let name = raw.take(at);
    assert(name[0] == key[0]);
    assert(name.last() == ' ');
    assert(name.drop_last() =~= key);
    assert(trimmed_end(key) == key);
    assert(trimmed_end(name) == trimmed_end(name.drop_last()));
    assert(trimmed(name) == key);
    let value = raw.skip(at + 1);
    assert(value[0] == ' ');
    assert(value.skip(1) =~= d);
    assert(trimmed_start(d) == d);
    assert(trimmed_start(value) == trimmed_start(value.skip(1)));
    assert(d.last() == d[d.len() - 1]);
    assert(trimmed(value) == d);
}

/// A line that is empty, or a comment, sets nothing.
pub proof fn comments_set_nothing(g: GatesView, raw: Seq<char>)
    requires
        trimmed(raw).len() > 0 ==> trimmed(raw)[0] == '#',
    ensures
        with_line(g, raw) == g,
{
}

/// Every threshold has its own key, and setting one leaves the others.
pub proof fn keys_set_their_own_threshold(g: GatesView, v: ThresholdView)
    ensures
        with_threshold(g, "boundary_median_ms_max"@, v) == (GatesView { max_median: v, ..g }),
        with_threshold(g, "boundary_p90_ms_max"@, v) == (GatesView { max_p90: v, ..g }),
        with_threshold(g, "replay_coverage_min_pct"@, v) == (GatesView { min_coverage: v, ..g }),
        with_threshold(g, "longtail_coverage_min_pct"@, v) == (GatesView { min_longtail: v, ..g }),
        with_threshold(g, "storage_ratio_min"@, v) == (GatesView { min_storage_ratio: v, ..g }),
        with_threshold(g, "stoi_min"@, v) == (GatesView { min_stoi: v, ..g }),
        with_threshold(g, "voice_fidelity_min"@, v) == (GatesView { min_voice: v, ..g }),
{
    reveal_strlit("boundary_median_ms_max");
    assert("boundary_median_ms_max"@.len() == 22);
    reveal_strlit("boundary_p90_ms_max");
    assert("boundary_p90_ms_max"@.len() == 19);
    reveal_strlit("replay_coverage_min_pct");
    assert("replay_coverage_min_pct"@.len() == 23);
    reveal_strlit("longtail_coverage_min_pct");
    assert("longtail_coverage_min_pct"@.len() == 25);
    reveal_strlit("storage_ratio_min");
    assert("storage_ratio_min"@.len() == 17);
    reveal_strlit("stoi_min");
    assert("stoi_min"@.len() == 8);
    reveal_strlit("voice_fidelity_min");
    assert("voice_fidelity_min"@.len() == 18);
}

/// The last line on a key has the last word.
pub proof fn later_lines_replace_earlier_ones(
    g: GatesView,
    lines: Seq<Seq<char>>,
    key: Seq<char>,
    n: nat,
)
    requires
        key.len() > 0,
        !key.contains('='),
        key[0] != '#',
        !whitespace(key[0]),
        !whitespace(key.last()),
        n <= 0x20_0000_0000_0000,
    ensures
        with_lines(g, lines.push(key + " = "@ + dec(n))) == with_threshold(
            with_lines(g, lines),
            key,
            ThresholdView::Number((n * unit()) as int),
        ),
{
    let all = lines.push(key + " = "@ + dec(n));
    assert(all.drop_last() =~= lines);
    lines_set_their_threshold(with_lines(g, lines), key, n);
}

} // verus!
