//! Evaluation reports as Markdown and as JSON.

use crate::eval::{
    elapsed_ms, exact_ms, opt_signed, row_views, to_elapsed_ms, to_exact_ms, BoundaryStats,
    EvalReport, EvalView, ModeRow, ReplayReport, ReplayView, RowView,
};
use crate::figures::{
    average_signed, fixed, fixed_signed, mean_signed, show_fixed, signed_views, Signed,
};
use crate::gates::{codec_sums, measure_ratio, storage_ratio, sum_codec, CodecSums, CodecView};
use crate::text::{dec, decimal, texts};
use vstd::prelude::*;
use vstd::string::*;

verus! {

// ---- Markdown ----

/// A row of the table of sweeps.
pub open spec fn row_line(r: RowView) -> Seq<char> {
    "| "@
        + r.mode
        + " | "@
        + r.corpus
        + " | "@
        + dec(r.eval_utterances as nat)
        + " | "@
        + fixed(r.cache_hit_pct, 1)
        + " | "@
        + dec(r.generated_chars as nat)
        + " | "@
        + fixed(r.rtf, 3)
        + " | "@
        + fixed(r.mean_seam, 4)
        + " | "@
        + dec(r.unresolved_words as nat)
        + " | "@
        + dec(r.units_total as nat)
        + " |\n"@
}

fn write_row(row: &ModeRow) -> (r: String)
    ensures
        r@ == row_line(row@),
{
    let mut s = "| ".to_owned();
    s.append(row.mode.as_str());
    s.append(" | ");
    s.append(row.corpus.as_str());
    s.append(" | ");
    s.append(decimal(row.eval_utterances as u64).as_str());
    s.append(" | ");
    s.append(show_fixed(row.cache_hit_pct, 1).as_str());
    s.append(" | ");
    s.append(decimal(row.generated_chars as u64).as_str());
    s.append(" | ");
    s.append(show_fixed(row.rtf, 3).as_str());
    s.append(" | ");
    s.append(show_fixed(row.mean_seam, 4).as_str());
    s.append(" | ");
    s.append(decimal(row.unresolved_words as u64).as_str());
    s.append(" | ");
    s.append(decimal(row.units_total as u64).as_str());
    s.append(" |\n");
    s
}

/// What is listed of the boundaries.
pub open spec fn boundary_lines(b: BoundaryStats) -> Seq<char> {
    "- clips: "@
        + dec(b.clips as nat)
        + ", boundaries: "@
        + dec(b.boundaries as nat)
        + "\n- p1 median: **"@
        + fixed(exact_ms(b.median as nat), 2)
        + " ms**, p90: "@
        + fixed(exact_ms(b.p90 as nat), 2)
        + " ms, max: "@
        + fixed(exact_ms(b.max as nat), 2)
        + " ms\n- v1-baseline median: "@
        + fixed(exact_ms(b.baseline_median as nat), 2)
        + " ms\n"@
}

fn write_boundaries(b: &BoundaryStats) -> (r: String)
    ensures
        r@ == boundary_lines(*b),
{
    let mut s = "- clips: ".to_owned();
    s.append(decimal(b.clips as u64).as_str());
    s.append(", boundaries: ");
    s.append(decimal(b.boundaries as u64).as_str());
    s.append("\n- p1 median: **");
    s.append(show_fixed(to_exact_ms(b.median), 2).as_str());
    s.append(" ms**, p90: ");
    s.append(show_fixed(to_exact_ms(b.p90), 2).as_str());
    s.append(" ms, max: ");
    s.append(show_fixed(to_exact_ms(b.max), 2).as_str());
    s.append(" ms\n- v1-baseline median: ");
    s.append(show_fixed(to_exact_ms(b.baseline_median), 2).as_str());
    s.append(" ms\n");
    s
}

/// What is listed of the replay.
pub open spec fn replay_lines(x: ReplayView) -> Seq<char> {
    "- requests: "@
        + dec(x.requests as nat)
        + " (Zipf-ish: 75% head / 25% long tail)\n- coverage: **"@
        + fixed(x.coverage_pct, 1)
        + "%** ("@
        + dec(x.generated_chars as nat)
        + " / "@
        + dec(x.total_chars as nat)
        + " chars generated)\n- compose latency: p50 "@
        + fixed(elapsed_ms(x.p50 as nat), 1)
        + " ms, p99 "@
        + fixed(elapsed_ms(x.p99 as nat), 1)
        + " ms\n- provider-direct mock p99: "@
        + fixed(elapsed_ms(x.mock_direct_p99 as nat), 1)
        + " ms; simulated cloud p99: "@
        + fixed(exact_ms(x.simulated_cloud_p99 as nat), 0)
        + " ms\n- estimated cost: $"@
        + fixed(x.est_cost, 4)
        + " vs always-cloud $"@
        + fixed(x.always_cloud_cost, 4)
        + " ("@
        + x.provider_profile
        + " profile)\n"@
}

fn write_replay(x: &ReplayReport) -> (r: String)
    ensures
        r@ == replay_lines(x@),
{
    let mut s = "- requests: ".to_owned();
    s.append(decimal(x.requests as u64).as_str());
    s.append(" (Zipf-ish: 75% head / 25% long tail)\n- coverage: **");
    s.append(show_fixed(x.coverage_pct, 1).as_str());
    s.append("%** (");
    s.append(decimal(x.generated_chars as u64).as_str());
    s.append(" / ");
    s.append(decimal(x.total_chars as u64).as_str());
    s.append(" chars generated)\n- compose latency: p50 ");
    s.append(show_fixed(to_elapsed_ms(x.p50), 1).as_str());
    s.append(" ms, p99 ");
    s.append(show_fixed(to_elapsed_ms(x.p99), 1).as_str());
    s.append(" ms\n- provider-direct mock p99: ");
    s.append(show_fixed(to_elapsed_ms(x.mock_direct_p99), 1).as_str());
    s.append(" ms; simulated cloud p99: ");
    s.append(show_fixed(to_exact_ms(x.simulated_cloud_p99), 0).as_str());
    s.append(" ms\n- estimated cost: $");
    s.append(show_fixed(x.est_cost, 4).as_str());
    s.append(" vs always-cloud $");
    s.append(show_fixed(x.always_cloud_cost, 4).as_str());
    s.append(" (");
    s.append(x.provider_profile.as_str());
    s.append(" profile)\n");
    s
}

/// A mean fidelity as it is written.
pub open spec fn mean_text(v: Seq<int>) -> Seq<char> {
    match average_signed(v) {
        None => "n/a"@,
        Some(m) => fixed_signed(m, 3),
    }
}

fn write_mean(v: &Vec<Signed>) -> (r: String)
    ensures
        r@ == mean_text(signed_views(v@)),
{
    match mean_signed(v) {
        None => "n/a".to_owned(),
        Some(m) => m.show(3),
    }
}

/// What is listed of storage and fidelities.
pub open spec fn codec_lines(c: CodecView) -> Seq<char> {
    "- storage: "@
        + dec(c.token_bytes as nat)
        + " B tokens vs "@
        + dec(c.wav_bytes as nat)
        + " B wav-equivalent = **"@
        + fixed(storage_ratio(c), 1)
        + "\u{d7}**\n- STOI (fully-cached, native): "@
        + mean_text(c.stoi)
        + "\n- voice fidelity (fully-cached, native sig): "@
        + mean_text(c.voice)
        + "\n"@
}

fn write_codec(c: &CodecSums) -> (r: String)
    ensures
        r@ == codec_lines(c@),
{
    let mut s = "- storage: ".to_owned();
    s.append(decimal(c.token_bytes as u64).as_str());
    s.append(" B tokens vs ");
    s.append(decimal(c.wav_bytes as u64).as_str());
    s.append(" B wav-equivalent = **");
    s.append(show_fixed(measure_ratio(c), 1).as_str());
    s.append("\u{d7}**\n- STOI (fully-cached, native): ");
    s.append(write_mean(&c.stoi).as_str());
    s.append("\n- voice fidelity (fully-cached, native sig): ");
    s.append(write_mean(&c.voice).as_str());
    s.append("\n");
    s
}

/// The rows of the table of sweeps.
pub open spec fn table_of(rows: Seq<RowView>) -> Seq<char>
    decreases rows.len(),
{
    if rows.len() == 0 {
        Seq::empty()
    } else {
        table_of(rows.drop_last()) + row_line(rows.last())
    }
}

fn write_table(rows: &Vec<ModeRow>) -> (r: String)
    ensures
        r@ == table_of(row_views(rows@)),
{
    let ghost all = row_views(rows@);
    let mut s = String::new();
    let mut i: usize = 0;
    assert(all.take(0) =~= Seq::<RowView>::empty());
    assert(s@ =~= table_of(all.take(0)));
    while i < rows.len()
        invariant
            all == row_views(rows@),
            i <= rows@.len(),
            s@ == table_of(all.take(i as int)),
        decreases rows@.len() - i,
    {
        assert(all.take(i + 1).drop_last() =~= all.take(i as int));
        assert(all.take(i + 1).last() == rows@[i as int]@);
        s.append(write_row(&rows[i]).as_str());
        i += 1;
    }
    assert(all.take(i as int) =~= all);
    s
}

/// Notes as a list.
pub open spec fn note_lines(notes: Seq<Seq<char>>) -> Seq<char>
    decreases notes.len(),
{
    if notes.len() == 0 {
        Seq::empty()
    } else {
        note_lines(notes.drop_last()) + "- "@ + notes.last() + "\n"@
    }
}

fn write_notes(notes: &Vec<String>) -> (r: String)
    ensures
        r@ == note_lines(texts(notes@)),
{
    let ghost all = texts(notes@);
    let mut s = String::new();
    let mut i: usize = 0;
    assert(all.take(0) =~= Seq::<Seq<char>>::empty());
    assert(s@ =~= note_lines(all.take(0)));
    while i < notes.len()
        invariant
            all == texts(notes@),
            i <= notes@.len(),
            s@ == note_lines(all.take(i as int)),
        decreases notes@.len() - i,
    {
        assert(all.take(i + 1).drop_last() =~= all.take(i as int));
        assert(all.take(i + 1).last() == notes@[i as int]@);
        s.append("- ");
        s.append(notes[i].as_str());
        s.append("\n");
        i += 1;
    }
    assert(all.take(i as int) =~= all);
    s
}

/// The section on the replay, where there was one.
pub open spec fn replay_section(r: Option<ReplayView>) -> Seq<char> {
    match r {
        None => Seq::empty(),
        Some(x) => "\n## Production-workload replay\n\n"@ + replay_lines(x),
    }
}

/// The section on the codec, where the current mode was run.
pub open spec fn codec_section(rows: Seq<RowView>) -> Seq<char> {
    let c = codec_sums(rows);
    if c.rows == 0 {
        Seq::empty()
    } else {
        "\n## Codec-native cache (P4)\n\n"@ + codec_lines(c)
    }
}

/// A report as Markdown.
pub open spec fn markdown_of(e: EvalView) -> Seq<char> {
    "# Mimic eval report\n\n"@ + "## Coverage & compose sweeps\n\n"@
        + "| mode | corpus | eval utts | cache hit % | generated chars | RTF | seam | unresolved words | units |\n"@
        + "|---|---|---|---|---|---|---|---|---|\n"@ + table_of(e.rows)
        + "\n## Alignment gate (vs MockTts ground truth)\n\n"@ + boundary_lines(e.boundary)
        + replay_section(e.replay) + codec_section(e.rows) + "\n## Notes\n\n"@ + note_lines(e.notes)
}

/// Writes a report as Markdown.
pub fn to_markdown(report: &EvalReport) -> (r: String)
    ensures
        r@ == markdown_of(report@),
{
    let mut s = "# Mimic eval report\n\n".to_owned();
    s.append("## Coverage & compose sweeps\n\n");
    s.append(
        "| mode | corpus | eval utts | cache hit % | generated chars | RTF | seam | unresolved words | units |\n",
    );
    s.append("|---|---|---|---|---|---|---|---|---|\n");
    s.append(write_table(&report.rows).as_str());
    s.append("\n## Alignment gate (vs MockTts ground truth)\n\n");
    s.append(write_boundaries(&report.boundary).as_str());
    let ghost before = s@;
    match &report.replay {
        None => {},
        Some(x) => {
            s.append("\n## Production-workload replay\n\n");
            s.append(write_replay(x).as_str());
        },
    }
    assert(s@ =~= before + replay_section(report@.replay));
    let ghost before = s@;
    let c = sum_codec(&report.rows);
    if c.rows > 0 {
        s.append("\n## Codec-native cache (P4)\n\n");
        s.append(write_codec(&c).as_str());
    }
    assert(s@ =~= before + codec_section(report@.rows));
    s.append("\n## Notes\n\n");
    s.append(write_notes(&report.notes).as_str());
    s
}

// ---- JSON ----

/// An optional fidelity as JSON.
pub open spec fn fidelity_json(v: Option<int>) -> Seq<char> {
    match v {
        Some(m) => fixed_signed(m, 4),
        None => "null"@,
    }
}

fn write_fidelity(v: Option<Signed>) -> (r: String)
    ensures
        r@ == fidelity_json(opt_signed(v)),
{
    match v {
        Some(m) => m.show(4),
        None => "null".to_owned(),
    }
}

/// A row as JSON.
pub open spec fn row_json(r: RowView) -> Seq<char> {
    "    {\"mode\": \""@
        + r.mode
        + "\", \"corpus\": \""@
        + r.corpus
        + "\", \"eval_utterances\": "@
        + dec(r.eval_utterances as nat)
        + ", \"cache_hit_pct\": "@
        + fixed(r.cache_hit_pct, 2)
        + ", \"generated_chars\": "@
        + dec(r.generated_chars as nat)
        + ", \"total_chars\": "@
        + dec(r.total_chars as nat)
        + ", \"rtf\": "@
        + fixed(r.rtf, 4)
        + ", \"mean_seam\": "@
        + fixed(r.mean_seam, 5)
        + ", \"unresolved_words\": "@
        + dec(r.unresolved_words as nat)
        + ", \"units_total\": "@
        + dec(r.units_total as nat)
        + ", \"stoi\": "@
        + fidelity_json(r.stoi)
        + ", \"voice_fidelity\": "@
        + fidelity_json(r.voice_fidelity)
        + ", \"token_bytes\": "@
        + dec(r.token_bytes as nat)
        + ", \"wav_bytes\": "@
        + dec(r.wav_bytes as nat)
        + "}"@
}

fn write_row_json(row: &ModeRow) -> (r: String)
    ensures
        r@ == row_json(row@),
{
    let mut s = "    {\"mode\": \"".to_owned();
    s.append(row.mode.as_str());
    s.append("\", \"corpus\": \"");
    s.append(row.corpus.as_str());
    s.append("\", \"eval_utterances\": ");
    s.append(decimal(row.eval_utterances as u64).as_str());
    s.append(", \"cache_hit_pct\": ");
    s.append(show_fixed(row.cache_hit_pct, 2).as_str());
    s.append(", \"generated_chars\": ");
    s.append(decimal(row.generated_chars as u64).as_str());
    s.append(", \"total_chars\": ");
    s.append(decimal(row.total_chars as u64).as_str());
    s.append(", \"rtf\": ");
    s.append(show_fixed(row.rtf, 4).as_str());
    s.append(", \"mean_seam\": ");
    s.append(show_fixed(row.mean_seam, 5).as_str());
    s.append(", \"unresolved_words\": ");
    s.append(decimal(row.unresolved_words as u64).as_str());
    s.append(", \"units_total\": ");
    s.append(decimal(row.units_total as u64).as_str());
    s.append(", \"stoi\": ");
    s.append(write_fidelity(row.stoi).as_str());
    s.append(", \"voice_fidelity\": ");
    s.append(write_fidelity(row.voice_fidelity).as_str());
    s.append(", \"token_bytes\": ");
    s.append(decimal(row.token_bytes as u64).as_str());
    s.append(", \"wav_bytes\": ");
    s.append(decimal(row.wav_bytes as u64).as_str());
    s.append("}");
    s
}

/// The boundary statistics as JSON, behind the rows.
pub open spec fn boundary_json(b: BoundaryStats) -> Seq<char> {
    "  ],\n  \"boundary\": {\"clips\": "@
        + dec(b.clips as nat)
        + ", \"boundaries\": "@
        + dec(b.boundaries as nat)
        + ", \"median_ms\": "@
        + fixed(exact_ms(b.median as nat), 3)
        + ", \"p90_ms\": "@
        + fixed(exact_ms(b.p90 as nat), 3)
        + ", \"max_ms\": "@
        + fixed(exact_ms(b.max as nat), 3)
        + ", \"baseline_median_ms\": "@
        + fixed(exact_ms(b.baseline_median as nat), 3)
        + "}"@
}

fn write_boundary_json(b: &BoundaryStats) -> (r: String)
    ensures
        r@ == boundary_json(*b),
{
    let mut s = "  ],\n  \"boundary\": {\"clips\": ".to_owned();
    s.append(decimal(b.clips as u64).as_str());
    s.append(", \"boundaries\": ");
    s.append(decimal(b.boundaries as u64).as_str());
    s.append(", \"median_ms\": ");
    s.append(show_fixed(to_exact_ms(b.median), 3).as_str());
    s.append(", \"p90_ms\": ");
    s.append(show_fixed(to_exact_ms(b.p90), 3).as_str());
    s.append(", \"max_ms\": ");
    s.append(show_fixed(to_exact_ms(b.max), 3).as_str());
    s.append(", \"baseline_median_ms\": ");
    s.append(show_fixed(to_exact_ms(b.baseline_median), 3).as_str());
    s.append("}");
    s
}

/// The replay as JSON, behind the boundary statistics.
pub open spec fn replay_json(x: ReplayView) -> Seq<char> {
    ",\n  \"replay\": {\"requests\": "@
        + dec(x.requests as nat)
        + ", \"coverage_pct\": "@
        + fixed(x.coverage_pct, 2)
        + ", \"generated_chars\": "@
        + dec(x.generated_chars as nat)
        + ", \"total_chars\": "@
        + dec(x.total_chars as nat)
        + ", \"p50_ms\": "@
        + fixed(elapsed_ms(x.p50 as nat), 3)
        + ", \"p99_ms\": "@
        + fixed(elapsed_ms(x.p99 as nat), 3)
        + ", \"mock_direct_p99_ms\": "@
        + fixed(elapsed_ms(x.mock_direct_p99 as nat), 3)
        + ", \"simulated_cloud_p99_ms\": "@
        + fixed(exact_ms(x.simulated_cloud_p99 as nat), 1)
        + ", \"est_cost_usd\": "@
        + fixed(x.est_cost, 6)
        + ", \"always_cloud_cost_usd\": "@
        + fixed(x.always_cloud_cost, 6)
        + ", \"provider_profile\": \""@
        + x.provider_profile
        + "\"}"@
}

fn write_replay_json(x: &ReplayReport) -> (r: String)
    ensures
        r@ == replay_json(x@),
{
    let mut s = ",\n  \"replay\": {\"requests\": ".to_owned();
    s.append(decimal(x.requests as u64).as_str());
    s.append(", \"coverage_pct\": ");
    s.append(show_fixed(x.coverage_pct, 2).as_str());
    s.append(", \"generated_chars\": ");
    s.append(decimal(x.generated_chars as u64).as_str());
    s.append(", \"total_chars\": ");
    s.append(decimal(x.total_chars as u64).as_str());
    s.append(", \"p50_ms\": ");
    s.append(show_fixed(to_elapsed_ms(x.p50), 3).as_str());
    s.append(", \"p99_ms\": ");
    s.append(show_fixed(to_elapsed_ms(x.p99), 3).as_str());
    s.append(", \"mock_direct_p99_ms\": ");
    s.append(show_fixed(to_elapsed_ms(x.mock_direct_p99), 3).as_str());
    s.append(", \"simulated_cloud_p99_ms\": ");
    s.append(show_fixed(to_exact_ms(x.simulated_cloud_p99), 1).as_str());
    s.append(", \"est_cost_usd\": ");
    s.append(show_fixed(x.est_cost, 6).as_str());
    s.append(", \"always_cloud_cost_usd\": ");
    s.append(show_fixed(x.always_cloud_cost, 6).as_str());
    s.append(", \"provider_profile\": \"");
    s.append(x.provider_profile.as_str());
    s.append("\"}");
    s
}

/// The first `n` rows as JSON, with a comma behind all but the last of the whole.
pub open spec fn rows_json(rows: Seq<RowView>, n: nat) -> Seq<char>
    decreases n,
{
    if n == 0 {
        Seq::empty()
    } else {
        rows_json(rows, (n - 1) as nat) + row_json(rows[n - 1]) + (if n == rows.len() {
            "\n"@
        } else {
            ",\n"@
        })
    }
}

/// A report as flat JSON.
pub open spec fn json_of(e: EvalView) -> Seq<char> {
    "{\n  \"rows\": [\n"@ + rows_json(e.rows, e.rows.len()) + boundary_json(e.boundary) + (
    match e.replay {
        None => Seq::empty(),
        Some(x) => replay_json(x),
    }) + "\n}\n"@
}

fn write_rows_json(rows: &Vec<ModeRow>) -> (r: String)
    ensures
        r@ == rows_json(row_views(rows@), rows@.len()),
{
    let ghost all = row_views(rows@);
    let n: usize = rows.len();
    let mut s = String::new();
    let mut i: usize = 0;
    assert(s@ =~= rows_json(all, 0));
    while i < n
        invariant
            n == rows@.len(),
            all == row_views(rows@),
            i <= n,
            s@ == rows_json(all, i as nat),
        decreases n - i,
    {
        assert(all[i as int] == rows@[i as int]@);
        s.append(write_row_json(&rows[i]).as_str());
        i += 1;
        if i == n {
            s.append("\n");
        } else {
            s.append(",\n");
        }
    }
    s
}

/// Writes a report as flat JSON.
pub fn to_json(report: &EvalReport) -> (r: String)
    ensures
        r@ == json_of(report@),
{
    let mut s = "{\n  \"rows\": [\n".to_owned();
    s.append(write_rows_json(&report.rows).as_str());
    s.append(write_boundary_json(&report.boundary).as_str());
    let ghost before = s@;
    match &report.replay {
        None => {
            assert(s@ =~= before + Seq::<char>::empty());
        },
        Some(x) => {
            s.append(write_replay_json(x).as_str());
        },
    }
    s.append("\n}\n");
    assert(row_views(report.rows@).len() == report.rows@.len());
    s
}

} // verus!
