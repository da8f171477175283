//! What reports say: every figure stands behind its own name.

use crate::eval::{elapsed_ms, exact_ms, BoundaryStats, ReplayView, RowView};
use crate::figures::fixed;
use crate::http::holds_text;
use crate::render::{
    boundary_json, boundary_lines, fidelity_json, replay_json, replay_lines, row_json, row_line,
    rows_json, table_of,
};
use crate::text::{dec, starts_with};
use vstd::prelude::*;
use vstd::string::*;

verus! {

/// Whether a text says a value directly behind a name.
pub open spec fn says(s: Seq<char>, name: Seq<char>, value: Seq<char>) -> bool {
    holds_text(s, name + value)
}

/// Names and values, one behind the other.
spec fn in_turn(f: Seq<(Seq<char>, Seq<char>)>) -> Seq<char>
    decreases f.len(),
{
    if f.len() == 0 {
        Seq::empty()
    } else {
        in_turn(f.drop_last()) + f.last().0 + f.last().1
    }
}

proof fn lemma_one(name: Seq<char>, value: Seq<char>)
    ensures
        in_turn(seq![(name, value)]) == name + value,
{
    let f = seq![(name, value)];
    assert(f.drop_last() =~= Seq::<(Seq<char>, Seq<char>)>::empty());
    assert(in_turn(f.drop_last()) =~= Seq::<char>::empty());
    assert(in_turn(f) =~= name + value);
}

proof fn lemma_next(f: Seq<(Seq<char>, Seq<char>)>, name: Seq<char>, value: Seq<char>)
    ensures
        in_turn(f.push((name, value))) == in_turn(f) + name + value,
{
    assert(f.push((name, value)).drop_last() =~= f);
}

proof fn lemma_stands(front: Seq<char>, part: Seq<char>, back: Seq<char>)
    ensures
        holds_text(front + part + back, part),
{
    let s = front + part + back;
    assert(s.skip(front.len() as int).take(part.len() as int) =~= part);
    assert(starts_with(s.skip(front.len() as int), part));
}

proof fn lemma_within(front: Seq<char>, s: Seq<char>, back: Seq<char>, part: Seq<char>)
    requires
        holds_text(s, part),
    ensures
        holds_text(front + s + back, part),
{
    let i = choose|i: int| 0 <= i <= s.len() && #[trigger] starts_with(s.skip(i), part);
    let t = front + s + back;
    let k = front.len() + i;
    assert(t.skip(k).take(part.len() as int) =~= s.skip(i).take(part.len() as int));
    assert(starts_with(t.skip(k), part));
}

proof fn lemma_all_said(f: Seq<(Seq<char>, Seq<char>)>, back: Seq<char>, i: int)
    requires
        0 <= i < f.len(),
    ensures
        says(in_turn(f) + back, f[i].0, f[i].1),
    decreases f.len(),
{
    let t = f.drop_last();
    if i == f.len() - 1 {
        assert(in_turn(f) + back =~= in_turn(t) + (f[i].0 + f[i].1) + back);
        lemma_stands(in_turn(t), f[i].0 + f[i].1, back);
    } else {
        let more = f.last().0 + f.last().1 + back;
        lemma_all_said(t, more, i);
        assert(t[i] == f[i]);
        assert(in_turn(f) + back =~= in_turn(t) + more);
    }
}

/// A row says each of its figures behind the name of that figure.
pub proof fn rows_say_their_figures(r: RowView)
    ensures
        says(row_json(r), "    {\"mode\": \""@, r.mode),
        says(row_json(r), "\", \"corpus\": \""@, r.corpus),
        says(row_json(r), "\", \"eval_utterances\": "@, dec(r.eval_utterances as nat)),
        says(row_json(r), ", \"cache_hit_pct\": "@, fixed(r.cache_hit_pct, 2)),
        says(row_json(r), ", \"generated_chars\": "@, dec(r.generated_chars as nat)),
        says(row_json(r), ", \"total_chars\": "@, dec(r.total_chars as nat)),
        says(row_json(r), ", \"rtf\": "@, fixed(r.rtf, 4)),
        says(row_json(r), ", \"mean_seam\": "@, fixed(r.mean_seam, 5)),
        says(row_json(r), ", \"unresolved_words\": "@, dec(r.unresolved_words as nat)),
        says(row_json(r), ", \"units_total\": "@, dec(r.units_total as nat)),
        says(row_json(r), ", \"stoi\": "@, fidelity_json(r.stoi)),
        says(row_json(r), ", \"voice_fidelity\": "@, fidelity_json(r.voice_fidelity)),
        says(row_json(r), ", \"token_bytes\": "@, dec(r.token_bytes as nat)),
        says(row_json(r), ", \"wav_bytes\": "@, dec(r.wav_bytes as nat)),
{
    let f1 = seq![("    {\"mode\": \""@, r.mode)];
    lemma_one("    {\"mode\": \""@, r.mode);
    let f2 = f1.push(("\", \"corpus\": \""@, r.corpus));
    lemma_next(f1, "\", \"corpus\": \""@, r.corpus);
    let f3 = f2.push(("\", \"eval_utterances\": "@, dec(r.eval_utterances as nat)));
    lemma_next(f2, "\", \"eval_utterances\": "@, dec(r.eval_utterances as nat));
    let f4 = f3.push((", \"cache_hit_pct\": "@, fixed(r.cache_hit_pct, 2)));
    lemma_next(f3, ", \"cache_hit_pct\": "@, fixed(r.cache_hit_pct, 2));
    let f5 = f4.push((", \"generated_chars\": "@, dec(r.generated_chars as nat)));
    lemma_next(f4, ", \"generated_chars\": "@, dec(r.generated_chars as nat));
    let f6 = f5.push((", \"total_chars\": "@, dec(r.total_chars as nat)));
    lemma_next(f5, ", \"total_chars\": "@, dec(r.total_chars as nat));
    let f7 = f6.push((", \"rtf\": "@, fixed(r.rtf, 4)));
    lemma_next(f6, ", \"rtf\": "@, fixed(r.rtf, 4));
    let f8 = f7.push((", \"mean_seam\": "@, fixed(r.mean_seam, 5)));
    lemma_next(f7, ", \"mean_seam\": "@, fixed(r.mean_seam, 5));
    let f9 = f8.push((", \"unresolved_words\": "@, dec(r.unresolved_words as nat)));
    lemma_next(f8, ", \"unresolved_words\": "@, dec(r.unresolved_words as nat));
    let f10 = f9.push((", \"units_total\": "@, dec(r.units_total as nat)));
    lemma_next(f9, ", \"units_total\": "@, dec(r.units_total as nat));
    let f11 = f10.push((", \"stoi\": "@, fidelity_json(r.stoi)));
    lemma_next(f10, ", \"stoi\": "@, fidelity_json(r.stoi));
    let f12 = f11.push((", \"voice_fidelity\": "@, fidelity_json(r.voice_fidelity)));
    lemma_next(f11, ", \"voice_fidelity\": "@, fidelity_json(r.voice_fidelity));
    let f13 = f12.push((", \"token_bytes\": "@, dec(r.token_bytes as nat)));
    lemma_next(f12, ", \"token_bytes\": "@, dec(r.token_bytes as nat));
    let f14 = f13.push((", \"wav_bytes\": "@, dec(r.wav_bytes as nat)));
    lemma_next(f13, ", \"wav_bytes\": "@, dec(r.wav_bytes as nat));
    assert(row_json(r) == in_turn(f14) + "}"@);
    lemma_all_said(f14, "}"@, 0);
    lemma_all_said(f14, "}"@, 1);
    lemma_all_said(f14, "}"@, 2);
    lemma_all_said(f14, "}"@, 3);
    lemma_all_said(f14, "}"@, 4);
    lemma_all_said(f14, "}"@, 5);
    lemma_all_said(f14, "}"@, 6);
    lemma_all_said(f14, "}"@, 7);
    lemma_all_said(f14, "}"@, 8);
    lemma_all_said(f14, "}"@, 9);
    lemma_all_said(f14, "}"@, 10);
    lemma_all_said(f14, "}"@, 11);
    lemma_all_said(f14, "}"@, 12);
    lemma_all_said(f14, "}"@, 13);
}

/// So do the figures on boundaries.
pub proof fn boundaries_say_their_figures(b: BoundaryStats)
    ensures
        says(boundary_json(b), "  ],\n  \"boundary\": {\"clips\": "@, dec(b.clips as nat)),
        says(boundary_json(b), ", \"boundaries\": "@, dec(b.boundaries as nat)),
        says(boundary_json(b), ", \"median_ms\": "@, fixed(exact_ms(b.median as nat), 3)),
        says(boundary_json(b), ", \"p90_ms\": "@, fixed(exact_ms(b.p90 as nat), 3)),
        says(boundary_json(b), ", \"max_ms\": "@, fixed(exact_ms(b.max as nat), 3)),
        says(boundary_json(b), ", \"baseline_median_ms\": "@, fixed(exact_ms(b.baseline_median as nat), 3)),
{
    let f1 = seq![("  ],\n  \"boundary\": {\"clips\": "@, dec(b.clips as nat))];
    lemma_one("  ],\n  \"boundary\": {\"clips\": "@, dec(b.clips as nat));
    let f2 = f1.push((", \"boundaries\": "@, dec(b.boundaries as nat)));
    lemma_next(f1, ", \"boundaries\": "@, dec(b.boundaries as nat));
    let f3 = f2.push((", \"median_ms\": "@, fixed(exact_ms(b.median as nat), 3)));
    lemma_next(f2, ", \"median_ms\": "@, fixed(exact_ms(b.median as nat), 3));
    let f4 = f3.push((", \"p90_ms\": "@, fixed(exact_ms(b.p90 as nat), 3)));
    lemma_next(f3, ", \"p90_ms\": "@, fixed(exact_ms(b.p90 as nat), 3));
    let f5 = f4.push((", \"max_ms\": "@, fixed(exact_ms(b.max as nat), 3)));
    lemma_next(f4, ", \"max_ms\": "@, fixed(exact_ms(b.max as nat), 3));
    let f6 = f5.push((", \"baseline_median_ms\": "@, fixed(exact_ms(b.baseline_median as nat), 3)));
    lemma_next(f5, ", \"baseline_median_ms\": "@, fixed(exact_ms(b.baseline_median as nat), 3));
    assert(boundary_json(b) == in_turn(f6) + "}"@);
    lemma_all_said(f6, "}"@, 0);
    lemma_all_said(f6, "}"@, 1);
    lemma_all_said(f6, "}"@, 2);
    lemma_all_said(f6, "}"@, 3);
    lemma_all_said(f6, "}"@, 4);
    lemma_all_said(f6, "}"@, 5);
}

/// So do those of a replay.
pub proof fn replays_say_their_figures(x: ReplayView)
    ensures
        says(replay_json(x), ",\n  \"replay\": {\"requests\": "@, dec(x.requests as nat)),
        says(replay_json(x), ", \"coverage_pct\": "@, fixed(x.coverage_pct, 2)),
        says(replay_json(x), ", \"generated_chars\": "@, dec(x.generated_chars as nat)),
        says(replay_json(x), ", \"total_chars\": "@, dec(x.total_chars as nat)),
        says(replay_json(x), ", \"p50_ms\": "@, fixed(elapsed_ms(x.p50 as nat), 3)),
        says(replay_json(x), ", \"p99_ms\": "@, fixed(elapsed_ms(x.p99 as nat), 3)),
        says(replay_json(x), ", \"mock_direct_p99_ms\": "@, fixed(elapsed_ms(x.mock_direct_p99 as nat), 3)),
        says(replay_json(x), ", \"simulated_cloud_p99_ms\": "@, fixed(exact_ms(x.simulated_cloud_p99 as nat), 1)),
        says(replay_json(x), ", \"est_cost_usd\": "@, fixed(x.est_cost, 6)),
        says(replay_json(x), ", \"always_cloud_cost_usd\": "@, fixed(x.always_cloud_cost, 6)),
        says(replay_json(x), ", \"provider_profile\": \""@, x.provider_profile),
{
    let f1 = seq![(",\n  \"replay\": {\"requests\": "@, dec(x.requests as nat))];
    lemma_one(",\n  \"replay\": {\"requests\": "@, dec(x.requests as nat));
    let f2 = f1.push((", \"coverage_pct\": "@, fixed(x.coverage_pct, 2)));
    lemma_next(f1, ", \"coverage_pct\": "@, fixed(x.coverage_pct, 2));
    let f3 = f2.push((", \"generated_chars\": "@, dec(x.generated_chars as nat)));
    lemma_next(f2, ", \"generated_chars\": "@, dec(x.generated_chars as nat));
    let f4 = f3.push((", \"total_chars\": "@, dec(x.total_chars as nat)));
    lemma_next(f3, ", \"total_chars\": "@, dec(x.total_chars as nat));
    let f5 = f4.push((", \"p50_ms\": "@, fixed(elapsed_ms(x.p50 as nat), 3)));
    lemma_next(f4, ", \"p50_ms\": "@, fixed(elapsed_ms(x.p50 as nat), 3));
    let f6 = f5.push((", \"p99_ms\": "@, fixed(elapsed_ms(x.p99 as nat), 3)));
    lemma_next(f5, ", \"p99_ms\": "@, fixed(elapsed_ms(x.p99 as nat), 3));
    let f7 = f6.push((", \"mock_direct_p99_ms\": "@, fixed(elapsed_ms(x.mock_direct_p99 as nat), 3)));
    lemma_next(f6, ", \"mock_direct_p99_ms\": "@, fixed(elapsed_ms(x.mock_direct_p99 as nat), 3));
    let f8 = f7.push((", \"simulated_cloud_p99_ms\": "@, fixed(exact_ms(x.simulated_cloud_p99 as nat), 1)));
    lemma_next(f7, ", \"simulated_cloud_p99_ms\": "@, fixed(exact_ms(x.simulated_cloud_p99 as nat), 1));
    let f9 = f8.push((", \"est_cost_usd\": "@, fixed(x.est_cost, 6)));
    lemma_next(f8, ", \"est_cost_usd\": "@, fixed(x.est_cost, 6));
    let f10 = f9.push((", \"always_cloud_cost_usd\": "@, fixed(x.always_cloud_cost, 6)));
    lemma_next(f9, ", \"always_cloud_cost_usd\": "@, fixed(x.always_cloud_cost, 6));
    let f11 = f10.push((", \"provider_profile\": \""@, x.provider_profile));
    lemma_next(f10, ", \"provider_profile\": \""@, x.provider_profile);
    assert(replay_json(x) == in_turn(f11) + "\"}"@);
    lemma_all_said(f11, "\"}"@, 0);
    lemma_all_said(f11, "\"}"@, 1);
    lemma_all_said(f11, "\"}"@, 2);
    lemma_all_said(f11, "\"}"@, 3);
    lemma_all_said(f11, "\"}"@, 4);
    lemma_all_said(f11, "\"}"@, 5);
    lemma_all_said(f11, "\"}"@, 6);
    lemma_all_said(f11, "\"}"@, 7);
    lemma_all_said(f11, "\"}"@, 8);
    lemma_all_said(f11, "\"}"@, 9);
    lemma_all_said(f11, "\"}"@, 10);
}

/// What is listed of boundaries says them as well.
pub proof fn boundary_lines_say_their_figures(b: BoundaryStats)
    ensures
        says(boundary_lines(b), "- clips: "@, dec(b.clips as nat)),
        says(boundary_lines(b), ", boundaries: "@, dec(b.boundaries as nat)),
        says(boundary_lines(b), "\n- p1 median: **"@, fixed(exact_ms(b.median as nat), 2)),
        says(boundary_lines(b), " ms**, p90: "@, fixed(exact_ms(b.p90 as nat), 2)),
        says(boundary_lines(b), " ms, max: "@, fixed(exact_ms(b.max as nat), 2)),
        says(boundary_lines(b), " ms\n- v1-baseline median: "@, fixed(exact_ms(b.baseline_median as nat), 2)),
{
    let f1 = seq![("- clips: "@, dec(b.clips as nat))];
    lemma_one("- clips: "@, dec(b.clips as nat));
    let f2 = f1.push((", boundaries: "@, dec(b.boundaries as nat)));
    lemma_next(f1, ", boundaries: "@, dec(b.boundaries as nat));
    let f3 = f2.push(("\n- p1 median: **"@, fixed(exact_ms(b.median as nat), 2)));
    lemma_next(f2, "\n- p1 median: **"@, fixed(exact_ms(b.median as nat), 2));
    let f4 = f3.push((" ms**, p90: "@, fixed(exact_ms(b.p90 as nat), 2)));
    lemma_next(f3, " ms**, p90: "@, fixed(exact_ms(b.p90 as nat), 2));
    let f5 = f4.push((" ms, max: "@, fixed(exact_ms(b.max as nat), 2)));
    lemma_next(f4, " ms, max: "@, fixed(exact_ms(b.max as nat), 2));
    let f6 = f5.push((" ms\n- v1-baseline median: "@, fixed(exact_ms(b.baseline_median as nat), 2)));
    lemma_next(f5, " ms\n- v1-baseline median: "@, fixed(exact_ms(b.baseline_median as nat), 2));
    assert(boundary_lines(b) == in_turn(f6) + " ms\n"@);
    lemma_all_said(f6, " ms\n"@, 0);
    lemma_all_said(f6, " ms\n"@, 1);
    lemma_all_said(f6, " ms\n"@, 2);
    lemma_all_said(f6, " ms\n"@, 3);
    lemma_all_said(f6, " ms\n"@, 4);
    lemma_all_said(f6, " ms\n"@, 5);
}

/// And so does what is listed of a replay.
pub proof fn replay_lines_say_their_figures(x: ReplayView)
    ensures
        says(replay_lines(x), "- requests: "@, dec(x.requests as nat)),
        says(replay_lines(x), " (Zipf-ish: 75% head / 25% long tail)\n- coverage: **"@, fixed(x.coverage_pct, 1)),
        says(replay_lines(x), "%** ("@, dec(x.generated_chars as nat)),
        says(replay_lines(x), " / "@, dec(x.total_chars as nat)),
        says(replay_lines(x), " chars generated)\n- compose latency: p50 "@, fixed(elapsed_ms(x.p50 as nat), 1)),
        says(replay_lines(x), " ms, p99 "@, fixed(elapsed_ms(x.p99 as nat), 1)),
        says(replay_lines(x), " ms\n- provider-direct mock p99: "@, fixed(elapsed_ms(x.mock_direct_p99 as nat), 1)),
        says(replay_lines(x), " ms; simulated cloud p99: "@, fixed(exact_ms(x.simulated_cloud_p99 as nat), 0)),
        says(replay_lines(x), " ms\n- estimated cost: $"@, fixed(x.est_cost, 4)),
        says(replay_lines(x), " vs always-cloud $"@, fixed(x.always_cloud_cost, 4)),
        says(replay_lines(x), " ("@, x.provider_profile),
{
    let f1 = seq![("- requests: "@, dec(x.requests as nat))];
    lemma_one("- requests: "@, dec(x.requests as nat));
    let f2 = f1.push((" (Zipf-ish: 75% head / 25% long tail)\n- coverage: **"@, fixed(x.coverage_pct, 1)));
    lemma_next(f1, " (Zipf-ish: 75% head / 25% long tail)\n- coverage: **"@, fixed(x.coverage_pct, 1));
    let f3 = f2.push(("%** ("@, dec(x.generated_chars as nat)));
    lemma_next(f2, "%** ("@, dec(x.generated_chars as nat));
    let f4 = f3.push((" / "@, dec(x.total_chars as nat)));
    lemma_next(f3, " / "@, dec(x.total_chars as nat));
    let f5 = f4.push((" chars generated)\n- compose latency: p50 "@, fixed(elapsed_ms(x.p50 as nat), 1)));
    lemma_next(f4, " chars generated)\n- compose latency: p50 "@, fixed(elapsed_ms(x.p50 as nat), 1));
    let f6 = f5.push((" ms, p99 "@, fixed(elapsed_ms(x.p99 as nat), 1)));
    lemma_next(f5, " ms, p99 "@, fixed(elapsed_ms(x.p99 as nat), 1));
    let f7 = f6.push((" ms\n- provider-direct mock p99: "@, fixed(elapsed_ms(x.mock_direct_p99 as nat), 1)));
    lemma_next(f6, " ms\n- provider-direct mock p99: "@, fixed(elapsed_ms(x.mock_direct_p99 as nat), 1));
    let f8 = f7.push((" ms; simulated cloud p99: "@, fixed(exact_ms(x.simulated_cloud_p99 as nat), 0)));
    lemma_next(f7, " ms; simulated cloud p99: "@, fixed(exact_ms(x.simulated_cloud_p99 as nat), 0));
    let f9 = f8.push((" ms\n- estimated cost: $"@, fixed(x.est_cost, 4)));
    lemma_next(f8, " ms\n- estimated cost: $"@, fixed(x.est_cost, 4));
    let f10 = f9.push((" vs always-cloud $"@, fixed(x.always_cloud_cost, 4)));
    lemma_next(f9, " vs always-cloud $"@, fixed(x.always_cloud_cost, 4));
    let f11 = f10.push((" ("@, x.provider_profile));
    lemma_next(f10, " ("@, x.provider_profile);
    assert(replay_lines(x) == in_turn(f11) + " profile)\n"@);
    lemma_all_said(f11, " profile)\n"@, 0);
    lemma_all_said(f11, " profile)\n"@, 1);
    lemma_all_said(f11, " profile)\n"@, 2);
    lemma_all_said(f11, " profile)\n"@, 3);
    lemma_all_said(f11, " profile)\n"@, 4);
    lemma_all_said(f11, " profile)\n"@, 5);
    lemma_all_said(f11, " profile)\n"@, 6);
    lemma_all_said(f11, " profile)\n"@, 7);
    lemma_all_said(f11, " profile)\n"@, 8);
    lemma_all_said(f11, " profile)\n"@, 9);
    lemma_all_said(f11, " profile)\n"@, 10);
}

/// Every row stands in the table, and in the list of rows.
pub proof fn every_row_is_shown(rows: Seq<RowView>, i: int)
    requires
        0 <= i < rows.len(),
    ensures
        holds_text(table_of(rows), row_line(rows[i])),
        holds_text(rows_json(rows, rows.len()), row_json(rows[i])),
{
    lemma_row_in_table(rows, i);
    lemma_row_in_list(rows, rows.len(), i);
}

proof fn lemma_row_in_table(rows: Seq<RowView>, i: int)
    requires
        0 <= i < rows.len(),
    ensures
        holds_text(table_of(rows), row_line(rows[i])),
    decreases rows.len(),
{
    let t = rows.drop_last();
    let last = row_line(rows.last());
    if i == rows.len() - 1 {
        lemma_stands(table_of(t), last, Seq::empty());
        assert(table_of(rows) =~= table_of(t) + last + Seq::<char>::empty());
    } else {
        lemma_row_in_table(t, i);
        assert(t[i] == rows[i]);
        lemma_within(Seq::empty(), table_of(t), last, row_line(rows[i]));
        assert(table_of(rows) =~= Seq::<char>::empty() + table_of(t) + last);
    }
}

proof fn lemma_row_in_list(rows: Seq<RowView>, n: nat, i: int)
    requires
        0 <= i < n <= rows.len(),
    ensures
        holds_text(rows_json(rows, n), row_json(rows[i])),
    decreases n,
{
    let before = rows_json(rows, (n - 1) as nat);
    let last = row_json(rows[n - 1]);
    let end = if n == rows.len() {
        "\n"@
    } else {
        ",\n"@
    };
    assert(rows_json(rows, n) == before + last + end);
    if i == n - 1 {
        lemma_stands(before, last, end);
    } else {
        lemma_row_in_list(rows, (n - 1) as nat, i);
        lemma_within(Seq::empty(), before, last + end, row_json(rows[i]));
        assert(rows_json(rows, n) =~= Seq::<char>::empty() + before + (last + end));
    }
}

} // verus!
