//! Corpora, statistics, tallies, gates and reports, on worked figures.

use mimic::audio::WavAudio;
use mimic::corpus::{
    expand_templates, find_corpus, read_corpus, replay_stream, split_lines_by_fifth, Corpus,
};
use mimic::double::{mean, Double};
use mimic::eval::{
    boundary_stats, check_gates, is_swept, modes, to_json, to_markdown, write_notes,
    BoundaryStats, ComposeMode, EvalReport, External, ModeRow, ReplayReport, ReplayTally,
    RowTally,
};
use mimic::figures::{mean_signed, show_fixed, show_plain, Signed};
use mimic::gates::{measure_ratio, read_gates, sum_codec, Threshold};
use mimic::numeral::{read_double, Reading};
use mimic::report::ComposeReport;
use mimic::stats::{find_greatest, percentile, value_at_rank};
use mimic::units::UnitLevel;

fn lines(v: &[&str]) -> Vec<String> {
    v.iter().map(|l| l.to_string()).collect()
}

fn d(x: f64) -> Double {
    Double::of_bits(x.to_bits())
}

fn signed(x: f64) -> Signed {
    Signed { negative: x < 0.0, size: d(x.abs()) }
}

fn value(x: f64) -> Reading {
    Reading::Value(Signed { negative: x.is_sign_negative(), size: d(x.abs()) })
}

// ---- corpora ----

#[test]
fn corpora_skip_blanks_and_comments() {
    let c = read_corpus("mini", "  one two \n\n# three\nfour\r\n");
    assert_eq!(c.name, "mini");
    assert_eq!(c.utterances, lines(&["one two", "four"]));
    let all = vec![c, read_corpus("other", "x")];
    assert_eq!(find_corpus(&all, "other"), 1);
    assert_eq!(find_corpus(&all, "none"), 2);
}

#[test]
fn every_fifth_line_is_held_back() {
    let all = lines(&["a", "b", "c", "d", "e", "f", "g"]);
    assert_eq!(split_lines_by_fifth(&all, false), lines(&["a", "b", "c", "d", "f", "g"]));
    assert_eq!(split_lines_by_fifth(&all, true), lines(&["e"]));
}

#[test]
fn templates_expand_to_the_same_numbers_every_time() {
    let out = expand_templates(&lines(&["Code {n}, now!"]));
    assert_eq!(
        out,
        lines(&[
            "code 683469 now",
            "code 6540248 now",
            "code 09949 now",
            "code 450762 now",
            "code 546886 now",
            "code 307 now",
            "code 445 now",
            "code 1577296 now",
            "code 5533330 now",
            "code 551895 now",
            "code 4217 now",
            "code 87606 now",
            "code 3608 now",
        ])
    );
}

#[test]
fn replays_draw_the_same_requests_every_time() {
    let support: Vec<String> = (0..12).map(|i| format!("h{i}")).collect();
    let corpora = vec![
        Corpus { name: "long_tail".to_string(), utterances: lines(&["t0", "t1"]) },
        Corpus { name: "support_repetitive".to_string(), utterances: support },
    ];
    assert_eq!(
        replay_stream(&corpora, 12),
        lines(&["h11", "h3", "h9", "h4", "h6", "h11", "h0", "h2", "h9", "h11", "h3", "h8"])
    );
    assert!(replay_stream(&Vec::new(), 5).is_empty());
}

// ---- statistics ----

#[test]
fn percentiles_are_nearest_ranks() {
    let xs = vec![40, 10, 30, 20];
    assert_eq!(percentile(&xs, 0), 10);
    assert_eq!(percentile(&xs, 50), 30);
    assert_eq!(percentile(&xs, 90), 40);
    assert_eq!(percentile(&xs, 100), 40);
    assert_eq!(percentile(&Vec::new(), 50), 0);
    assert_eq!(value_at_rank(&vec![5, 5, 1], 2), 5);
    assert_eq!(find_greatest(&xs), 40);
    assert_eq!(find_greatest(&Vec::new()), 0);
}

#[test]
fn averages() {
    assert_eq!(mean_signed(&Vec::new()), None);
    assert_eq!(mean_signed(&vec![signed(0.9), signed(1.0)]), Some(signed((0.9 + 1.0) / 2.0)));
    assert_eq!(mean_signed(&vec![signed(-0.3), signed(0.1)]), Some(signed((-0.3 + 0.1) / 2.0)));
    assert_eq!(mean(&vec![d(0.1), d(0.2), d(0.3)]), d((0.1 + 0.2 + 0.3) / 3.0));
    assert_eq!(mean(&Vec::new()), d(0.0));
}

#[test]
fn boundary_statistics() {
    let s = boundary_stats(2, &vec![3, 1, 2], &vec![10, 30, 20]);
    assert_eq!(
        s,
        BoundaryStats { clips: 2, boundaries: 3, median: 2, p90: 3, max: 3, baseline_median: 20 }
    );
}

// ---- numerals ----

#[test]
fn numerals_are_read() {
    for text in [
        "20",
        "-0.5",
        "+7",
        ".25",
        "3.",
        "1e3",
        "1E-3",
        "0.1",
        "0.95",
        "81.5",
        "0.30000000000000004",
        "0.96000000000000001",
        "0.1234567890123456789012345678901234567890",
        "9007199254740993",
        "9007199254740992.9999999999999999999999999",
        "123456789012345678901234567890",
        "1e22",
        "1e23",
        "1.7976931348623157e308",
        "1.7976931348623159e308",
        "1e400",
        "-1e99999999999999999999999999999999",
        "2.2250738585072011e-308",
        "4.9e-324",
        "2.5e-324",
        "2.4e-324",
        "1e-400",
        "-1e-99999999999999999999999999999999",
        "0e999999999999999999999999999999999999",
        "000.0001e4",
        "inf",
        "-Infinity",
    ] {
        let want: f64 = text.parse().unwrap();
        assert_eq!(read_double(text), value(want), "{text}");
    }
    assert_eq!(read_double("NaN"), Reading::Unknown);
    for text in ["", "1.2.3", "x", ".", "e5", "1e", "1e+", "--1", "1 2", "0x10", "infin"] {
        assert!(text.parse::<f64>().is_err());
        assert_eq!(read_double(text), Reading::Malformed, "{text}");
    }
}

#[test]
fn numerals_are_written() {
    for x in [12.345678, 12.0, 0.999999, 6.25, 6.35, 2.5, 0.5, 0.0, 1e-9, 0.125, 91.234567, 1e30] {
        assert_eq!(show_fixed(d(x), 0), format!("{x:.0}"));
        assert_eq!(show_fixed(d(x), 1), format!("{x:.1}"));
        assert_eq!(show_fixed(d(x), 4), format!("{x:.4}"));
        assert_eq!(signed(-x - 1.0).show(2), format!("{:.2}", -x - 1.0));
    }
    assert_eq!(show_fixed(d(f64::INFINITY), 1), "inf");
    for x in [0.95, 10.0, 0.25, 440.0, 0.1, 1.0 / 3.0, 2.0f64.sqrt(), 123456.789, 0.30000000000000004] {
        assert_eq!(show_plain(d(x)), format!("{x}"));
        assert_eq!(signed(-x).show_plain(), format!("-{x}"));
    }
}

// ---- tallies ----

fn report(total: usize, generated: usize, seam: f64) -> ComposeReport {
    let mut r = ComposeReport::empty();
    r.total_chars = total;
    r.generated_chars = generated;
    r.cached_chars = total - generated;
    r.hits.push(("x".to_string(), UnitLevel::Word));
    r.mean_seam_discontinuity = d(seam);
    r
}

#[test]
fn shares_of_cached_characters() {
    assert_eq!(report(8, 2, 0.0).cache_hit_pct(), d(75.0));
    assert_eq!(report(7, 2, 0.0).cache_hit_pct(), d(100.0 * 5.0 / 7.0));
    assert_eq!(ComposeReport::empty().cache_hit_pct(), d(0.0));
}

#[test]
fn rows_add_up() {
    let second = WavAudio::new(vec![0; 16_000], 16_000);
    let mut t = RowTally::new();
    t.add(&report(10, 0, 100.0), &second, 250_000_000);
    t.add(&report(10, 5, 300.0), &second, 250_000_000);
    assert!(RowTally::is_measured(ComposeMode::ViterbiTokens, &report(10, 0, 0.0)));
    assert!(!RowTally::is_measured(ComposeMode::ViterbiTokens, &report(10, 1, 0.0)));
    assert!(!RowTally::is_measured(ComposeMode::ViterbiPcm, &report(10, 0, 0.0)));
    t.measure(signed(0.96), signed(0.99));
    let all = modes();
    let row = t.row(&all[3], "mini", 3, 40, (100, 1_500));
    assert_eq!(row.mode, "p4-current");
    assert_eq!(row.eval_utterances, 2);
    assert_eq!(row.cache_hit_pct, d(75.0));
    assert_eq!(row.rtf, d(0.25));
    assert_eq!(row.mean_seam, d(200.0));
    assert_eq!(row.unresolved_words, 3);
    assert_eq!(row.units_total, 40);
    assert_eq!(row.stoi, Some(signed(0.96)));
    assert_eq!(row.voice_fidelity, Some(signed(0.99)));
    assert_eq!((row.token_bytes, row.wav_bytes), (100, 1_500));
    let plain = t.row(&all[1], "mini", 0, 0, (100, 1_500));
    assert_eq!(plain.mode, "p1-legacy");
    assert_eq!(plain.stoi, None);
    assert_eq!((plain.token_bytes, plain.wav_bytes), (0, 0));
}

#[test]
fn replays_add_up() {
    let mut t = ReplayTally::new();
    t.add(&report(10, 10, 0.0), "hello world", 5_000_000, 1_000_000);
    t.add(&report(10, 0, 0.0), "hello world", 3_000_000, 2_000_000);
    let r = t.report("elevenlabs");
    assert_eq!(r.requests, 2);
    assert_eq!(r.coverage_pct, d(50.0));
    assert_eq!(r.p50, 5_000_000);
    assert_eq!(r.p99, 5_000_000);
    assert_eq!(r.mock_direct_p99, 2_000_000);
    // 250 ms and 8 ms for each of ten characters
    assert_eq!(r.simulated_cloud_p99, 330_000_000);
    assert_eq!(r.est_cost, d(10.0 / 1e6 * 300.0));
    assert_eq!(r.always_cloud_cost, d(20.0 / 1e6 * 300.0));
    assert_eq!(r.provider_profile, "elevenlabs");
}

#[test]
fn four_modes_are_compared() {
    let names: Vec<String> = modes().iter().map(|m| m.name.clone()).collect();
    assert_eq!(names, lines(&["v1-baseline", "p1-legacy", "p3-legacy", "p4-current"]));
    let composers: Vec<ComposeMode> = modes().iter().map(|m| m.compose_mode).collect();
    assert_eq!(
        composers,
        vec![
            ComposeMode::Greedy,
            ComposeMode::Greedy,
            ComposeMode::ViterbiPcm,
            ComposeMode::ViterbiTokens
        ]
    );
    assert!(!modes()[0].with_dictionary && modes()[1].with_dictionary);
    assert!(!is_swept("alignment_templates"));
    assert!(is_swept("long_tail"));
}

// ---- gates ----

fn row(mode: &str, corpus: &str) -> ModeRow {
    ModeRow {
        mode: mode.to_string(),
        corpus: corpus.to_string(),
        eval_utterances: 2,
        cache_hit_pct: d(85.0),
        generated_chars: 3,
        total_chars: 20,
        rtf: d(0.123456),
        mean_seam: d(0.012345678),
        unresolved_words: 1,
        units_total: 40,
        stoi: Some(signed(0.96)),
        voice_fidelity: Some(signed(0.97)),
        token_bytes: 100,
        wav_bytes: 1_250,
    }
}

fn good_report() -> EvalReport {
    EvalReport {
        rows: vec![row("p4-current", "long_tail")],
        boundary: BoundaryStats {
            clips: 26,
            boundaries: 52,
            median: 5_250_000,
            p90: 11_000_000,
            max: 12_345_678,
            baseline_median: 30_000_000,
        },
        replay: Some(ReplayReport {
            requests: 300,
            coverage_pct: d(91.234567),
            generated_chars: 10,
            total_chars: 100,
            p50: 1_000_000,
            p99: 2_500_000,
            mock_direct_p99: 1_500_000,
            simulated_cloud_p99: 450_000_000,
            est_cost: d(0.003),
            always_cloud_cost: d(0.03),
            provider_profile: "elevenlabs".to_string(),
        }),
        notes: lines(&["one", "two"]),
    }
}

#[test]
fn good_reports_pass() {
    let g = check_gates(&good_report(), None);
    assert!(g.pass, "{:?}", g.messages);
    assert_eq!(
        g.messages,
        lines(&[
            "boundary clips: 26, boundaries measured: 52",
            "boundary median: 5.25 ms (gate \u{2264} 20 ms; v1-baseline median 30.00 ms)",
            "boundary p90: 11.00 ms (gate \u{2264} 60 ms), max 12.35 ms",
            "replay: 300 requests, coverage 91.2% (gate \u{2265} 80%), p99 2.5 ms vs simulated-cloud p99 450 ms",
            "long-tail coverage (p4-current): 85.0% (gate \u{2265} 81.5%; v1-baseline row shows the pre-P3 number)",
            "codec storage: 100 B tokens vs 1250 B wav-equivalent = 12.5\u{d7} (gate \u{2265} 10\u{d7})",
            "codec STOI (fully-cached): 0.960 (gate \u{2265} 0.95)",
            "voice fidelity (fully-cached): 0.970 (gate \u{2265} 0.9)",
            "GATE: PASS",
        ])
    );
}

#[test]
fn each_gate_can_fail() {
    let fails = |r: &EvalReport, file: Option<&str>, line: &str| {
        let g = check_gates(r, file);
        assert!(!g.pass);
        assert!(g.messages.iter().any(|m| m == line), "{line}: {:?}", g.messages);
        assert_eq!(g.messages.last().map(|m| m.as_str()), Some("GATE: FAIL"));
    };
    let good = good_report();
    fails(&good, Some("boundary_median_ms_max = 5"), "GATE: FAIL");
    fails(&good, Some("boundary_p90_ms_max = 10"), "GATE: FAIL");
    fails(
        &good,
        Some("# stricter\nreplay_coverage_min_pct = 95\n"),
        "replay gate FAILED (coverage or latency)",
    );
    fails(&good, Some("longtail_coverage_min_pct=90"), "long-tail coverage gate FAILED");
    fails(&good, Some("storage_ratio_min = 13"), "codec storage gate FAILED");
    fails(&good, Some("stoi_min = 0.97"), "codec STOI gate FAILED");
    fails(&good, Some("voice_fidelity_min = 0.98"), "voice fidelity gate FAILED");

    let mut empty = good_report();
    empty.boundary.boundaries = 0;
    fails(&empty, None, "no boundaries measured \u{2014} boundary gate cannot pass");
    let mut unplayed = good_report();
    unplayed.replay = None;
    fails(&unplayed, None, "replay missing \u{2014} replay gate cannot pass");
    let mut untailed = good_report();
    untailed.rows[0].corpus = "mini".to_string();
    fails(&untailed, None, "p4-current long_tail row missing \u{2014} gate cannot pass");
}

#[test]
fn unmeasured_fidelity_is_skipped() {
    let mut r = good_report();
    r.rows[0].stoi = None;
    r.rows[0].voice_fidelity = None;
    let g = check_gates(&r, None);
    assert!(g.pass);
    assert!(g
        .messages
        .contains(&"codec STOI: no fully-cached utterances \u{2014} skipped".to_string()));
    assert!(g
        .messages
        .contains(&"voice fidelity: no fully-cached utterances \u{2014} skipped".to_string()));
}

#[test]
fn gates_are_read_from_their_file() {
    let g = read_gates(Some("stoi_min = x\n stoi_max = 1\nvoice_fidelity_min = 0.5\n"));
    assert_eq!(g.min_stoi, Threshold::Unknown);
    assert_eq!(g.min_voice, Threshold::Number(signed(0.5)));
    assert_eq!(g.max_median, read_gates(None).max_median);
    let g = read_gates(Some("stoi_min = -inf\nboundary_p90_ms_max = Infinity"));
    assert_eq!(g.min_stoi, Threshold::Number(signed(f64::NEG_INFINITY)));
    assert_eq!(g.max_p90, Threshold::Number(signed(f64::INFINITY)));
}

#[test]
fn thresholds_are_as_fine_as_they_are_written() {
    // the mean fidelity is 0.96 exactly
    for (threshold, told, passes) in [
        ("0.9600000001", "0.9600000001", false),
        ("0.9599999999", "0.9599999999", true),
        // one unit in the last place above and below the mean
        ("0.9600000000000001", "0.9600000000000001", false),
        ("0.9599999999999999", "0.9599999999999999", true),
        // what is finer than a double is the mean itself
        ("0.96000000000000001", "0.96", true),
        ("inf", "inf", false),
        ("-inf", "-inf", true),
        ("nan", "NaN", true),
    ] {
        let g = check_gates(&good_report(), Some(&format!("stoi_min = {threshold}")));
        let line = format!("codec STOI (fully-cached): 0.960 (gate \u{2265} {told})");
        assert!(g.messages.contains(&line), "{line}: {:?}", g.messages);
        assert_eq!(g.pass, passes);
    }
}

#[test]
fn codec_figures_are_summed_over_the_current_rows() {
    let rows = vec![row("p4-current", "a"), row("p1-legacy", "a"), row("p4-current", "b")];
    let sums = sum_codec(&rows);
    assert_eq!(sums.rows, 2);
    assert_eq!((sums.token_bytes, sums.wav_bytes), (200, 2_500));
    assert_eq!(measure_ratio(&sums), d(12.5));
    assert_eq!(sums.stoi, vec![signed(0.96), signed(0.96)]);
}

// ---- reports ----

#[test]
fn markdown_reports() {
    assert_eq!(
        to_markdown(&good_report()),
        "# Mimic eval report\n\n## Coverage & compose sweeps\n\n| mode | corpus | eval utts | cache hit % | generated chars | RTF | seam | unresolved words | units |\n|---|---|---|---|---|---|---|---|---|\n| p4-current | long_tail | 2 | 85.0 | 3 | 0.123 | 0.0123 | 1 | 40 |\n\n## Alignment gate (vs MockTts ground truth)\n\n- clips: 26, boundaries: 52\n- p1 median: **5.25 ms**, p90: 11.00 ms, max: 12.35 ms\n- v1-baseline median: 30.00 ms\n\n## Production-workload replay\n\n- requests: 300 (Zipf-ish: 75% head / 25% long tail)\n- coverage: **91.2%** (10 / 100 chars generated)\n- compose latency: p50 1.0 ms, p99 2.5 ms\n- provider-direct mock p99: 1.5 ms; simulated cloud p99: 450 ms\n- estimated cost: $0.0030 vs always-cloud $0.0300 (elevenlabs profile)\n\n## Codec-native cache (P4)\n\n- storage: 100 B tokens vs 1250 B wav-equivalent = **12.5\u{d7}**\n- STOI (fully-cached, native): 0.960\n- voice fidelity (fully-cached, native sig): 0.970\n\n## Notes\n\n- one\n- two\n"
    );
}

#[test]
fn json_reports() {
    assert_eq!(
        to_json(&good_report()),
        "{\n  \"rows\": [\n    {\"mode\": \"p4-current\", \"corpus\": \"long_tail\", \"eval_utterances\": 2, \"cache_hit_pct\": 85.00, \"generated_chars\": 3, \"total_chars\": 20, \"rtf\": 0.1235, \"mean_seam\": 0.01235, \"unresolved_words\": 1, \"units_total\": 40, \"stoi\": 0.9600, \"voice_fidelity\": 0.9700, \"token_bytes\": 100, \"wav_bytes\": 1250}\n  ],\n  \"boundary\": {\"clips\": 26, \"boundaries\": 52, \"median_ms\": 5.250, \"p90_ms\": 11.000, \"max_ms\": 12.346, \"baseline_median_ms\": 30.000},\n  \"replay\": {\"requests\": 300, \"coverage_pct\": 91.23, \"generated_chars\": 10, \"total_chars\": 100, \"p50_ms\": 1.000, \"p99_ms\": 2.500, \"mock_direct_p99_ms\": 1.500, \"simulated_cloud_p99_ms\": 450.0, \"est_cost_usd\": 0.003000, \"always_cloud_cost_usd\": 0.030000, \"provider_profile\": \"elevenlabs\"}\n}\n"
    );
}

#[test]
fn empty_reports() {
    assert_eq!(
        to_json(&EvalReport::new()),
        "{\n  \"rows\": [\n  ],\n  \"boundary\": {\"clips\": 0, \"boundaries\": 0, \"median_ms\": 0.000, \"p90_ms\": 0.000, \"max_ms\": 0.000, \"baseline_median_ms\": 0.000}\n}\n"
    );
}

#[test]
fn skipped_work_is_noted() {
    assert_eq!(
        write_notes(false, false, &External::Missing),
        lines(&[
            "alignment_templates corpus not found; boundary gate skipped",
            "support_repetitive corpus not found; replay skipped",
            "MIMIC_EVAL_EXTERNAL=1 but scripts/eval_external.py missing",
        ])
    );
    assert_eq!(
        write_notes(true, true, &External::Output("  utmos 4.1\n".to_string())),
        lines(&["external adapter: utmos 4.1"])
    );
    assert_eq!(
        write_notes(true, true, &External::Failed("no python".to_string())),
        lines(&["external adapter failed to run: no python"])
    );
    assert!(write_notes(true, true, &External::Skipped)[0].contains("SKIPPED"));
}
