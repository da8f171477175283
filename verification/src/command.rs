//! What the command line is asked to do, and what it says when it is done.

use crate::audio::{duration, WavAudio, WavView};
use crate::cli::{
    args_from, flags_are_read_in_turn, flags_set_their_own_value, no_args, opt_string, parse_args,
    Args, ArgsView,
};
use crate::figures::{fixed, show_fixed};
use crate::pipeline::IngestReport;
use crate::report::{percent, ComposeReport, ReportView};
use crate::speak::copy_texts;
use crate::store::{matching, property, MimicStore, NodeId, NodeView, StoreStats};
use crate::text::{dec, decimal, same_text, texts};
use crate::units::{level_name, normalize, normalized, tokenize, tokens, UnitLevel};
use vstd::prelude::*;
use vstd::string::*;

verus! {

// ---- commands ----

/// What the program is asked to do, with every default filled in.
#[derive(Debug)]
pub enum Command {
    Ingest { db: String, text: String, wav: Option<String>, voice: String },
    Compose { db: String, text: String, out: String, voice: String },
    Lookup { db: String, text: String },
    Stats { db: String },
    Serve { db: String, addr: String },
    Eval { corpora: String, gates: String, out: String, gate: bool },
}

/// The value of a command.
pub enum CommandView {
    Ingest { db: Seq<char>, text: Seq<char>, wav: Option<Seq<char>>, voice: Seq<char> },
    Compose { db: Seq<char>, text: Seq<char>, out: Seq<char>, voice: Seq<char> },
    Lookup { db: Seq<char>, text: Seq<char> },
    Stats { db: Seq<char> },
    Serve { db: Seq<char>, addr: Seq<char> },
    Eval { corpora: Seq<char>, gates: Seq<char>, out: Seq<char>, gate: bool },
}

impl View for Command {
    type V = CommandView;

    open spec fn view(&self) -> CommandView {
        match self {
            Command::Ingest { db, text, wav, voice } => CommandView::Ingest {
                db: db@,
                text: text@,
                wav: opt_string(*wav),
                voice: voice@,
            },
            Command::Compose { db, text, out, voice } => CommandView::Compose {
                db: db@,
                text: text@,
                out: out@,
                voice: voice@,
            },
            Command::Lookup { db, text } => CommandView::Lookup { db: db@, text: text@ },
            Command::Stats { db } => CommandView::Stats { db: db@ },
            Command::Serve { db, addr } => CommandView::Serve { db: db@, addr: addr@ },
            Command::Eval { corpora, gates, out, gate } => CommandView::Eval {
                corpora: corpora@,
                gates: gates@,
                out: out@,
                gate: *gate,
            },
        }
    }
}

/// Why nothing is done.
#[derive(Debug)]
pub enum Refusal {
    /// There is no such command: the usage is shown.
    Usage,
    /// Something is missing or unknown.
    Message(String),
}

/// The value of a refusal.
pub enum RefusalView {
    Usage,
    Message(Seq<char>),
}

impl View for Refusal {
    type V = RefusalView;

    open spec fn view(&self) -> RefusalView {
        match self {
            Refusal::Usage => RefusalView::Usage,
            Refusal::Message(m) => RefusalView::Message(m@),
        }
    }
}

/// The value of a command, or of the refusal of one.
pub open spec fn command_view(r: core::result::Result<Command, Refusal>) -> core::result::Result<
    CommandView,
    RefusalView,
> {
    match r {
        Ok(c) => Ok(c@),
        Err(e) => Err(e@),
    }
}

/// A value, or what stands for it where it is not given.
pub open spec fn given_or(value: Option<Seq<char>>, default: Seq<char>) -> Seq<char> {
    match value {
        Some(v) => v,
        None => default,
    }
}

/// The refusal for want of a text.
pub open spec fn no_text() -> RefusalView {
    RefusalView::Message("missing --text; try again with --text TEXT"@)
}

/// The refusal for want of a database.
pub open spec fn no_database() -> RefusalView {
    RefusalView::Message("missing --db PATH; try again with --db PATH"@)
}

/// The command with a name and arguments. A missing text is reported before a
/// missing database.
pub open spec fn command_of(name: Seq<char>, a: ArgsView) -> core::result::Result<
    CommandView,
    RefusalView,
> {
    let voice = given_or(a.voice, "default"@);
    let speaks = name == "ingest"@ || name == "compose"@ || name == "lookup"@;
    if speaks && a.text is None {
        Err(no_text())
    } else if (speaks || name == "stats"@ || name == "serve"@) && a.db is None {
        Err(no_database())
    } else if name == "ingest"@ {
        Ok(CommandView::Ingest { db: a.db->Some_0, text: a.text->Some_0, wav: a.wav, voice })
    } else if name == "compose"@ {
        Ok(
            CommandView::Compose {
                db: a.db->Some_0,
                text: a.text->Some_0,
                out: given_or(a.out, "mimic_out.wav"@),
                voice,
            },
        )
    } else if name == "lookup"@ {
        Ok(CommandView::Lookup { db: a.db->Some_0, text: a.text->Some_0 })
    } else if name == "stats"@ {
        Ok(CommandView::Stats { db: a.db->Some_0 })
    } else if name == "serve"@ {
        Ok(CommandView::Serve { db: a.db->Some_0, addr: given_or(a.addr, "127.0.0.1:8787"@) })
    } else if name == "eval"@ {
        Ok(
            CommandView::Eval {
                corpora: given_or(a.corpora, "assets/corpora"@),
                gates: given_or(a.gates, "eval/gates.txt"@),
                out: given_or(a.out, "eval/reports"@),
                gate: a.gate,
            },
        )
    } else {
        Err(RefusalView::Usage)
    }
}

/// What the program is asked to do: the first argument names the command, and
/// flags follow. Flags are read before the command is looked at.
pub open spec fn commanded(argv: Seq<Seq<char>>) -> core::result::Result<CommandView, RefusalView> {
    if argv.len() == 0 {
        Err(RefusalView::Usage)
    } else {
        match args_from(no_args(), argv.skip(1)) {
            Err(m) => Err(RefusalView::Message(m)),
            Ok(a) => command_of(argv[0], a),
        }
    }
}

fn take_or(value: Option<String>, default: &str) -> (r: String)
    ensures
        r@ == given_or(opt_string(value), default@),
{
    match value {
        Some(v) => v,
        None => default.to_owned(),
    }
}

fn refuse(message: &str) -> (r: Refusal)
    ensures
        r@ == RefusalView::Message(message@),
{
    Refusal::Message(message.to_owned())
}

fn choose_command(name: &str, a: Args) -> (r: core::result::Result<Command, Refusal>)
    ensures
        command_view(r) == command_of(name@, a@),
{
    let ingest = same_text(name, "ingest");
    let compose = same_text(name, "compose");
    let lookup = same_text(name, "lookup");
    let stats = same_text(name, "stats");
    let serve = same_text(name, "serve");
    let eval = same_text(name, "eval");
    if eval {
        proof {
            reveal_strlit("eval");
            reveal_strlit("ingest");
            reveal_strlit("compose");
            reveal_strlit("lookup");
            reveal_strlit("stats");
            reveal_strlit("serve");
            assert("eval"@.len() == 4);
        }
        return Ok(
            Command::Eval {
                corpora: take_or(a.corpora, "assets/corpora"),
                gates: take_or(a.gates, "eval/gates.txt"),
                out: take_or(a.out, "eval/reports"),
                gate: a.gate,
            },
        );
    }
    if !(ingest || compose || lookup || stats || serve) {
        return Err(Refusal::Usage);
    }
    let speaks = ingest || compose || lookup;
    let text = match a.text {
        Some(t) => t,
        None => {
            if speaks {
                return Err(refuse("missing --text; try again with --text TEXT"));
            }
            String::new()
        },
    };
    let db = match a.db {
        Some(d) => d,
        None => {
            return Err(refuse("missing --db PATH; try again with --db PATH"));
        },
    };
    if ingest {
        Ok(Command::Ingest { db, text, wav: a.wav, voice: take_or(a.voice, "default") })
    } else if compose {
        Ok(
            Command::Compose {
                db,
                text,
                out: take_or(a.out, "mimic_out.wav"),
                voice: take_or(a.voice, "default"),
            },
        )
    } else if lookup {
        Ok(Command::Lookup { db, text })
    } else if stats {
        Ok(Command::Stats { db })
    } else {
        Ok(Command::Serve { db, addr: take_or(a.addr, "127.0.0.1:8787") })
    }
}

/// What the program is asked to do by its arguments.
pub fn read_command(argv: &Vec<String>) -> (r: core::result::Result<Command, Refusal>)
    ensures
        command_view(r) == commanded(texts(argv@)),
{
    let n: usize = argv.len();
    if n == 0 {
        return Err(Refusal::Usage);
    }
    let rest = copy_texts(argv, 1, n);
    assert(texts(rest@) =~= texts(argv@).skip(1));
    match parse_args(&rest) {
        Err(m) => Err(Refusal::Message(m)),
        Ok(a) => choose_command(argv[0].as_str(), a),
    }
}

/// What is said of an evaluation whose gates count and do not hold.
pub open spec fn gate_problem(gate: bool, pass: bool) -> Option<Seq<char>> {
    if gate && !pass {
        Some(
            "P1 gate failed; inspect the report, resolve each failed metric, and try again"@,
        )
    } else {
        None
    }
}

/// What is said of an evaluation whose gates count and do not hold.
pub fn describe_gate(gate: bool, pass: bool) -> (r: Option<String>)
    ensures
        opt_string(r) == gate_problem(gate, pass),
{
    if gate && !pass {
        Some(
            "P1 gate failed; inspect the report, resolve each failed metric, and try again".to_owned(),
        )
    } else {
        None
    }
}

// ---- what is said ----

/// How long audio is, as it is said: in whole milliseconds, the even number in
/// the middle of two. Without a rate, audio has no length, or no end to it.
pub open spec fn length_text(audio: WavView) -> Seq<char> {
    if audio.sample_rate > 0 {
        fixed(duration(audio.samples.len(), audio.sample_rate), 0)
    } else if audio.samples.len() == 0 {
        "NaN"@
    } else {
        "inf"@
    }
}

/// What is said of an ingest.
pub open spec fn ingest_line(
    text: Seq<char>,
    audio: WavView,
    phrases: usize,
    words: usize,
    phonemes: usize,
    unresolved: nat,
) -> Seq<char> {
    "ingested \""@ + normalized(text) + "\" ("@ + length_text(audio) + " ms): "@ + dec(
        phrases as nat,
    ) + " phrase + "@ + dec(words as nat) + " word + "@ + dec(phonemes as nat)
        + " phoneme units ("@ + dec(unresolved) + " unresolved words)"@
}

fn append_number(out: &mut String, n: usize)
    ensures
        final(out)@ == old(out)@ + dec(n as nat),
{
    let d = decimal(n as u64);
    out.append(d.as_str());
}

fn append_length(out: &mut String, audio: &WavAudio)
    ensures
        final(out)@ == old(out)@ + length_text(audio@),
{
    let rate: u32 = audio.sample_rate;
    let n: usize = audio.samples.len();
    if rate > 0 {
        out.append(show_fixed(audio.duration_ms(), 0).as_str());
    } else if n == 0 {
        out.append("NaN");
    } else {
        out.append("inf");
    }
}

/// What is said of an ingest.
pub fn describe_ingest(text: &str, audio: &WavAudio, report: &IngestReport) -> (r: String)
    ensures
        r@ == ingest_line(
            text@,
            audio@,
            report.phrase_units,
            report.word_units,
            report.phoneme_units,
            report.unresolved_words@.len(),
        ),
{
    let norm = normalize(text);
    let mut out = "ingested \"".to_owned();
    out.append(norm.as_str());
    out.append("\" (");
    append_length(&mut out, audio);
    out.append(" ms): ");
    append_number(&mut out, report.phrase_units);
    out.append(" phrase + ");
    append_number(&mut out, report.word_units);
    out.append(" word + ");
    append_number(&mut out, report.phoneme_units);
    out.append(" phoneme units (");
    append_number(&mut out, report.unresolved_words.len());
    out.append(" unresolved words)");
    out
}

/// What is said of a unit that a composed text was made of.
pub open spec fn hit_line(hit: (Seq<char>, UnitLevel)) -> Seq<char> {
    "  ["@ + level_name(hit.1) + "] "@ + hit.0
}

/// What is said of the provider: what it was asked for, or that it was not.
pub open spec fn call_lines(calls: Seq<Seq<char>>) -> Seq<Seq<char>> {
    if calls.len() == 0 {
        seq!["tts calls: none \u{2014} fully served from cache"@]
    } else {
        seq!["tts calls ("@ + dec(calls.len()) + "):"@] + Seq::new(
            calls.len(),
            |i: int| "  \""@ + calls[i] + "\""@,
        )
    }
}

/// What is said of a composed text: how much of it was cached, what it was made
/// of, what was asked for, how smooth it is, and where it was written.
pub open spec fn compose_lines(
    text: Seq<char>,
    report: ReportView,
    out: Seq<char>,
    audio: WavView,
) -> Seq<Seq<char>> {
    seq![
        "composed \""@ + normalized(text) + "\""@,
        "cache hit: "@ + fixed(percent(report.cached_chars, report.total_chars), 1) + "% ("@ + dec(report.cached_chars) + " cached / "@ + dec(report.generated_chars)
            + " generated of "@ + dec(report.total_chars) + " chars)"@,
    ] + Seq::new(report.hits.len(), |i: int| hit_line(report.hits[i])) + call_lines(
        report.tts_calls,
    ) + seq![
        "seam discontinuity: "@ + fixed(report.mean_seam_discontinuity, 4)
            + " (lower is smoother)"@,
        "wrote "@ + out + " ("@ + length_text(audio) + " ms, "@ + dec(audio.samples.len())
            + " samples)"@,
    ]
}

fn describe_hit(text: &str, level: UnitLevel) -> (r: String)
    ensures
        r@ == hit_line((text@, level)),
{
    let mut out = "  [".to_owned();
    out.append(level.as_str());
    out.append("] ");
    out.append(text);
    out
}

fn describe_calls(calls: &Vec<String>) -> (r: Vec<String>)
    ensures
        texts(r@) == call_lines(texts(calls@)),
{
    let n: usize = calls.len();
    let mut out: Vec<String> = Vec::new();
    if n == 0 {
        out.push("tts calls: none \u{2014} fully served from cache".to_owned());
        assert(texts(out@) =~= call_lines(texts(calls@)));
        return out;
    }
    let mut head = "tts calls (".to_owned();
    append_number(&mut head, n);
    head.append("):");
    out.push(head);
    let ghost all = call_lines(texts(calls@));
    let mut i: usize = 0;
    while i < n
        invariant
            0 < n == calls@.len(),
            i <= n,
            all == call_lines(texts(calls@)),
            out@.len() == i + 1,
            forall|k: int| 0 <= k <= i ==> (#[trigger] out@[k])@ == all[k],
        decreases n - i,
    {
        let mut line = "  \"".to_owned();
        line.append(calls[i].as_str());
        line.append("\"");
        assert(all[i + 1] == "  \""@ + texts(calls@)[i as int] + "\""@);
        out.push(line);
        i += 1;
    }
    assert(texts(out@) =~= all);
    out
}

fn append_lines(out: &mut Vec<String>, more: Vec<String>)
    ensures
        texts(final(out)@) == texts(old(out)@) + texts(more@),
{
    let ghost before = texts(out@);
    let n: usize = more.len();
    let mut i: usize = 0;
    assert(texts(out@) =~= before + texts(more@).take(0));
    while i < n
        invariant
            n == more@.len(),
            i <= n,
            texts(out@) == before + texts(more@).take(i as int),
        decreases n - i,
    {
        let ghost held = texts(out@);
        out.push(more[i].as_str().to_owned());
        i += 1;
        assert(texts(out@) =~= held.push(texts(more@)[i - 1]));
        assert(texts(out@) =~= before + texts(more@).take(i as int));
    }
    assert(texts(more@).take(n as int) =~= texts(more@));
}

/// What is said of a composed text, line by line.
pub fn describe_compose(text: &str, report: &ComposeReport, out: &str, audio: &WavAudio) -> (r: Vec<
    String,
>)
    ensures
        texts(r@) == compose_lines(text@, report@, out@, audio@),
{
    let norm = normalize(text);
    let mut first = "composed \"".to_owned();
    first.append(norm.as_str());
    first.append("\"");
    let share = show_fixed(report.cache_hit_pct(), 1);
    let mut second = "cache hit: ".to_owned();
    second.append(share.as_str());
    second.append("% (");
    append_number(&mut second, report.cached_chars);
    second.append(" cached / ");
    append_number(&mut second, report.generated_chars);
    second.append(" generated of ");
    append_number(&mut second, report.total_chars);
    second.append(" chars)");
    let mut lines: Vec<String> = Vec::new();
    lines.push(first);
    lines.push(second);
    let ghost head = texts(lines@);
    let ghost hits = Seq::new(report@.hits.len(), |i: int| hit_line(report@.hits[i]));
    let n: usize = report.hits.len();
    let mut i: usize = 0;
    assert(texts(lines@) =~= head + hits.take(0));
    while i < n
        invariant
            n == report.hits@.len(),
            i <= n,
            hits == Seq::new(report@.hits.len(), |i: int| hit_line(report@.hits[i])),
            texts(lines@) == head + hits.take(i as int),
        decreases n - i,
    {
        let ghost before = texts(lines@);
        let line = describe_hit(report.hits[i].0.as_str(), report.hits[i].1);
        assert(line@ == hits[i as int]);
        lines.push(line);
        i += 1;
        assert(texts(lines@) =~= before.push(hits[i - 1]));
        assert(texts(lines@) =~= head + hits.take(i as int));
    }
    assert(hits.take(n as int) =~= hits);
    append_lines(&mut lines, describe_calls(&report.tts_calls));
    let ghost middle = texts(lines@);
    let seam = show_fixed(report.mean_seam_discontinuity, 4);
    let mut smooth = "seam discontinuity: ".to_owned();
    smooth.append(seam.as_str());
    smooth.append(" (lower is smoother)");
    let mut wrote = "wrote ".to_owned();
    wrote.append(out);
    wrote.append(" (");
    append_length(&mut wrote, audio);
    wrote.append(" ms, ");
    append_number(&mut wrote, audio.len());
    wrote.append(" samples)");
    let ghost tail = seq![smooth@, wrote@];
    lines.push(smooth);
    lines.push(wrote);
    proof {
        let v = report@;
        assert(head =~= seq![
            "composed \""@ + normalized(text@) + "\""@,
            "cache hit: "@ + fixed(percent(v.cached_chars, v.total_chars), 1)
                + "% ("@ + dec(v.cached_chars) + " cached / "@ + dec(v.generated_chars)
                + " generated of "@ + dec(v.total_chars) + " chars)"@,
        ]);
        assert(middle == head + hits + call_lines(v.tts_calls));
        assert(texts(lines@) =~= middle + tail);
        assert(tail =~= seq![
            "seam discontinuity: "@ + fixed(v.mean_seam_discontinuity, 4)
                + " (lower is smoother)"@,
            "wrote "@ + out@ + " ("@ + length_text(audio@) + " ms, "@ + dec(audio@.samples.len())
                + " samples)"@,
        ]);
    }
    lines
}

/// What is said of the units found under a level and a text.
pub open spec fn unit_lines(nodes: Seq<NodeView>, level: UnitLevel, key: Seq<char>) -> Seq<
    Seq<char>,
> {
    let ids = matching(nodes, level, key);
    Seq::new(
        ids.len(),
        |i: int|
            "  ["@ + level_name(level) + "] node "@ + dec(ids[i].0 as nat) + " \""@ + key + "\" "@
                + given_or(property(nodes, ids[i], "duration_ms"@), Seq::empty()) + " ms -> "@
                + given_or(property(nodes, ids[i], "wav_path"@), Seq::empty()),
    )
}

/// What is said of the units found under the first `n` words.
pub open spec fn word_lines(nodes: Seq<NodeView>, words: Seq<Seq<char>>, n: nat) -> Seq<Seq<char>>
    decreases n,
{
    if n == 0 {
        Seq::empty()
    } else {
        word_lines(nodes, words, (n - 1) as nat) + unit_lines(nodes, UnitLevel::Word, words[n - 1])
    }
}

/// What is said of a text that is looked up: the phrase, then every word.
pub open spec fn lookup_lines(nodes: Seq<NodeView>, text: Seq<char>) -> Seq<Seq<char>> {
    let norm = normalized(text);
    let found = unit_lines(nodes, UnitLevel::Phrase, norm) + word_lines(
        nodes,
        tokens(text),
        tokens(text).len(),
    );
    if found.len() == 0 {
        seq!["no cached units for \""@ + norm + "\""@]
    } else {
        found
    }
}

fn take_or_empty(value: Option<String>) -> (r: String)
    ensures
        r@ == given_or(opt_string(value), Seq::empty()),
{
    match value {
        Some(v) => v,
        None => String::new(),
    }
}

fn describe_units(store: &MimicStore, level: UnitLevel, key: &str) -> (r: Vec<String>)
    ensures
        texts(r@) == unit_lines(store@.nodes, level, key@),
{
    let ids = store.lookup_exact(level, key);
    let ghost all = unit_lines(store@.nodes, level, key@);
    let n: usize = ids.len();
    let mut out: Vec<String> = Vec::new();
    let mut i: usize = 0;
    while i < n
        invariant
            n == ids@.len(),
            ids@ == matching(store@.nodes, level, key@),
            all == unit_lines(store@.nodes, level, key@),
            i <= n,
            out@.len() == i,
            forall|k: int| 0 <= k < i ==> (#[trigger] out@[k])@ == all[k],
        decreases n - i,
    {
        let id: NodeId = ids[i];
        let number = decimal(id.0);
        let dur = take_or_empty(store.prop_string(id, "duration_ms"));
        let wav = take_or_empty(store.prop_string(id, "wav_path"));
        let mut line = "  [".to_owned();
        line.append(level.as_str());
        line.append("] node ");
        line.append(number.as_str());
        line.append(" \"");
        line.append(key);
        line.append("\" ");
        line.append(dur.as_str());
        line.append(" ms -> ");
        line.append(wav.as_str());
        out.push(line);
        i += 1;
    }
    assert(texts(out@) =~= all);
    out
}

/// What is said of a text that is looked up.
pub fn describe_lookup(store: &MimicStore, text: &str) -> (r: Vec<String>)
    ensures
        texts(r@) == lookup_lines(store@.nodes, text@),
{
    let norm = normalize(text);
    let words = tokenize(text);
    let n: usize = words.len();
    let mut out = describe_units(store, UnitLevel::Phrase, norm.as_str());
    let ghost phrase = texts(out@);
    let mut i: usize = 0;
    assert(texts(out@) =~= phrase + word_lines(store@.nodes, tokens(text@), 0));
    while i < n
        invariant
            n == words@.len(),
            texts(words@) == tokens(text@),
            i <= n,
            texts(out@) == phrase + word_lines(store@.nodes, tokens(text@), i as nat),
        decreases n - i,
    {
        let ghost before = word_lines(store@.nodes, tokens(text@), i as nat);
        let more = describe_units(store, UnitLevel::Word, words[i].as_str());
        let ghost here = texts(more@);
        assert(words@[i as int]@ == texts(words@)[i as int]);
        append_lines(&mut out, more);
        i += 1;
        assert((phrase + before) + here =~= phrase + (before + here));
    }
    if out.len() == 0 {
        assert(texts(out@).len() == 0);
        let mut line = "no cached units for \"".to_owned();
        line.append(norm.as_str());
        line.append("\"");
        out.push(line);
        assert(texts(out@) =~= lookup_lines(store@.nodes, text@));
    }
    out
}

/// What is said of a cache and the graph that keeps it.
pub open spec fn stats_lines(s: StoreStats) -> Seq<Seq<char>> {
    seq![
        "units: "@ + dec(s.phrases as nat) + " phrases, "@ + dec(s.words as nat) + " words, "@
            + dec(s.morphemes as nat) + " morphemes, "@ + dec(s.phonemes as nat) + " phonemes"@,
        "graph: "@ + dec(s.total_nodes as nat) + " nodes, "@ + dec(s.total_edges as nat)
            + " edges"@,
    ]
}

/// What is said of a cache and the graph that keeps it.
pub fn describe_stats(s: &StoreStats) -> (r: Vec<String>)
    ensures
        texts(r@) == stats_lines(*s),
{
    let mut units = "units: ".to_owned();
    append_number(&mut units, s.phrases);
    units.append(" phrases, ");
    append_number(&mut units, s.words);
    units.append(" words, ");
    append_number(&mut units, s.morphemes);
    units.append(" morphemes, ");
    append_number(&mut units, s.phonemes);
    units.append(" phonemes");
    let mut graph = "graph: ".to_owned();
    append_number(&mut graph, s.total_nodes);
    graph.append(" nodes, ");
    append_number(&mut graph, s.total_edges);
    graph.append(" edges");
    let mut out: Vec<String> = Vec::new();
    out.push(units);
    out.push(graph);
    assert(texts(out@) =~= stats_lines(*s));
    out
}

// ---- laws ----

/// What is asked for with a database, a text, a voice and a file is done with
/// them.
pub proof fn commands_do_what_they_are_asked(
    db: Seq<char>,
    text: Seq<char>,
    voice: Seq<char>,
    file: Seq<char>,
)
    ensures
        commanded(
            seq!["compose"@] + (seq!["--db"@, db] + (seq!["--text"@, text] + (seq!["--voice"@, voice]
                + (seq!["--out"@, file] + Seq::empty())))),
        ) == Ok::<CommandView, RefusalView>(CommandView::Compose { db, text, out: file, voice }),
        commanded(
            seq!["ingest"@] + (seq!["--db"@, db] + (seq!["--text"@, text] + (seq!["--voice"@, voice]
                + (seq!["--wav"@, file] + Seq::empty())))),
        ) == Ok::<CommandView, RefusalView>(
            CommandView::Ingest { db, text, wav: Some(file), voice },
        ),
        commanded(
            seq!["lookup"@] + (seq!["--db"@, db] + (seq!["--text"@, text] + Seq::empty())),
        ) == Ok::<CommandView, RefusalView>(CommandView::Lookup { db, text }),
        commanded(seq!["stats"@] + (seq!["--db"@, db] + Seq::empty())) == Ok::<
            CommandView,
            RefusalView,
        >(CommandView::Stats { db }),
{
    let none = Seq::<Seq<char>>::empty();
    let a = no_args();
    let b = ArgsView { db: Some(db), ..a };
    let c = ArgsView { text: Some(text), ..b };
    let d = ArgsView { voice: Some(voice), ..c };
    flags_set_their_own_value(a, db);
    flags_set_their_own_value(b, text);
    flags_set_their_own_value(c, voice);
    flags_set_their_own_value(d, file);
    lemma_command_names();
    let out = seq!["--out"@, file] + none;
    let wav = seq!["--wav"@, file] + none;
    flags_are_read_in_turn(d, "--out"@, file, none);
    flags_are_read_in_turn(c, "--voice"@, voice, out);
    flags_are_read_in_turn(b, "--text"@, text, seq!["--voice"@, voice] + out);
    flags_are_read_in_turn(
        a,
        "--db"@,
        db,
        seq!["--text"@, text] + (seq!["--voice"@, voice] + out),
    );
    lemma_named("compose"@, seq!["--db"@, db] + (seq!["--text"@, text] + (seq!["--voice"@, voice]
        + out)));
    flags_are_read_in_turn(d, "--wav"@, file, none);
    flags_are_read_in_turn(c, "--voice"@, voice, wav);
    flags_are_read_in_turn(b, "--text"@, text, seq!["--voice"@, voice] + wav);
    flags_are_read_in_turn(
        a,
        "--db"@,
        db,
        seq!["--text"@, text] + (seq!["--voice"@, voice] + wav),
    );
    lemma_named("ingest"@, seq!["--db"@, db] + (seq!["--text"@, text] + (seq!["--voice"@, voice]
        + wav)));
    flags_are_read_in_turn(b, "--text"@, text, none);
    flags_are_read_in_turn(a, "--db"@, db, seq!["--text"@, text] + none);
    lemma_named("lookup"@, seq!["--db"@, db] + (seq!["--text"@, text] + none));
    flags_are_read_in_turn(a, "--db"@, db, none);
    lemma_named("stats"@, seq!["--db"@, db] + none);
}

proof fn lemma_named(name: Seq<char>, rest: Seq<Seq<char>>)
    ensures
        (seq![name] + rest).len() > 0,
        (seq![name] + rest)[0] == name,
        (seq![name] + rest).skip(1) == rest,
{
    assert((seq![name] + rest).skip(1) =~= rest);
}

proof fn lemma_command_names()
    ensures
        "ingest"@ != "compose"@,
        "ingest"@ != "lookup"@,
        "ingest"@ != "stats"@,
        "compose"@ != "lookup"@,
        "compose"@ != "stats"@,
        "lookup"@ != "stats"@,
{
    reveal_strlit("ingest");
    reveal_strlit("compose");
    reveal_strlit("lookup");
    reveal_strlit("stats");
    assert("ingest"@[0] == 'i' && "compose"@[0] == 'c' && "lookup"@[0] == 'l' && "stats"@[0]
        == 's');
}

/// Without a text there is nothing to speak or to look up, and without a database
/// nothing to keep it in.
pub proof fn what_is_missing_is_asked_for(name: Seq<char>, a: ArgsView)
    requires
        name == "ingest"@ || name == "compose"@ || name == "lookup"@,
    ensures
        command_of(name, a) is Ok <==> a.text is Some && a.db is Some,
{
}

} // verus!
