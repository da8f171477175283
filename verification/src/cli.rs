//! Command lines and configuration.

use crate::digest::{join_path, joined_path};
use crate::text::{chars_of, has_prefix, same_text, starts_with, string_of_range, texts};
use vstd::prelude::*;
use vstd::string::*;

verus! {

// ---- command lines ----

/// What a command line asks for.
#[derive(Debug)]
pub struct Args {
    pub db: Option<String>,
    pub text: Option<String>,
    pub wav: Option<String>,
    pub out: Option<String>,
    pub voice: Option<String>,
    pub corpora: Option<String>,
    pub gates: Option<String>,
    pub addr: Option<String>,
    pub gate: bool,
}

/// The value of a command line.
#[verifier::ext_equal]
pub struct ArgsView {
    pub db: Option<Seq<char>>,
    pub text: Option<Seq<char>>,
    pub wav: Option<Seq<char>>,
    pub out: Option<Seq<char>>,
    pub voice: Option<Seq<char>>,
    pub corpora: Option<Seq<char>>,
    pub gates: Option<Seq<char>>,
    pub addr: Option<Seq<char>>,
    pub gate: bool,
}

/// The text of an optional string.
pub open spec fn opt_string(s: Option<String>) -> Option<Seq<char>> {
    match s {
        Some(t) => Some(t@),
        None => None,
    }
}

impl View for Args {
    type V = ArgsView;

    open spec fn view(&self) -> ArgsView {
        ArgsView {
            db: opt_string(self.db),
            text: opt_string(self.text),
            wav: opt_string(self.wav),
            out: opt_string(self.out),
            voice: opt_string(self.voice),
            corpora: opt_string(self.corpora),
            gates: opt_string(self.gates),
            addr: opt_string(self.addr),
            gate: self.gate,
        }
    }
}

/// A command line that asks for nothing.
pub open spec fn no_args() -> ArgsView {
    ArgsView {
        db: None,
        text: None,
        wav: None,
        out: None,
        voice: None,
        corpora: None,
        gates: None,
        addr: None,
        gate: false,
    }
}

/// A command line with one more value. There is none for an unknown flag.
pub open spec fn with_value(a: ArgsView, flag: Seq<char>, value: Seq<char>) -> Option<ArgsView> {
    if flag == "--db"@ {
        Some(ArgsView { db: Some(value), ..a })
    } else if flag == "--text"@ {
        Some(ArgsView { text: Some(value), ..a })
    } else if flag == "--wav"@ {
        Some(ArgsView { wav: Some(value), ..a })
    } else if flag == "--out"@ {
        Some(ArgsView { out: Some(value), ..a })
    } else if flag == "--voice"@ {
        Some(ArgsView { voice: Some(value), ..a })
    } else if flag == "--corpora"@ {
        Some(ArgsView { corpora: Some(value), ..a })
    } else if flag == "--gates"@ {
        Some(ArgsView { gates: Some(value), ..a })
    } else if flag == "--addr"@ {
        Some(ArgsView { addr: Some(value), ..a })
    } else {
        None
    }
}

/// A command line with the flags in `rest`: `--gate` stands alone, and every
/// other flag is followed by its value. Later values replace earlier ones.
pub open spec fn args_from(a: ArgsView, rest: Seq<Seq<char>>) -> core::result::Result<
    ArgsView,
    Seq<char>,
>
    decreases rest.len(),
{
    if rest.len() == 0 {
        Ok(a)
    } else if rest[0] == "--gate"@ {
        args_from(ArgsView { gate: true, ..a }, rest.skip(1))
    } else if rest.len() == 1 {
        Err(
            "missing value for "@ + rest[0] + "; try again with "@ + rest[0] + " VALUE"@,
        )
    } else {
        match with_value(a, rest[0], rest[1]) {
            None => Err("unknown flag: "@ + rest[0] + "; run `mimic`, then try again"@),
            Some(b) => args_from(b, rest.skip(2)),
        }
    }
}

impl Args {
    /// A command line that asks for nothing.
    pub fn none() -> (r: Args)
        ensures
            r@ == no_args(),
    {
        Args {
            db: None,
            text: None,
            wav: None,
            out: None,
            voice: None,
            corpora: None,
            gates: None,
            addr: None,
            gate: false,
        }
    }

    /// Takes one more value. Says whether the flag is known.
    fn set(&mut self, flag: &str, value: &str) -> (r: bool)
        ensures
            match with_value(old(self)@, flag@, value@) {
                Some(b) => r && final(self)@ == b,
                None => !r && final(self)@ == old(self)@,
            },
    {
        let v = Some(value.to_owned());
        if same_text(flag, "--db") {
            self.db = v;
        } else if same_text(flag, "--text") {
            self.text = v;
        } else if same_text(flag, "--wav") {
            self.wav = v;
        } else if same_text(flag, "--out") {
            self.out = v;
        } else if same_text(flag, "--voice") {
            self.voice = v;
        } else if same_text(flag, "--corpora") {
            self.corpora = v;
        } else if same_text(flag, "--gates") {
            self.gates = v;
        } else if same_text(flag, "--addr") {
            self.addr = v;
        } else {
            return false;
        }
        true
    }
}

/// Reads a command line.
pub fn parse_args(args: &Vec<String>) -> (r: core::result::Result<Args, String>)
    ensures
        match r {
            Ok(a) => args_from(no_args(), texts(args@)) == Ok::<ArgsView, Seq<char>>(a@),
            Err(m) => args_from(no_args(), texts(args@)) == Err::<ArgsView, Seq<char>>(m@),
        },
{
    let ghost all = texts(args@);
    let n: usize = args.len();
    let mut a = Args::none();
    let mut i: usize = 0;
    assert(all.skip(0) =~= all);
    while i < n
        invariant
            n == args@.len(),
            all == texts(args@),
            i <= n,
            args_from(a@, all.skip(i as int)) == args_from(no_args(), all),
        decreases n - i,
    {
        let ghost rest = all.skip(i as int);
        let flag = args[i].as_str();
        assert(rest[0] == flag@);
        if same_text(flag, "--gate") {
            a.gate = true;
            assert(rest.skip(1) =~= all.skip(i + 1));
            i += 1;
        } else {
            if n - i == 1 {
                let mut m = "missing value for ".to_owned();
                m.append(flag);
                m.append("; try again with ");
                m.append(flag);
                m.append(" VALUE");
                return Err(m);
            }
            let value = args[i + 1].as_str();
            assert(rest[1] == value@);
            if !a.set(flag, value) {
                let mut m = "unknown flag: ".to_owned();
                m.append(flag);
                m.append("; run `mimic`, then try again");
                return Err(m);
            }
            assert(rest.skip(2) =~= all.skip(i + 2));
            i += 2;
        }
    }
    Ok(a)
}

// ---- configuration ----

/// A path with a leading `~/` taken below the home directory.
pub open spec fn expanded(path: Seq<char>, home: Seq<char>) -> Seq<char> {
    if starts_with(path, "~/"@) {
        let rest = path.skip(2);
        if rest.len() > 0 && rest[0] == '/' {
            rest
        } else {
            joined_path(home, rest)
        }
    } else {
        path
    }
}

/// Takes a path with a leading `~/` below the home directory.
pub fn expand(path: &str, home: &str) -> (r: String)
    ensures
        r@ == expanded(path@, home@),
{
    let v = chars_of(path);
    let n: usize = v.len();
    if has_prefix(&v, "~/") {
        proof {
            reveal_strlit("~/");
        }
        let rest = string_of_range(&v, 2, n);
        assert(rest@ =~= path@.skip(2));
        if n > 2 && v[2] == '/' {
            return rest;
        }
        return join_path(home, rest.as_str());
    }
    path.to_owned()
}

/// What a TOML document says at a name below a table: the string there, none
/// where there is no string, or the message of the parser where the text is no
/// document.
pub uninterp spec fn toml_string(
    text: Seq<char>,
    table: Seq<char>,
    name: Seq<char>,
) -> core::result::Result<Option<Seq<char>>, Seq<char>>;

/// The value of what was found.
pub open spec fn toml_found(
    r: core::result::Result<Option<String>, String>,
) -> core::result::Result<Option<Seq<char>>, Seq<char>> {
    match r {
        Ok(Some(t)) => Ok(Some(t@)),
        Ok(None) => Ok(None),
        Err(m) => Err(m@),
    }
}

/// `toml::from_str` parses a document, `toml::Value::get` gives the member of a
/// table, and `toml::Value::as_str` the text of a string. All of it depends on
/// the text and the names alone.
#[verifier::external_body]
fn look_up(text: &str, table: &str, name: &str) -> (r: core::result::Result<
    Option<String>,
    String,
>)
    ensures
        toml_found(r) == toml_string(text@, table@, name@),
{
    match toml::from_str::<toml::Value>(text) {
        Ok(v) => Ok(
            v.get(table).and_then(|t| t.get(name)).and_then(toml::Value::as_str).map(
                str::to_owned,
            ),
        ),
        Err(e) => Err(e.to_string()),
    }
}

/// The token that was found in a configuration: it must not be empty.
pub open spec fn token_of(
    found: core::result::Result<Option<Seq<char>>, Seq<char>>,
    path: Seq<char>,
) -> core::result::Result<Seq<char>, Seq<char>> {
    match found {
        Err(m) => Err(m),
        Ok(Some(t)) if t.len() > 0 => Ok(t),
        _ => Err(
            "missing server.auth_token in "@ + path
                + "; set it with `voxd-cli config set server.auth_token TOKEN`"@,
        ),
    }
}

/// The value of a token, or of the problem with it.
pub open spec fn token_view(r: core::result::Result<String, String>) -> core::result::Result<
    Seq<char>,
    Seq<char>,
> {
    match r {
        Ok(t) => Ok(t@),
        Err(m) => Err(m@),
    }
}

/// The token that was found in the configuration at a path.
pub fn choose_token(found: core::result::Result<Option<String>, String>, path: &str) -> (r:
    core::result::Result<String, String>)
    ensures
        token_view(r) == token_of(toml_found(found), path@),
{
    match found {
        Err(m) => Err(m),
        Ok(t) => {
            if let Some(s) = t {
                if !s.as_str().is_empty() {
                    return Ok(s);
                }
            }
            let mut m = "missing server.auth_token in ".to_owned();
            m.append(path);
            m.append("; set it with `voxd-cli config set server.auth_token TOKEN`");
            Err(m)
        },
    }
}

/// The token in the text of the configuration at a path.
pub fn voxd_token(text: &str, path: &str) -> (r: core::result::Result<String, String>)
    ensures
        token_view(r) == token_of(toml_string(text@, "server"@, "auth_token"@), path@),
{
    choose_token(look_up(text, "server", "auth_token"), path)
}

// ---- laws ----

/// Every flag sets its own value and leaves the others, and none of them is the
/// flag that stands alone.
pub proof fn flags_set_their_own_value(a: ArgsView, v: Seq<char>)
    ensures
        with_value(a, "--db"@, v) == Some(ArgsView { db: Some(v), ..a }),
        "--db"@ != "--gate"@,
        with_value(a, "--text"@, v) == Some(ArgsView { text: Some(v), ..a }),
        "--text"@ != "--gate"@,
        with_value(a, "--wav"@, v) == Some(ArgsView { wav: Some(v), ..a }),
        "--wav"@ != "--gate"@,
        with_value(a, "--out"@, v) == Some(ArgsView { out: Some(v), ..a }),
        "--out"@ != "--gate"@,
        with_value(a, "--voice"@, v) == Some(ArgsView { voice: Some(v), ..a }),
        "--voice"@ != "--gate"@,
        with_value(a, "--corpora"@, v) == Some(ArgsView { corpora: Some(v), ..a }),
        "--corpora"@ != "--gate"@,
        with_value(a, "--gates"@, v) == Some(ArgsView { gates: Some(v), ..a }),
        "--gates"@ != "--gate"@,
        with_value(a, "--addr"@, v) == Some(ArgsView { addr: Some(v), ..a }),
        "--addr"@ != "--gate"@,
{
    reveal_strlit("--db");
    assert("--db"@.len() == 4 && "--db"@[2] == 'd');
    reveal_strlit("--text");
    assert("--text"@.len() == 6 && "--text"@[2] == 't');
    reveal_strlit("--wav");
    assert("--wav"@.len() == 5 && "--wav"@[2] == 'w');
    reveal_strlit("--out");
    assert("--out"@.len() == 5 && "--out"@[2] == 'o');
    reveal_strlit("--voice");
    assert("--voice"@.len() == 7 && "--voice"@[2] == 'v');
    reveal_strlit("--corpora");
    assert("--corpora"@.len() == 9 && "--corpora"@[2] == 'c');
    reveal_strlit("--gates");
    assert("--gates"@.len() == 7 && "--gates"@[2] == 'g');
    reveal_strlit("--addr");
    assert("--addr"@.len() == 6 && "--addr"@[2] == 'a');
    reveal_strlit("--gate");
    assert("--gate"@.len() == 6 && "--gate"@[2] == 'g');
}

/// A flag with its value in front of others sets that value, and the others are
/// read from there on.
pub proof fn flags_are_read_in_turn(
    a: ArgsView,
    flag: Seq<char>,
    value: Seq<char>,
    rest: Seq<Seq<char>>,
)
    requires
        flag != "--gate"@,
        with_value(a, flag, value) is Some,
    ensures
        args_from(a, seq![flag, value] + rest) == args_from(
            with_value(a, flag, value)->Some_0,
            rest,
        ),
{
    let all = seq![flag, value] + rest;
    assert(all[0] == flag && all[1] == value);
    assert(all.skip(2) =~= rest);
}

/// Which of two different flags comes first makes no difference.
pub proof fn flags_come_in_any_order(
    a: ArgsView,
    f: Seq<char>,
    x: Seq<char>,
    g: Seq<char>,
    y: Seq<char>,
    rest: Seq<Seq<char>>,
)
    requires
        f != g,
        f != "--gate"@,
        g != "--gate"@,
        with_value(a, f, x) is Some,
        with_value(a, g, y) is Some,
    ensures
        args_from(a, seq![f, x] + (seq![g, y] + rest)) == args_from(
            a,
            seq![g, y] + (seq![f, x] + rest),
        ),
{
    flags_are_read_in_turn(a, f, x, seq![g, y] + rest);
    flags_are_read_in_turn(a, g, y, seq![f, x] + rest);
    let one = with_value(a, f, x)->Some_0;
    let other = with_value(a, g, y)->Some_0;
    flags_are_read_in_turn(one, g, y, rest);
    flags_are_read_in_turn(other, f, x, rest);
}

} // verus!
