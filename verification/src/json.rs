//! JSON strings, and looking into JSON documents.

use crate::digest::hex_char;
use vstd::prelude::*;
use vstd::string::*;

verus! {

/// How a character is written inside a JSON string.
pub open spec fn json_char(c: char) -> Seq<char> {
    if c == '"' || c == '\\' {
        seq!['\\', c]
    } else if c == '\u{8}' {
        seq!['\\', 'b']
    } else if c == '\t' {
        seq!['\\', 't']
    } else if c == '\n' {
        seq!['\\', 'n']
    } else if c == '\u{c}' {
        seq!['\\', 'f']
    } else if c == '\r' {
        seq!['\\', 'r']
    } else if (c as nat) < 32 {
        seq!['\\', 'u', '0', '0', hex_char((c as nat) / 16), hex_char((c as nat) % 16)]
    } else {
        seq![c]
    }
}

/// The characters of a text as they stand inside a JSON string.
pub open spec fn json_chars(s: Seq<char>) -> Seq<char>
    decreases s.len(),
{
    if s.len() == 0 {
        Seq::empty()
    } else {
        json_chars(s.drop_last()) + json_char(s.last())
    }
}

/// A text as a JSON string, with its quotes.
pub open spec fn json_string(s: Seq<char>) -> Seq<char> {
    seq!['"'] + json_chars(s) + seq!['"']
}

/// `serde_json::Value::to_string` writes a string value in quotes, with quotes,
/// backslashes and control characters escaped and everything else as it is.
#[verifier::external_body]
pub(crate) fn quote_json(s: &str) -> (r: String)
    ensures
        r@ == json_string(s@),
{
    serde_json::Value::String(s.to_owned()).to_string()
}

/// The path to a string in a document: two members of arrays, and the members
/// of objects before, between and behind them.
pub struct Spot<'a> {
    pub outer: &'a str,
    pub first: usize,
    pub inner: &'a str,
    pub list: &'a str,
    pub second: usize,
    pub member: &'a str,
    pub leaf: &'a str,
}

/// What stands in a JSON document at `outer[first].inner.list[second].member.leaf`:
/// the string there, none where there is no string, or the message of the parser
/// where the bytes are no document.
pub uninterp spec fn string_inside(
    body: Seq<u8>,
    outer: Seq<char>,
    first: usize,
    inner: Seq<char>,
    list: Seq<char>,
    second: usize,
    member: Seq<char>,
    leaf: Seq<char>,
) -> core::result::Result<Option<Seq<char>>, Seq<char>>;

/// The value of what was found.
pub open spec fn found_view(r: core::result::Result<Option<String>, String>) -> core::result::Result<
    Option<Seq<char>>,
    Seq<char>,
> {
    match r {
        Ok(Some(t)) => Ok(Some(t@)),
        Ok(None) => Ok(None),
        Err(m) => Err(m@),
    }
}

/// `serde_json::from_slice` parses a document, indexing a `Value` by a name or a
/// number gives the member or null, and `Value::as_str` gives the text of a
/// string. All of it depends on the bytes and the path alone.
#[verifier::external_body]
pub(crate) fn look_inside(body: &[u8], at: &Spot<'_>) -> (r: core::result::Result<
    Option<String>,
    String,
>)
    ensures
        found_view(r) == string_inside(
            body@,
            at.outer@,
            at.first,
            at.inner@,
            at.list@,
            at.second,
            at.member@,
            at.leaf@,
        ),
{
    match serde_json::from_slice::<serde_json::Value>(body) {
        Ok(v) => Ok(
            v[at.outer][at.first][at.inner][at.list][at.second][at.member][at.leaf].as_str().map(
                str::to_owned,
            ),
        ),
        Err(e) => Err(e.to_string()),
    }
}

/// Text without quotes, backslashes and control characters is written as it
/// stands.
pub proof fn plain_text_is_not_escaped(s: Seq<char>)
    requires
        forall|i: int|
            0 <= i < s.len() ==> (#[trigger] s[i]) != '"' && s[i] != '\\' && s[i] as nat >= 32,
    ensures
        json_string(s) == seq!['"'] + s + seq!['"'],
{
    lemma_plain_chars(s);
}

proof fn lemma_plain_chars(s: Seq<char>)
    requires
        forall|i: int|
            0 <= i < s.len() ==> (#[trigger] s[i]) != '"' && s[i] != '\\' && s[i] as nat >= 32,
    ensures
        json_chars(s) == s,
    decreases s.len(),
{
    if s.len() > 0 {
        let t = s.drop_last();
        assert forall|i: int| 0 <= i < t.len() implies (#[trigger] t[i]) != '"' && t[i] != '\\'
            && t[i] as nat >= 32 by {
            assert(t[i] == s[i]);
        }
        lemma_plain_chars(t);
        assert(s[s.len() - 1] == s.last());
        assert(json_chars(s) =~= s);
    }
}

} // verus!
