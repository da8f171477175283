//! Minimal HTTP/1.1 requests and responses, as bytes.
//!
//! Scope: `http://` URLs only. Responses must be `Content-Length` framed or
//! close-delimited; chunked transfer encoding is not implemented.

use crate::bytes::copy_range;
use crate::error::{ErrorView, MimicError};
use crate::numeral::{all_digits, is_digit, lowered, number, numerals_read_back, read_number};
use crate::text::{
    ascii_lowered, chars_of, dec, decimal, find_char, find_from, has_prefix, lemma_find_char,
    lines_of, split_lines, split_words, starts_with, string_of_range, texts, words_of,
};
use vstd::prelude::*;
use vstd::string::*;
use vstd::utf8::*;

verus! {

/// A response: its status and what stands behind its head.
pub struct HttpResponse {
    pub status: u16,
    pub body: Vec<u8>,
}

/// The value of a response.
#[verifier::ext_equal]
pub struct HttpView {
    pub status: u16,
    pub body: Seq<u8>,
}

impl View for HttpResponse {
    type V = HttpView;

    open spec fn view(&self) -> HttpView {
        HttpView { status: self.status, body: self.body@ }
    }
}

/// A problem with a request or a response.
pub open spec fn http_problem(m: Seq<char>) -> ErrorView {
    ErrorView::Wav("http: "@ + m)
}

fn http_err(head: &str, tail: &str) -> (r: MimicError)
    ensures
        r@ == http_problem(head@ + tail@),
{
    let mut m = "http: ".to_owned();
    m.append(head);
    m.append(tail);
    assert(m@ =~= "http: "@ + (head@ + tail@));
    MimicError::Wav(m)
}

// ---- URLs ----

/// Where a request goes: the host, the port, and the path with its query.
#[verifier::ext_equal]
pub struct Target {
    pub host: Seq<char>,
    pub port: u16,
    pub path: Seq<char>,
}

/// The position of the last `c`, or none.
pub open spec fn last_char(s: Seq<char>, c: char) -> Option<int>
    decreases s.len(),
{
    if s.len() == 0 {
        None
    } else if s.last() == c {
        Some(s.len() - 1)
    } else {
        last_char(s.drop_last(), c)
    }
}

/// The number that a text stands for, if it fits 16 bits: digits, with or
/// without a plus in front.
pub open spec fn small_number(s: Seq<char>) -> Option<u16> {
    let digits = if s.len() > 0 && s[0] == '+' {
        s.skip(1)
    } else {
        s
    };
    if digits.len() > 0 && all_digits(digits) && number(digits) <= 65535 {
        Some(number(digits) as u16)
    } else {
        None
    }
}

/// What a URL of the form `http://host[:port][/path]` names.
pub open spec fn target_of(url: Seq<char>) -> core::result::Result<Target, ErrorView> {
    if !starts_with(url, "http://"@) {
        Err(
            http_problem(
                "only http:// URLs supported (add TLS to enable https): "@ + url,
            ),
        )
    } else {
        let rest = url.skip(7);
        let slash = find_char(rest, '/') as int;
        let authority = rest.take(slash);
        let path = if slash < rest.len() {
            rest.skip(slash)
        } else {
            "/"@
        };
        match last_char(authority, ':') {
            None => if authority.len() == 0 {
                Err(http_problem("empty host in "@ + url))
            } else {
                Ok(Target { host: authority, port: 80, path })
            },
            Some(i) => match small_number(authority.skip(i + 1)) {
                None => Err(http_problem("bad port in "@ + url)),
                Some(port) => if i == 0 {
                    Err(http_problem("empty host in "@ + url))
                } else {
                    Ok(Target { host: authority.take(i), port, path })
                },
            },
        }
    }
}

/// The number that `v[from..to]` stands for, if it fits 16 bits.
fn read_small(v: &Vec<char>, from: usize, to: usize) -> (r: Option<u16>)
    requires
        from <= to <= v@.len(),
    ensures
        r == small_number(v@.subrange(from as int, to as int)),
{
    let ghost s = v@.subrange(from as int, to as int);
    let start: usize = if from < to && v[from] == '+' {
        from + 1
    } else {
        from
    };
    proof {
        if from < to {
            assert(s[0] == v@[from as int]);
            assert(s.skip(1) =~= v@.subrange(from + 1, to as int));
        }
    }
    match read_number(v, start, to) {
        Some(n) => if n <= 65535 {
            Some(n as u16)
        } else {
            None
        },
        None => None,
    }
}

fn find_last(v: &Vec<char>, from: usize, to: usize, c: char) -> (r: Option<usize>)
    requires
        from <= to <= v@.len(),
    ensures
        match last_char(v@.subrange(from as int, to as int), c) {
            None => r is None,
            Some(i) => r matches Some(k) && from <= k < to && k == from + i,
        },
{
    let ghost s = v@.subrange(from as int, to as int);
    let mut k: usize = to;
    while k > from
        invariant
            from <= k <= to <= v@.len(),
            s == v@.subrange(from as int, to as int),
            last_char(s, c) == last_char(v@.subrange(from as int, k as int), c),
        decreases k,
    {
        let ghost t = v@.subrange(from as int, k as int);
        assert(t.last() == v@[k - 1]);
        assert(t.drop_last() =~= v@.subrange(from as int, k - 1));
        if v[k - 1] == c {
            return Some(k - 1);
        }
        k -= 1;
    }
    None
}

/// Takes a URL apart: the host, the port, and the path with its query.
pub fn parse_url(url: &str) -> (r: core::result::Result<(String, u16, String), MimicError>)
    ensures
        match r {
            Ok((host, port, path)) => target_of(url@) == Ok::<Target, ErrorView>(
                Target { host: host@, port, path: path@ },
            ),
            Err(e) => target_of(url@) == Err::<Target, ErrorView>(e@),
        },
{
    let v = chars_of(url);
    let n: usize = v.len();
    if !has_prefix(&v, "http://") {
        return Err(http_err("only http:// URLs supported (add TLS to enable https): ", url));
    }
    proof {
        reveal_strlit("http://");
    }
    let ghost rest = url@.skip(7);
    let slash: usize = find_from(&v, 7, '/');
    proof {
        assert(v@.skip(7) =~= rest);
        assert(rest.take(slash - 7) =~= v@.subrange(7, slash as int));
        if slash < n {
            assert(rest.skip(slash - 7) =~= v@.subrange(slash as int, n as int));
        }
    }
    let path: String = if slash < n {
        string_of_range(&v, slash, n)
    } else {
        "/".to_owned()
    };
    let ghost authority = rest.take(slash - 7);
    match find_last(&v, 7, slash, ':') {
        None => {
            if slash == 7 {
                return Err(http_err("empty host in ", url));
            }
            Ok((string_of_range(&v, 7, slash), 80, path))
        },
        Some(i) => {
            proof {
                assert(authority.skip(i - 7 + 1) =~= v@.subrange(i + 1, slash as int));
                assert(authority.take(i - 7) =~= v@.subrange(7, i as int));
            }
            match read_small(&v, i + 1, slash) {
                None => Err(http_err("bad port in ", url)),
                Some(port) => {
                    if i == 7 {
                        return Err(http_err("empty host in ", url));
                    }
                    Ok((string_of_range(&v, 7, i), port, path))
                },
            }
        },
    }
}

// ---- requests ----

/// Header lines of the form `name: value`.
pub open spec fn header_lines(headers: Seq<(Seq<char>, Seq<char>)>) -> Seq<char>
    decreases headers.len(),
{
    if headers.len() == 0 {
        Seq::empty()
    } else {
        header_lines(headers.drop_last()) + headers.last().0 + ": "@ + headers.last().1 + "\r\n"@
    }
}

/// The values of names with values.
pub open spec fn header_views(v: Seq<(String, String)>) -> Seq<(Seq<char>, Seq<char>)> {
    Seq::new(v.len(), |i: int| (v[i].0@, v[i].1@))
}

/// The head of a POST request for `length` bytes.
pub open spec fn head_of_post(
    t: Target,
    headers: Seq<(Seq<char>, Seq<char>)>,
    length: nat,
) -> Seq<char> {
    "POST "@ + t.path + " HTTP/1.1\r\nHost: "@ + t.host + ":"@ + dec(t.port as nat)
        + "\r\nContent-Length: "@ + dec(length) + "\r\nConnection: close\r\n"@ + header_lines(
        headers,
    ) + "\r\n"@
}

/// The head of a POST request for `length` bytes.
pub fn post_head(
    host: &str,
    port: u16,
    path: &str,
    headers: &Vec<(String, String)>,
    length: usize,
) -> (r: String)
    ensures
        r@ == head_of_post(
            Target { host: host@, port, path: path@ },
            header_views(headers@),
            length as nat,
        ),
{
    let mut out = "POST ".to_owned();
    out.append(path);
    out.append(" HTTP/1.1\r\nHost: ");
    out.append(host);
    out.append(":");
    out.append(decimal(port as u64).as_str());
    out.append("\r\nContent-Length: ");
    out.append(decimal(length as u64).as_str());
    out.append("\r\nConnection: close\r\n");
    let ghost first = out@;
    let ghost all = header_views(headers@);
    let mut i: usize = 0;
    assert(all.take(0) =~= Seq::<(Seq<char>, Seq<char>)>::empty());
    assert(out@ =~= first + header_lines(all.take(0)));
    while i < headers.len()
        invariant
            all == header_views(headers@),
            i <= headers@.len(),
            out@ == first + header_lines(all.take(i as int)),
        decreases headers@.len() - i,
    {
        let ghost before = header_lines(all.take(i as int));
        proof {
            assert(all.take(i + 1).drop_last() =~= all.take(i as int));
            assert(all.take(i + 1).last() == (headers@[i as int].0@, headers@[i as int].1@));
        }
        out.append(headers[i].0.as_str());
        out.append(": ");
        out.append(headers[i].1.as_str());
        out.append("\r\n");
        i += 1;
        assert(out@ =~= first + header_lines(all.take(i as int)));
    }
    assert(all.take(i as int) =~= all);
    out.append("\r\n");
    out
}

// ---- responses ----

/// The text of bytes, with what is not UTF-8 replaced.
pub uninterp spec fn lossy_text(bytes: Seq<u8>) -> Seq<char>;

/// `String::from_utf8_lossy` reads bytes as UTF-8 and replaces what is not. It
/// gives valid UTF-8 back as the text it encodes.
#[verifier::external_body]
pub(crate) fn lossy(bytes: &[u8]) -> (r: String)
    ensures
        r@ == lossy_text(bytes@),
        valid_utf8(bytes@) ==> r@ == decode_utf8(bytes@),
{
    String::from_utf8_lossy(bytes).into_owned()
}

/// Whether an empty line ends the head at `i`.
pub open spec fn head_ends(s: Seq<u8>, i: int) -> bool {
    0 <= i && i + 4 <= s.len() && s[i] == 13 && s[i + 1] == 10 && s[i + 2] == 13 && s[i + 3] == 10
}

/// Whether the head ends at `i` and no earlier.
pub open spec fn head_first_ends(s: Seq<u8>, i: int) -> bool {
    head_ends(s, i) && forall|j: int| 0 <= j < i ==> !head_ends(s, j)
}

/// Whether a text holds another.
pub open spec fn holds_text(s: Seq<char>, part: Seq<char>) -> bool {
    exists|i: int| 0 <= i <= s.len() && #[trigger] starts_with(s.skip(i), part)
}

/// Whether a line says that the body is chunked.
pub open spec fn says_chunked(line: Seq<char>) -> bool {
    let l = ascii_lowered(line);
    starts_with(l, "transfer-encoding:"@) && holds_text(l, "chunked"@)
}

/// Whether a head says that the body is chunked.
pub open spec fn is_chunked(head: Seq<char>) -> bool {
    exists|i: int| 0 <= i < lines_of(head).len() && #[trigger] says_chunked(lines_of(head)[i])
}

/// The status that a head declares, if its body can be read.
pub open spec fn status_of(head: Seq<char>) -> core::result::Result<u16, ErrorView> {
    let words = words_of(head);
    if words.len() < 2 || small_number(words[1]) is None {
        Err(http_problem("malformed status line"@))
    } else if is_chunked(head) {
        Err(http_problem("chunked responses not implemented"@))
    } else {
        Ok(small_number(words[1])->Some_0)
    }
}

fn line_says_chunked(line: &str) -> (r: bool)
    ensures
        r == says_chunked(line@),
{
    let v = lowered(line);
    if !has_prefix(&v, "transfer-encoding:") {
        return false;
    }
    let n: usize = v.len();
    let mut i: usize = 0;
    while i < n
        invariant
            n == v@.len(),
            v@ == ascii_lowered(line@),
            starts_with(v@, "transfer-encoding:"@),
            i <= n,
            forall|j: int| 0 <= j < i ==> !#[trigger] starts_with(v@.skip(j), "chunked"@),
        decreases n - i,
    {
        let tail = chars_of(string_of_range(&v, i, n).as_str());
        assert(tail@ =~= v@.skip(i as int));
        if has_prefix(&tail, "chunked") {
            assert(starts_with(v@.skip(i as int), "chunked"@));
            return true;
        }
        i += 1;
    }
    proof {
        reveal_strlit("chunked");
        assert forall|j: int| 0 <= j <= v@.len() implies !#[trigger] starts_with(
            v@.skip(j),
            "chunked"@,
        ) by {
            if j == v@.len() {
                assert(v@.skip(j).len() == 0);
            }
        }
    }
    false
}

/// The status that a head declares.
pub fn read_status(head: &str) -> (r: core::result::Result<u16, MimicError>)
    ensures
        match r {
            Ok(s) => status_of(head@) == Ok::<u16, ErrorView>(s),
            Err(e) => status_of(head@) == Err::<u16, ErrorView>(e@),
        },
{
    let words = split_words(head);
    assert(texts(words@).len() == words@.len());
    let status: Option<u16> = if words.len() >= 2 {
        let w = chars_of(words[1].as_str());
        assert(w@.subrange(0, w@.len() as int) =~= words_of(head@)[1]);
        read_small(&w, 0, w.len())
    } else {
        None
    };
    let s: u16 = match status {
        None => {
            let e = http_err("malformed status line", "");
            proof {
                reveal_strlit("");
                assert("malformed status line"@ + ""@ =~= "malformed status line"@);
            }
            return Err(e);
        },
        Some(s) => s,
    };
    let lines = split_lines(head);
    let ghost all = lines_of(head@);
    let mut i: usize = 0;
    while i < lines.len()
        invariant
            texts(lines@) == all,
            all == lines_of(head@),
            i <= lines@.len(),
            s == small_number(words_of(head@)[1])->Some_0,
            words_of(head@).len() >= 2,
            small_number(words_of(head@)[1]) is Some,
            forall|j: int| 0 <= j < i ==> !#[trigger] says_chunked(all[j]),
        decreases lines@.len() - i,
    {
        assert(texts(lines@)[i as int] == lines@[i as int]@);
        if line_says_chunked(lines[i].as_str()) {
            let e = http_err("chunked responses not implemented", "");
            proof {
                reveal_strlit("");
                assert("chunked responses not implemented"@ + ""@
                    =~= "chunked responses not implemented"@);
                assert(says_chunked(all[i as int]));
            }
            return Err(e);
        }
        i += 1;
    }
    assert(texts(lines@).len() == lines@.len());
    Ok(s)
}

fn find_head_end(raw: &[u8]) -> (r: Option<usize>)
    ensures
        match r {
            Some(i) => head_first_ends(raw@, i as int),
            None => forall|i: int| !#[trigger] head_ends(raw@, i),
        },
{
    let n: usize = raw.len();
    let mut i: usize = 0;
    while i < n && n - i >= 4
        invariant
            n == raw@.len(),
            i <= n,
            forall|j: int| 0 <= j < i ==> !#[trigger] head_ends(raw@, j),
        decreases n - i,
    {
        if raw[i] == 13 && raw[i + 1] == 10 && raw[i + 2] == 13 && raw[i + 3] == 10 {
            assert(head_ends(raw@, i as int));
            return Some(i);
        }
        assert(!head_ends(raw@, i as int));
        i += 1;
    }
    assert forall|j: int| !#[trigger] head_ends(raw@, j) by {
        if 0 <= j < i {
        }
    }
    None
}

/// Takes a response apart: an empty line parts its head from its body.
pub fn parse_response(raw: &[u8]) -> (r: core::result::Result<HttpResponse, MimicError>)
    ensures
        match r {
            Ok(p) => exists|i: int| #[trigger]
                head_first_ends(raw@, i) && status_of(lossy_text(raw@.take(i))) == Ok::<
                    u16,
                    ErrorView,
                >(p.status) && p.body@ == raw@.skip(i + 4),
            Err(e) => if exists|i: int| head_ends(raw@, i) {
                exists|i: int| #[trigger]
                    head_first_ends(raw@, i) && status_of(lossy_text(raw@.take(i))) == Err::<
                        u16,
                        ErrorView,
                    >(e@)
            } else {
                e@ == http_problem("malformed response (no header terminator)"@)
            },
        },
{
    let n: usize = raw.len();
    let split: usize = match find_head_end(raw) {
        None => {
            let e = http_err("malformed response (no header terminator)", "");
            proof {
                reveal_strlit("");
                assert("malformed response (no header terminator)"@ + ""@
                    =~= "malformed response (no header terminator)"@);
            }
            return Err(e);
        },
        Some(i) => i,
    };
    let raw_head = copy_range(raw, 0, split);
    assert(raw_head@ =~= raw@.take(split as int));
    let head = lossy(raw_head.as_slice());
    match read_status(head.as_str()) {
        Err(e) => {
            assert(head_ends(raw@, split as int));
            Err(e)
        },
        Ok(status) => {
            let body = copy_range(raw, split + 4, n);
            assert(body@ =~= raw@.skip(split + 4));
            Ok(HttpResponse { status, body })
        },
    }
}

// ---- laws ----

proof fn lemma_no_colon(s: Seq<char>)
    requires
        !s.contains(':'),
    ensures
        last_char(s, ':') == None::<int>,
    decreases s.len(),
{
    if s.len() > 0 {
        assert(s[s.len() - 1] == s.last());
        assert forall|c: char| s.drop_last().contains(c) implies s.contains(c) by {
            let i = choose|i: int| 0 <= i < s.drop_last().len() && s.drop_last()[i] == c;
            assert(s[i] == c);
        }
        lemma_no_colon(s.drop_last());
    }
}

proof fn lemma_last_colon(a: Seq<char>, b: Seq<char>)
    requires
        !b.contains(':'),
    ensures
        last_char(a + seq![':'] + b, ':') == Some(a.len() as int),
    decreases b.len(),
{
    let s = a + seq![':'] + b;
    if b.len() > 0 {
        assert(b[b.len() - 1] == s.last());
        let t = b.drop_last();
        assert(s.drop_last() =~= a + seq![':'] + t);
        assert forall|c: char| t.contains(c) implies b.contains(c) by {
            let i = choose|i: int| 0 <= i < t.len() && t[i] == c;
            assert(b[i] == c);
        }
        lemma_last_colon(a, t);
    }
}

proof fn lemma_first_slash(a: Seq<char>, path: Seq<char>)
    requires
        !a.contains('/'),
        path.len() == 0 || path[0] == '/',
    ensures
        find_char(a + path, '/') == a.len(),
{
    let s = a + path;
    lemma_find_char(s, '/');
    let k = find_char(s, '/') as int;
    if k < a.len() {
        assert(a[k] == '/');
    } else if k > a.len() {
        assert(s[a.len() as int] == path[0]);
    }
}

/// A URL names the host, the port and the path that it is put together from;
/// without a port it means port 80, and without a path the root.
pub proof fn urls_name_their_target(host: Seq<char>, port: u16, path: Seq<char>)
    requires
        host.len() > 0,
        !host.contains('/'),
        !host.contains(':'),
        path.len() == 0 || path[0] == '/',
    ensures
        ({
            let asked = if path.len() == 0 {
                seq!['/']
            } else {
                path
            };
            &&& target_of("http://"@ + host + seq![':'] + dec(port as nat) + path) == Ok::<
                Target,
                ErrorView,
            >(Target { host, port, path: asked })
            &&& target_of("http://"@ + host + path) == Ok::<Target, ErrorView>(
                Target { host, port: 80, path: asked },
            )
        }),
{
    reveal_strlit("http://");
    reveal_strlit("/");
    assert("/"@ =~= seq!['/']);
    let digits = dec(port as nat);
    numerals_read_back(port as nat);
    assert forall|i: int| 0 <= i < digits.len() implies #[trigger] digits[i] != ':' && digits[i]
        != '/' by {
        assert(is_digit(digits[i]));
    }
    assert(is_digit(digits[0]));
    let a = host + seq![':'] + digits;
    let url = "http://"@ + host + seq![':'] + digits + path;
    assert(url.take(7) =~= "http://"@);
    assert(url.skip(7) =~= a + path);
    assert(!a.contains('/')) by {
        assert forall|i: int| 0 <= i < a.len() implies a[i] != '/' by {
            if i < host.len() {
                assert(host.contains(host[i]));
            } else if i > host.len() {
                assert(a[i] == digits[i - host.len() - 1]);
            }
        }
    }
    lemma_first_slash(a, path);
    assert((a + path).take(a.len() as int) =~= a);
    assert((a + path).skip(a.len() as int) =~= path);
    lemma_last_colon(host, digits);
    assert(a.skip(host.len() as int + 1) =~= digits);
    assert(a.take(host.len() as int) =~= host);
    let bare = "http://"@ + host + path;
    assert(bare.take(7) =~= "http://"@);
    assert(bare.skip(7) =~= host + path);
    lemma_first_slash(host, path);
    assert((host + path).take(host.len() as int) =~= host);
    assert((host + path).skip(host.len() as int) =~= path);
    lemma_no_colon(host);
}

/// The head of a request is its first line, the host it goes to, the length of
/// its body, and its headers one to a line.
pub proof fn heads_carry_every_header(
    t: Target,
    headers: Seq<(Seq<char>, Seq<char>)>,
    length: nat,
    i: int,
)
    requires
        0 <= i < headers.len(),
    ensures
        starts_with(head_of_post(t, headers, length), "POST "@ + t.path + " HTTP/1.1\r\n"@),
        holds_text(
            head_of_post(t, headers, length),
            "\r\nContent-Length: "@ + dec(length) + "\r\n"@,
        ),
        holds_text(
            head_of_post(t, headers, length),
            headers[i].0 + ": "@ + headers[i].1 + "\r\n"@,
        ),
{
    reveal_strlit(" HTTP/1.1\r\n");
    reveal_strlit(" HTTP/1.1\r\nHost: ");
    reveal_strlit("\r\nConnection: close\r\n");
    reveal_strlit("\r\n");
    let whole = head_of_post(t, headers, length);
    let first = "POST "@ + t.path + " HTTP/1.1\r\n"@;
    assert(whole.take(first.len() as int) =~= first);
    let front = "POST "@ + t.path + " HTTP/1.1\r\nHost: "@ + t.host + ":"@ + dec(t.port as nat);
    let part = "\r\nContent-Length: "@ + dec(length) + "\r\n"@;
    assert(whole.skip(front.len() as int).take(part.len() as int) =~= part);
    assert(starts_with(whole.skip(front.len() as int), part));
    let (a, b) = lemma_header_line(headers, i);
    let line = headers[i].0 + ": "@ + headers[i].1 + "\r\n"@;
    let before = front + "\r\nContent-Length: "@ + dec(length) + "\r\nConnection: close\r\n"@ + a;
    assert(whole =~= before + line + (b + "\r\n"@));
    assert(whole.skip(before.len() as int).take(line.len() as int) =~= line);
    assert(starts_with(whole.skip(before.len() as int), line));
}

proof fn lemma_header_line(headers: Seq<(Seq<char>, Seq<char>)>, i: int) -> (r: (
    Seq<char>,
    Seq<char>,
))
    requires
        0 <= i < headers.len(),
    ensures
        header_lines(headers) == r.0 + (headers[i].0 + ": "@ + headers[i].1 + "\r\n"@) + r.1,
    decreases headers.len(),
{
    let t = headers.drop_last();
    if i == headers.len() - 1 {
        let r = (header_lines(t), Seq::<char>::empty());
        assert(header_lines(headers) =~= r.0 + (headers[i].0 + ": "@ + headers[i].1 + "\r\n"@)
            + r.1);
        r
    } else {
        let (a, b) = lemma_header_line(t, i);
        let last = headers.last().0 + ": "@ + headers.last().1 + "\r\n"@;
        assert(header_lines(headers) =~= a + (headers[i].0 + ": "@ + headers[i].1 + "\r\n"@) + (b
            + last));
        (a, b + last)
    }
}

} // verus!
