//! Content digests and the names made of them.

use crate::text::{dec, decimal, digit_char};
use vstd::prelude::*;
use vstd::string::*;

verus! {

/// The SHA-256 digest of a sequence of bytes.
pub uninterp spec fn sha256_of(bytes: Seq<u8>) -> Seq<u8>;

/// `sha2::Sha256::digest` hashes the bytes in one go. Its result depends on
/// the bytes alone and is 32 bytes long.
#[verifier::external_body]
fn sha256(bytes: &[u8]) -> (r: Vec<u8>)
    ensures
        r@ == sha256_of(bytes@),
        r@.len() == 32,
{
    <sha2::Sha256 as sha2::Digest>::digest(bytes).to_vec()
}

/// The lower-case hexadecimal digit with value `d`.
pub open spec fn hex_char(d: nat) -> char {
    if d < 10 {
        digit_char(d)
    } else {
        (('a' as nat) + d - 10) as char
    }
}

/// Bytes in lower-case hexadecimal, two digits each.
pub open spec fn hex_of(s: Seq<u8>) -> Seq<char> {
    Seq::new(
        2 * s.len(),
        |i: int|
            hex_char(
                if i % 2 == 0 {
                    (s[i / 2] / 16) as nat
                } else {
                    (s[i / 2] % 16) as nat
                },
            ),
    )
}

fn hex_digit(d: u8) -> (c: char)
    requires
        d < 16,
    ensures
        c == hex_char(d as nat),
{
    if d < 10 {
        (('0' as u8) + d) as char
    } else {
        (('a' as u8) + (d - 10)) as char
    }
}

/// Bytes in lower-case hexadecimal, two digits each.
pub fn hex(bytes: &Vec<u8>) -> (r: String)
    ensures
        r@ == hex_of(bytes@),
{
    let mut out = String::new();
    let mut i: usize = 0;
    while i < bytes.len()
        invariant
            i <= bytes@.len(),
            out@ == hex_of(bytes@.take(i as int)),
        decreases bytes@.len() - i,
    {
        let b: u8 = bytes[i];
        let ghost before = out@;
        out.push(hex_digit(b / 16));
        out.push(hex_digit(b % 16));
        i += 1;
        assert(out@ =~= hex_of(bytes@.take(i as int)));
    }
    assert(bytes@.take(i as int) =~= bytes@);
    out
}

/// The name of a sequence of bytes by their content: 64 hexadecimal digits.
pub open spec fn content_name(bytes: Seq<u8>) -> Seq<char> {
    hex_of(sha256_of(bytes))
}

/// The name of bytes by their content.
pub fn hash_hex(bytes: &[u8]) -> (r: String)
    ensures
        r@ == content_name(bytes@),
        r@.len() == 64,
{
    hex(&sha256(bytes))
}

/// A number in at least four decimal digits, with zeros in front.
pub open spec fn padded(n: nat) -> Seq<char> {
    if n < 10 {
        "000"@ + dec(n)
    } else if n < 100 {
        "00"@ + dec(n)
    } else if n < 1000 {
        "0"@ + dec(n)
    } else {
        dec(n)
    }
}

/// A number in at least four decimal digits, with zeros in front.
pub fn padded_decimal(n: usize) -> (r: String)
    ensures
        r@ == padded(n as nat),
{
    let mut out: String = if n < 10 {
        "000".to_owned()
    } else if n < 100 {
        "00".to_owned()
    } else if n < 1000 {
        "0".to_owned()
    } else {
        String::new()
    };
    let numeral = decimal(n as u64);
    out.append(numeral.as_str());
    assert(out@ =~= padded(n as nat));
    out
}

/// The path of an entry of a directory.
pub open spec fn joined_path(root: Seq<char>, name: Seq<char>) -> Seq<char> {
    if root.len() == 0 || root.last() == '/' {
        root + name
    } else {
        root + "/"@ + name
    }
}

/// The path of an entry of a directory.
pub fn join_path(root: &str, name: &str) -> (r: String)
    ensures
        r@ == joined_path(root@, name@),
{
    let v = crate::text::chars_of(root);
    let n: usize = v.len();
    let mut out = root.to_owned();
    if n > 0 && v[n - 1] != '/' {
        out.append("/");
    }
    out.append(name);
    assert(out@ =~= joined_path(root@, name@));
    out
}

/// Whether a path is a directory or lies below it, both given in full and
/// without links.
pub open spec fn lies_within(path: Seq<char>, root: Seq<char>) -> bool {
    path == root || crate::text::starts_with(path, joined_path(root, Seq::empty()))
}

/// Whether a path is a directory or lies below it.
pub fn within(path: &str, root: &str) -> (r: bool)
    ensures
        r == lies_within(path@, root@),
{
    let head = join_path(root, "");
    proof {
        reveal_strlit("");
        assert(""@ =~= Seq::<char>::empty());
    }
    crate::text::same_text(path, root) || crate::text::has_prefix(
        &crate::text::chars_of(path),
        head.as_str(),
    )
}

/// Different bytes are written differently in hexadecimal.
pub proof fn hex_is_injective(a: Seq<u8>, b: Seq<u8>)
    requires
        hex_of(a) == hex_of(b),
    ensures
        a == b,
{
    assert(hex_of(a).len() == 2 * a.len());
    assert(hex_of(b).len() == 2 * b.len());
    assert forall|i: int| 0 <= i < a.len() implies a[i] == b[i] by {
        let hi = 2 * i;
        let lo = 2 * i + 1;
        assert(hex_of(a)[hi] == hex_of(b)[hi]);
        assert(hex_of(a)[lo] == hex_of(b)[lo]);
        assert(hi / 2 == i && hi % 2 == 0 && lo / 2 == i && lo % 2 == 1);
        assert(hex_of(a)[hi] == hex_char((a[i] / 16) as nat));
        assert(hex_of(b)[hi] == hex_char((b[i] / 16) as nat));
        assert(hex_of(a)[lo] == hex_char((a[i] % 16) as nat));
        assert(hex_of(b)[lo] == hex_char((b[i] % 16) as nat));
        lemma_hex_char((a[i] / 16) as nat, (b[i] / 16) as nat);
        lemma_hex_char((a[i] % 16) as nat, (b[i] % 16) as nat);
    }
    assert(a =~= b);
}

proof fn lemma_hex_char(a: nat, b: nat)
    requires
        a < 16,
        b < 16,
        hex_char(a) == hex_char(b),
    ensures
        a == b,
{
    assert(hex_char(a) as nat == if a < 10 {
        48 + a
    } else {
        (87 + a) as nat
    });
    assert(hex_char(b) as nat == if b < 10 {
        48 + b
    } else {
        (87 + b) as nat
    });
}

} // verus!
