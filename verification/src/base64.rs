//! Base64 with the standard alphabet, padding optional.

use crate::digest::hex_char;
use crate::error::{ErrorView, MimicError};
use vstd::prelude::*;
use vstd::string::*;
use vstd::utf8::*;

verus! {

/// The value of a letter of the alphabet.
pub open spec fn sextet(b: u8) -> Option<u8> {
    if 65 <= b <= 90 {
        Some((b - 65) as u8)
    } else if 97 <= b <= 122 {
        Some((b - 71) as u8)
    } else if 48 <= b <= 57 {
        Some((b + 4) as u8)
    } else if b == 43 {
        Some(62)
    } else if b == 47 {
        Some(63)
    } else {
        None
    }
}

/// Whether a byte is skipped: padding, or ASCII white space.
pub open spec fn skipped(b: u8) -> bool {
    b == 61 || b == 32 || b == 9 || b == 10 || b == 12 || b == 13
}

/// The values of the letters, or the first byte that is none.
pub open spec fn sextets(s: Seq<u8>) -> core::result::Result<Seq<u8>, u8>
    decreases s.len(),
{
    if s.len() == 0 {
        Ok(Seq::empty())
    } else {
        match sextets(s.drop_last()) {
            Err(b) => Err(b),
            Ok(v) => if skipped(s.last()) {
                Ok(v)
            } else {
                match sextet(s.last()) {
                    None => Err(s.last()),
                    Some(x) => Ok(v.push(x)),
                }
            },
        }
    }
}

/// Byte `k` of a stream of six-bit values, four of which make three bytes.
pub open spec fn octet(v: Seq<u8>, k: int) -> u8 {
    let q = 4 * (k / 3);
    if k % 3 == 0 {
        (v[q] * 4 + v[q + 1] / 16) as u8
    } else if k % 3 == 1 {
        ((v[q + 1] % 16) * 16 + v[q + 2] / 4) as u8
    } else {
        ((v[q + 2] % 4) * 64 + v[q + 3]) as u8
    }
}

/// The whole bytes of a stream of six-bit values.
pub open spec fn octets(v: Seq<u8>) -> Seq<u8> {
    Seq::new((6 * v.len()) / 8, |k: int| octet(v, k))
}

/// A byte in hexadecimal as it stands in a message.
pub open spec fn hex_byte(b: u8) -> Seq<char> {
    if b < 16 {
        "0x"@.push(hex_char(b as nat))
    } else {
        "0x"@.push(hex_char((b / 16) as nat)).push(hex_char((b % 16) as nat))
    }
}

/// What a text stands for.
pub open spec fn decoded_text(s: Seq<char>) -> core::result::Result<Seq<u8>, ErrorView> {
    match sextets(encode_utf8(s)) {
        Err(b) => Err(ErrorView::Wav("base64: bad byte "@ + hex_byte(b))),
        Ok(v) => Ok(octets(v)),
    }
}

fn letter_value(b: u8) -> (r: Option<u8>)
    ensures
        r == sextet(b),
{
    if 65 <= b && b <= 90 {
        Some(b - 65)
    } else if 97 <= b && b <= 122 {
        Some(b - 71)
    } else if 48 <= b && b <= 57 {
        Some(b + 4)
    } else if b == 43 {
        Some(62)
    } else if b == 47 {
        Some(63)
    } else {
        None
    }
}

fn bad_byte(b: u8) -> (r: MimicError)
    ensures
        r@ == ErrorView::Wav("base64: bad byte "@ + hex_byte(b)),
{
    let mut digits: Vec<u8> = Vec::new();
    digits.push(b);
    let both = crate::digest::hex(&digits);
    let v = crate::text::chars_of(both.as_str());
    let mut m = "base64: bad byte ".to_owned();
    m.append("0x");
    proof {
        assert(digits@ =~= seq![b]);
        assert(v@.len() == 2);
        assert(v@[0] == hex_char((b / 16) as nat));
        assert(v@[1] == hex_char((b % 16) as nat));
    }
    if b >= 16 {
        m.push(v[0]);
    }
    m.push(v[1]);
    assert(m@ =~= "base64: bad byte "@ + hex_byte(b));
    MimicError::Wav(m)
}

proof fn lemma_sextets_fail(s: Seq<u8>, k: int)
    requires
        0 <= k <= s.len(),
        sextets(s.take(k)) is Err,
    ensures
        sextets(s) == sextets(s.take(k)),
    decreases s.len() - k,
{
    if k < s.len() {
        assert(s.take(k + 1).drop_last() =~= s.take(k));
        lemma_sextets_fail(s, k + 1);
    } else {
        assert(s.take(k) =~= s);
    }
}

proof fn lemma_sextets_small(s: Seq<u8>)
    ensures
        sextets(s) matches Ok(v) ==> forall|i: int| 0 <= i < v.len() ==> #[trigger] v[i] < 64,
    decreases s.len(),
{
    if s.len() > 0 {
        lemma_sextets_small(s.drop_last());
    }
}

/// The values of the letters of a text.
fn read_sextets(bytes: &[u8]) -> (r: core::result::Result<Vec<u8>, u8>)
    ensures
        match r {
            Ok(v) => sextets(bytes@) == Ok::<Seq<u8>, u8>(v@),
            Err(b) => sextets(bytes@) == Err::<Seq<u8>, u8>(b),
        },
{
    let mut out: Vec<u8> = Vec::new();
    let n: usize = bytes.len();
    let mut i: usize = 0;
    assert(bytes@.take(0) =~= Seq::<u8>::empty());
    assert(out@ =~= Seq::<u8>::empty());
    while i < n
        invariant
            n == bytes@.len(),
            i <= n,
            sextets(bytes@.take(i as int)) == Ok::<Seq<u8>, u8>(out@),
        decreases n - i,
    {
        let b: u8 = bytes[i];
        assert(bytes@.take(i + 1).drop_last() =~= bytes@.take(i as int));
        if !(b == 61 || b == 32 || b == 9 || b == 10 || b == 12 || b == 13) {
            match letter_value(b) {
                None => {
                    proof {
                        lemma_sextets_fail(bytes@, i + 1);
                    }
                    return Err(b);
                },
                Some(x) => {
                    out.push(x);
                },
            }
        }
        i += 1;
    }
    assert(bytes@.take(i as int) =~= bytes@);
    Ok(out)
}

/// The whole bytes of a stream of six-bit values.
pub fn join_sextets(v: &Vec<u8>) -> (r: Vec<u8>)
    requires
        forall|i: int| 0 <= i < v@.len() ==> #[trigger] v@[i] < 64,
    ensures
        r@ == octets(v@),
{
    let n: usize = v.len();
    let mut out: Vec<u8> = Vec::new();
    let mut i: usize = 0;
    while i < n
        invariant
            n == v@.len(),
            i <= n,
            i % 4 == 0 || i == n,
            forall|j: int| 0 <= j < n ==> #[trigger] v@[j] < 64,
            out@ == octets(v@.take(i as int)),
        decreases n - i,
    {
        let left: usize = n - i;
        let ghost before = out@;
        let ghost start = i as int;
        assert(v@[start] < 64);
        if left >= 2 {
            assert(v@[start + 1] < 64);
            out.push(v[i] * 4 + v[i + 1] / 16);
        }
        if left >= 3 {
            assert(v@[start + 2] < 64);
            out.push((v[i + 1] % 16) * 16 + v[i + 2] / 4);
        }
        if left >= 4 {
            assert(v@[start + 3] < 64);
            out.push((v[i + 2] % 4) * 64 + v[i + 3]);
        }
        i = if left >= 4 {
            i + 4
        } else {
            n
        };
        proof {
            lemma_octets_step(v@, start, i as int);
            assert(out@ =~= octets(v@.take(i as int)));
        }
    }
    assert(v@.take(i as int) =~= v@);
    out
}

/// Three more bytes, or what is left of them.
proof fn lemma_octets_step(v: Seq<u8>, from: int, to: int)
    requires
        0 <= from < to <= v.len(),
        from % 4 == 0,
        to == from + 4 || (to == v.len() && to < from + 4),
    ensures
        ({
            let a = octets(v.take(from));
            let b = octets(v.take(to));
            let k = a.len() as int;
            &&& k == 3 * (from / 4)
            &&& b.len() == k + (to - from) - 1
            &&& forall|i: int| 0 <= i < k ==> b[i] == a[i]
            &&& to - from >= 2 ==> b[k] == (v[from] * 4 + v[from + 1] / 16) as u8
            &&& to - from >= 3 ==> b[k + 1] == ((v[from + 1] % 16) * 16 + v[from + 2] / 4) as u8
            &&& to - from >= 4 ==> b[k + 2] == ((v[from + 2] % 4) * 64 + v[from + 3]) as u8
        }),
{
    let a = octets(v.take(from));
    let b = octets(v.take(to));
    let k = a.len() as int;
    assert(k == 3 * (from / 4));
    assert forall|i: int| 0 <= i < k implies b[i] == a[i] by {
        let q = 4 * (i / 3);
        assert(q + 3 < from);
    }
    assert(k / 3 == from / 4 && k % 3 == 0);
    assert((k + 1) / 3 == from / 4 && (k + 1) % 3 == 1);
    assert((k + 2) / 3 == from / 4 && (k + 2) % 3 == 2);
    assert(4 * (from / 4) == from);
}

/// Decodes a text.
pub fn base64_decode(s: &str) -> (r: core::result::Result<Vec<u8>, MimicError>)
    ensures
        match r {
            Ok(v) => decoded_text(s@) == Ok::<Seq<u8>, ErrorView>(v@),
            Err(e) => decoded_text(s@) == Err::<Seq<u8>, ErrorView>(e@),
        },
{
    match read_sextets(s.as_bytes()) {
        Err(b) => Err(bad_byte(b)),
        Ok(v) => {
            proof {
                lemma_sextets_small(encode_utf8(s@));
            }
            Ok(join_sextets(&v))
        },
    }
}

// ---- laws ----

/// The six-bit values that bytes are split into, with zeros behind the last.
pub open spec fn split_octets(b: Seq<u8>) -> Seq<u8> {
    Seq::new(
        (8 * b.len() + 5) / 6,
        |i: int|
            {
                let k = 3 * (i / 4);
                let at = |j: int|
                    if j < b.len() {
                        b[j]
                    } else {
                        0u8
                    };
                if i % 4 == 0 {
                    at(k) / 4
                } else if i % 4 == 1 {
                    ((at(k) % 4) * 16 + at(k + 1) / 16) as u8
                } else if i % 4 == 2 {
                    ((at(k + 1) % 16) * 4 + at(k + 2) / 64) as u8
                } else {
                    at(k + 2) % 64
                }
            },
    )
}

/// Bytes that were split into six-bit values are put together again as they
/// were.
pub proof fn splitting_is_undone(b: Seq<u8>)
    ensures
        octets(split_octets(b)) == b,
{
    let v = split_octets(b);
    let r = octets(v);
    assert(v.len() == (8 * b.len() + 5) / 6);
    assert(r.len() == b.len());
    assert forall|i: int| 0 <= i < b.len() implies r[i] == b[i] by {
        let g = i / 3;
        let q = 4 * g;
        let k = 3 * g;
        assert(q / 4 == g && q % 4 == 0);
        assert((q + 1) / 4 == g && (q + 1) % 4 == 1);
        assert((q + 2) / 4 == g && (q + 2) % 4 == 2);
        assert((q + 3) / 4 == g && (q + 3) % 4 == 3);
        assert(i == k || i == k + 1 || i == k + 2);
        if i == k {
            assert(q + 1 < v.len());
        } else if i == k + 1 {
            assert(q + 2 < v.len());
        } else {
            assert(q + 3 < v.len());
        }
    }
    assert(r =~= b);
}

/// The letter of a six-bit value.
pub open spec fn letter(x: u8) -> u8 {
    if x < 26 {
        (x + 65) as u8
    } else if x < 52 {
        (x + 71) as u8
    } else if x < 62 {
        (x - 4) as u8
    } else if x == 62 {
        43
    } else {
        47
    }
}

/// The standard encoding of bytes: the letters of their six-bit values, and
/// padding up to a multiple of four.
pub open spec fn encoded(b: Seq<u8>) -> Seq<u8> {
    let v = split_octets(b);
    v.map_values(|x: u8| letter(x)) + Seq::new(((4 - v.len() % 4) % 4) as nat, |i: int| 61u8)
}

/// What is left of bytes without padding and white space.
pub open spec fn letters_of(s: Seq<u8>) -> Seq<u8>
    decreases s.len(),
{
    if s.len() == 0 {
        Seq::empty()
    } else if skipped(s.last()) {
        letters_of(s.drop_last())
    } else {
        letters_of(s.drop_last()).push(s.last())
    }
}

/// Reading goes by the letters alone.
proof fn lemma_sextets_of_letters(s: Seq<u8>, v: Seq<u8>)
    requires
        letters_of(s) == v.map_values(|x: u8| letter(x)),
        forall|i: int| 0 <= i < v.len() ==> #[trigger] v[i] < 64,
    ensures
        sextets(s) == Ok::<Seq<u8>, u8>(v),
    decreases s.len(),
{
    let ls = v.map_values(|x: u8| letter(x));
    if s.len() == 0 {
        assert(ls.len() == 0);
        assert(v =~= Seq::<u8>::empty());
    } else if skipped(s.last()) {
        lemma_sextets_of_letters(s.drop_last(), v);
    } else {
        assert(ls.len() > 0);
        let w = v.drop_last();
        assert(ls.last() == s.last());
        assert(v.last() < 64);
        assert(sextet(letter(v.last())) == Some(v.last()));
        assert(w.map_values(|x: u8| letter(x)) =~= ls.drop_last());
        assert(letters_of(s.drop_last()) =~= ls.drop_last());
        assert forall|i: int| 0 <= i < w.len() implies #[trigger] w[i] < 64 by {
            assert(w[i] == v[i]);
        }
        lemma_sextets_of_letters(s.drop_last(), w);
        assert(w.push(v.last()) =~= v);
    }
}

proof fn lemma_letters_kept(s: Seq<u8>)
    requires
        forall|i: int| 0 <= i < s.len() ==> !skipped(#[trigger] s[i]),
    ensures
        letters_of(s) == s,
    decreases s.len(),
{
    if s.len() > 0 {
        let t = s.drop_last();
        assert forall|i: int| 0 <= i < t.len() implies !skipped(#[trigger] t[i]) by {
            assert(t[i] == s[i]);
        }
        lemma_letters_kept(t);
        assert(!skipped(s[s.len() - 1]));
        assert(t.push(s.last()) =~= s);
    } else {
        assert(letters_of(s) =~= s);
    }
}

proof fn lemma_padding_dropped(s: Seq<u8>, n: nat)
    ensures
        letters_of(s + Seq::new(n, |i: int| 61u8)) == letters_of(s),
    decreases n,
{
    let all = s + Seq::new(n, |i: int| 61u8);
    if n > 0 {
        assert(all.drop_last() =~= s + Seq::new((n - 1) as nat, |i: int| 61u8));
        lemma_padding_dropped(s, (n - 1) as nat);
    } else {
        assert(all =~= s);
    }
}

/// Decoding undoes the standard encoding, with its padding or without, and
/// wherever white space stands in it.
pub proof fn decoding_undoes_encoding(b: Seq<u8>, s: Seq<char>)
    requires
        letters_of(encode_utf8(s)) == letters_of(encoded(b)),
    ensures
        decoded_text(s) == Ok::<Seq<u8>, ErrorView>(b),
{
    let v = split_octets(b);
    let ls = v.map_values(|x: u8| letter(x));
    assert forall|i: int| 0 <= i < v.len() implies #[trigger] v[i] < 64 by {}
    assert forall|i: int| 0 <= i < ls.len() implies !skipped(#[trigger] ls[i]) by {
        assert(v[i] < 64);
    }
    lemma_padding_dropped(ls, ((4 - v.len() % 4) % 4) as nat);
    lemma_letters_kept(ls);
    lemma_sextets_of_letters(encode_utf8(s), v);
    splitting_is_undone(b);
}

} // verus!
