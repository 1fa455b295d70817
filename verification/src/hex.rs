use vstd::prelude::*;
use vstd::string::StringSliceAdditionalSpecFns;
use vstd::utf8::{encode_utf8, is_ascii_chars, is_ascii_chars_encode_utf8, is_char_boundary};

verus! {

/// The lowercase hex digit of a nibble (`0 <= n < 16`).
pub open spec fn hex_char(n: int) -> char {
    if n < 10 { (48 + n) as char } else { (87 + n) as char }
}

/// The `i`-th nibble of `bytes`, most significant nibble of each byte first.
pub open spec fn nibble(bytes: Seq<u8>, i: int) -> int {
    if i % 2 == 0 { (bytes[i / 2] / 16) as int } else { (bytes[i / 2] % 16) as int }
}

/// Lowercase hex encoding: two digits per byte.
pub open spec fn spec_encode(bytes: Seq<u8>) -> Seq<char> {
    Seq::new(2 * bytes.len(), |i: int| hex_char(nibble(bytes, i)))
}

/// The hex encoding as ASCII bytes.
pub open spec fn hex_ascii(bytes: Seq<u8>) -> Seq<u8> {
    spec_encode(bytes).map_values(|c: char| c as u8)
}

/// Whether the hex encoding of `bytes` starts with `prefix`.
pub open spec fn hex_starts_with(bytes: Seq<u8>, prefix: Seq<u8>) -> bool {
    prefix.len() <= hex_ascii(bytes).len() && hex_ascii(bytes).take(prefix.len() as int) == prefix
}

/// The value of one hex digit (either case), as `u8::from_str_radix` reads it.
pub open spec fn digit_value(c: u8) -> Option<u8> {
    if 48 <= c <= 57 {
        Some((c - 48) as u8)
    } else if 97 <= c <= 102 {
        Some((c - 87) as u8)
    } else if 65 <= c <= 70 {
        Some((c - 55) as u8)
    } else {
        None
    }
}

/// The byte that `u8::from_str_radix(pair, 16)` reads from a two-byte string:
/// two hex digits, or a `+` sign followed by one hex digit.
pub open spec fn pair_value(hi: u8, lo: u8) -> Option<u8> {
    match (digit_value(hi), digit_value(lo)) {
        (Some(h), Some(l)) => Some((h * 16 + l) as u8),
        (None, Some(l)) => if hi == 43 { Some(l) } else { None },
        _ => None,
    }
}

/// Hex decoding: `None` for an odd length or for any pair that is not a byte.
pub open spec fn spec_hex_decode(s: Seq<u8>) -> Option<Seq<u8>>
    decreases s.len(),
{
    if s.len() == 0 {
        Some(Seq::empty())
    } else if s.len() == 1 {
        None
    } else {
        match spec_hex_decode(s.take(s.len() - 2)) {
            None => None,
            Some(prefix) => match pair_value(s[s.len() - 2], s[s.len() - 1]) {
                None => None,
                Some(b) => Some(prefix.push(b)),
            },
        }
    }
}

/// Whether decoding `s` (the UTF-8 bytes of a string) slices the string inside a
/// character: the first pair that is not a byte ends inside a multi-byte character.
pub open spec fn hex_decode_panics(s: Seq<u8>) -> bool {
    &&& s.len() % 2 == 0
    &&& exists|i: int|
        #![trigger s.take(i)]
        0 <= i < s.len() && i % 2 == 0 && spec_hex_decode(s.take(i)) is Some && pair_value(s[i], s[i + 1]) is None
            && !is_char_boundary(s, i + 2)
}

/// `String::push`: appends one character.
#[verifier::external_body]
fn push_char(s: &mut String, c: char)
    ensures
        final(s)@ == old(s)@.push(c),
{
    s.push(c);
}

fn hex_digit(n: u8) -> (c: char)
    requires
        n < 16,
    ensures
        c == hex_char(n as int),
{
    if n < 10 {
        (48 + n) as char
    } else {
        (87 + n) as char
    }
}

fn hex_digit_ascii(n: u8) -> (c: u8)
    requires
        n < 16,
    ensures
        c == hex_char(n as int) as u8,
{
    if n < 10 {
        48 + n
    } else {
        87 + n
    }
}

/// Whether the lowercase hex encoding of `bytes` starts with `prefix`.
pub fn hex_has_prefix(bytes: &[u8], prefix: &[u8]) -> (r: bool)
    ensures
        r == hex_starts_with(bytes@, prefix@),
{
    let n = bytes.len();
    let p = prefix.len();
    if p > n && p - n > n {
        return false;
    }
    let ghost hex = hex_ascii(bytes@);
    for j in 0..p
        invariant
            n == bytes@.len(),
            p == prefix@.len(),
            p <= 2 * n,
            hex == hex_ascii(bytes@),
            forall|i: int| 0 <= i < j ==> hex[i] == prefix@[i],
    {
        let b = bytes[j / 2];
        let d = if j % 2 == 0 { hex_digit_ascii(b / 16) } else { hex_digit_ascii(b % 16) };
        assert(d == hex[j as int]);
        if d != prefix[j] {
            assert(hex.take(p as int)[j as int] != prefix@[j as int]);
            return false;
        }
    }
    assert(hex.take(p as int) =~= prefix@);
    true
}

/// Lowercase hex encoding of `bytes`.
pub fn encode(bytes: &[u8]) -> (s: String)
    ensures
        s@ == spec_encode(bytes@),
{
    let mut s = String::new();
    let n = bytes.len();
    for i in 0..n
        invariant
            n == bytes@.len(),
            s@ == spec_encode(bytes@.take(i as int)),
    {
        let b = bytes[i];
        let ghost prev = s@;
        push_char(&mut s, hex_digit(b / 16));
        push_char(&mut s, hex_digit(b % 16));
        assert(s@ =~= spec_encode(bytes@.take(i + 1)));
    }
    assert(bytes@.take(n as int) =~= bytes@);
    s
}

fn digit(c: u8) -> (r: Option<u8>)
    ensures
        r == digit_value(c),
{
    if 48 <= c && c <= 57 {
        Some(c - 48)
    } else if 97 <= c && c <= 102 {
        Some(c - 87)
    } else if 65 <= c && c <= 70 {
        Some(c - 55)
    } else {
        None
    }
}

fn pair(hi: u8, lo: u8) -> (r: Option<u8>)
    ensures
        r == pair_value(hi, lo),
{
    match (digit(hi), digit(lo)) {
        (Some(h), Some(l)) => Some(h * 16 + l),
        (None, Some(l)) => if hi == 43 { Some(l) } else { None },
        _ => None,
    }
}

proof fn lemma_odd_length_fails(s: Seq<u8>)
    requires
        s.len() % 2 == 1,
    ensures
        spec_hex_decode(s) is None,
    decreases s.len(),
{
    if s.len() > 1 {
        lemma_odd_length_fails(s.take(s.len() - 2));
    }
}

proof fn lemma_failed_prefix_fails(s: Seq<u8>, i: int)
    requires
        0 <= i <= s.len(),
        i % 2 == 0,
        s.len() % 2 == 0,
        spec_hex_decode(s.take(i)) is None,
    ensures
        spec_hex_decode(s) is None,
    decreases s.len(),
{
    if i == s.len() {
        assert(s.take(i) =~= s);
    } else {
        let t = s.take(s.len() - 2);
        assert(t.take(i) =~= s.take(i));
        lemma_failed_prefix_fails(t, i);
    }
}

proof fn lemma_decode_step(s: Seq<u8>, i: int)
    requires
        0 <= i,
        i + 2 <= s.len(),
        i % 2 == 0,
    ensures
        spec_hex_decode(s.take(i + 2)) == match spec_hex_decode(s.take(i)) {
            None => None,
            Some(p) => match pair_value(s[i], s[i + 1]) {
                None => None,
                Some(b) => Some(p.push(b)),
            },
        },
{
    let t = s.take(i + 2);
    assert(t.take(i) =~= s.take(i));
}

/// Hex decoding of `s`, two digits per byte; `None` on an odd length or on a pair
/// that is not a byte.
pub fn hex_decode(s: &str) -> (r: Option<Vec<u8>>)
    requires
        !hex_decode_panics(s.spec_bytes()),
    ensures
        match r {
            Some(v) => spec_hex_decode(s.spec_bytes()) == Some(v@),
            None => spec_hex_decode(s.spec_bytes()) is None,
        },
{
    let b = s.as_bytes();
    let n = b.len();
    if n % 2 != 0 {
        proof { lemma_odd_length_fails(b@); }
        return None;
    }
    let mut out: Vec<u8> = Vec::new();
    let mut i: usize = 0;
    assert(b@.take(0) =~= Seq::<u8>::empty());
    while i < n
        invariant
            n == b@.len(),
            b@ == s.spec_bytes(),
            n % 2 == 0,
            i % 2 == 0,
            i <= n,
            spec_hex_decode(b@.take(i as int)) == Some(out@),
        decreases n - i,
    {
        proof { lemma_decode_step(b@, i as int); }
        match pair(b[i], b[i + 1]) {
            Some(v) => {
                out.push(v);
            },
            None => {
                proof { lemma_failed_prefix_fails(b@, i + 2); }
                return None;
            },
        }
        i = i + 2;
    }
    assert(b@.take(n as int) =~= b@);
    Some(out)
}

/// Whether `hex_decode` would slice `s` inside a character (see `hex_decode_panics`).
pub fn slices_inside_char(s: &str) -> (p: bool)
    ensures
        p == hex_decode_panics(s.spec_bytes()),
{
    let b = s.as_bytes();
    let n = b.len();
    if n % 2 != 0 {
        return false;
    }
    let mut i: usize = 0;
    assert(b@.take(0) =~= Seq::<u8>::empty());
    while i < n
        invariant
            n == b@.len(),
            b@ == s.spec_bytes(),
            n % 2 == 0,
            i % 2 == 0,
            i <= n,
            spec_hex_decode(b@.take(i as int)) is Some,
            forall|j: int| 0 <= j < i && j % 2 == 0 ==> spec_hex_decode(#[trigger] b@.take(j)) is Some
                && pair_value(b@[j], b@[j + 1]) is Some,
        decreases n - i,
    {
        proof { lemma_decode_step(b@, i as int); }
        if pair(b[i], b[i + 1]).is_none() {
            let p = !s.is_char_boundary(i + 2);
            proof {
                let ii = i as int;
                assert(spec_hex_decode(b@.take(ii)) is Some);
                if !p {
                    assert forall|j: int|
                        #![trigger b@.take(j)]
                        0 <= j < b@.len() && j % 2 == 0 && spec_hex_decode(b@.take(j)) is Some
                            && pair_value(b@[j], b@[j + 1]) is None implies is_char_boundary(b@, j + 2) by {
                        if j < ii {
                        } else if j > ii {
                            lemma_decode_step(b@, ii);
                            lemma_failed_prefix_fails(b@.take(j), ii + 2);
                            assert(b@.take(j).take(ii + 2) =~= b@.take(ii + 2));
                        }
                    }
                }
            }
            return p;
        }
        i = i + 2;
    }
    false
}

/// A string that decodes is never sliced inside a character.
pub proof fn lemma_decoded_never_panics(s: Seq<u8>)
    requires
        spec_hex_decode(s) is Some,
    ensures
        !hex_decode_panics(s),
{
    if hex_decode_panics(s) {
        let i = choose|i: int|
            #![trigger s.take(i)]
            0 <= i < s.len() && i % 2 == 0 && spec_hex_decode(s.take(i)) is Some && pair_value(s[i], s[i + 1]) is None
                && !is_char_boundary(s, i + 2);
        lemma_decode_step(s, i);
        lemma_failed_prefix_fails(s, i + 2);
    }
}

proof fn lemma_hex_char_digit(n: int)
    requires
        0 <= n < 16,
    ensures
        digit_value(hex_char(n) as u8) == Some(n as u8),
        '\0' <= hex_char(n) <= '\u{7f}',
{
}

proof fn lemma_byte_nibbles(b: u8)
    ensures
        (b / 16) * 16 + b % 16 == b,
        b / 16 < 16,
        b % 16 < 16,
{
    assert((b / 16) * 16 + b % 16 == b) by (bit_vector);
    assert(b / 16 < 16) by (bit_vector);
}

proof fn lemma_encoded_pair(bytes: Seq<u8>, s: Seq<u8>, j: int)
    requires
        0 <= j < bytes.len(),
        s.len() == 2 * bytes.len(),
        forall|i: int| 0 <= i < s.len() ==> s[i] == #[trigger] spec_encode(bytes)[i] as u8,
    ensures
        pair_value(s[2 * j], s[2 * j + 1]) == Some(bytes[j]),
{
    let b = bytes[j];
    assert((2 * j) / 2 == j);
    assert((2 * j + 1) / 2 == j);
    assert((2 * j) % 2 == 0);
    assert((2 * j + 1) % 2 == 1);
    lemma_byte_nibbles(b);
    assert(spec_encode(bytes)[2 * j] == hex_char((b / 16) as int));
    assert(spec_encode(bytes)[2 * j + 1] == hex_char((b % 16) as int));
    lemma_hex_char_digit((b / 16) as int);
    lemma_hex_char_digit((b % 16) as int);
}

/// Decoding the hex encoding of any bytes gives those bytes back, and never
/// slices inside a character.
pub proof fn lemma_decode_encode(bytes: Seq<u8>)
    ensures
        spec_hex_decode(encode_utf8(spec_encode(bytes))) == Some(bytes),
        !hex_decode_panics(encode_utf8(spec_encode(bytes))),
{
    let chars = spec_encode(bytes);
    assert forall|i: int| 0 <= i < chars.len() implies '\0' <= #[trigger] chars[i] <= '\u{7f}' by {
        lemma_byte_nibbles(bytes[i / 2]);
        lemma_hex_char_digit(nibble(bytes, i));
    }
    assert(is_ascii_chars(chars));
    is_ascii_chars_encode_utf8(chars);
    let s = encode_utf8(chars);
    assert forall|j: int| 0 <= j < bytes.len() implies pair_value(s[2 * j], s[2 * j + 1]) == Some(bytes[j]) by {
        lemma_encoded_pair(bytes, s, j);
    }
    lemma_decode_prefixes(s, bytes, bytes.len() as int);
    assert(s.take(s.len() as int) =~= s);
    assert(bytes.take(bytes.len() as int) =~= bytes);
    if hex_decode_panics(s) {
        let i = choose|i: int|
            #![trigger s.take(i)]
            0 <= i < s.len() && i % 2 == 0 && spec_hex_decode(s.take(i)) is Some && pair_value(s[i], s[i + 1]) is None
                && !is_char_boundary(s, i + 2);
        assert(2 * (i / 2) == i);
        lemma_encoded_pair(bytes, s, i / 2);
    }
}

/// The UTF-8 bytes of the hex encoding are its ASCII bytes.
pub proof fn lemma_hex_ascii_is_utf8(bytes: Seq<u8>)
    ensures
        encode_utf8(spec_encode(bytes)) == hex_ascii(bytes),
{
    let chars = spec_encode(bytes);
    assert forall|i: int| 0 <= i < chars.len() implies '\0' <= #[trigger] chars[i] <= '\u{7f}' by {
        lemma_byte_nibbles(bytes[i / 2]);
        lemma_hex_char_digit(nibble(bytes, i));
    }
    is_ascii_chars_encode_utf8(chars);
    assert(encode_utf8(chars) =~= hex_ascii(bytes));
}

/// An ASCII hex digit in lowercase.
pub open spec fn ascii_lower(c: u8) -> u8 {
    if 65 <= c <= 70 { (c + 32) as u8 } else { c }
}

/// Whether every byte is an ASCII hex digit (either case).
pub open spec fn all_hex_digits(s: Seq<u8>) -> bool {
    forall|i: int| 0 <= i < s.len() ==> (#[trigger] digit_value(s[i])) is Some
}

proof fn lemma_digit_roundtrip(c: u8)
    requires
        digit_value(c) is Some,
    ensures
        hex_char(digit_value(c).unwrap() as int) as u8 == ascii_lower(c),
{
}

proof fn lemma_pair_nibbles(h: u8, l: u8)
    requires
        h < 16,
        l < 16,
    ensures
        ((h * 16 + l) as u8) / 16 == h,
        ((h * 16 + l) as u8) % 16 == l,
{
    assert(((h * 16 + l) as u8) / 16 == h && ((h * 16 + l) as u8) % 16 == l) by (bit_vector)
        requires
            h < 16,
            l < 16,
    ;
}

/// Decoding hex digits (either case) and encoding the bytes again gives the
/// digits in lowercase.
pub proof fn law_encode_decoded(s: Seq<u8>)
    requires
        s.len() % 2 == 0,
        all_hex_digits(s),
    ensures
        spec_hex_decode(s) is Some,
        hex_ascii(spec_hex_decode(s).unwrap()) == s.map_values(|c: u8| ascii_lower(c)),
    decreases s.len(),
{
    if s.len() > 0 {
        let t = s.take(s.len() - 2);
        assert(all_hex_digits(t)) by {
            assert forall|i: int| 0 <= i < t.len() implies (#[trigger] digit_value(t[i])) is Some by {
                assert(t[i] == s[i]);
            }
        }
        law_encode_decoded(t);
        let p = spec_hex_decode(t).unwrap();
        let hi = s[s.len() - 2];
        let lo = s[s.len() - 1];
        assert(digit_value(hi) is Some && digit_value(lo) is Some);
        let h = digit_value(hi).unwrap();
        let l = digit_value(lo).unwrap();
        let v = (h * 16 + l) as u8;
        assert(pair_value(hi, lo) == Some(v));
        lemma_pair_nibbles(h, l);
        lemma_digit_roundtrip(hi);
        lemma_digit_roundtrip(lo);
        let q = p.push(v);
        assert(spec_hex_decode(s) == Some(q));
        assert forall|i: int| 0 <= i < 2 * p.len() implies #[trigger] nibble(q, i) == nibble(p, i) by {
            assert(q[i / 2] == p[i / 2]);
        }
        assert(nibble(q, 2 * p.len() as int) == h as int) by {
            assert((2 * p.len()) / 2 == p.len());
        }
        assert(nibble(q, 2 * p.len() as int + 1) == l as int) by {
            assert((2 * p.len() as int + 1) / 2 == p.len());
            assert((2 * p.len() as int + 1) % 2 == 1);
        }
        assert(hex_ascii(q) =~= s.map_values(|c: u8| ascii_lower(c))) by {
            assert(hex_ascii(p).len() == t.len());
            assert(2 * p.len() == t.len());
            assert(q.len() == p.len() + 1);
            assert(hex_ascii(q).len() == s.len());
            assert forall|i: int| 0 <= i < s.len() implies #[trigger] hex_ascii(q)[i] == ascii_lower(s[i]) by {
                if i < t.len() {
                    assert(hex_ascii(p)[i] == ascii_lower(t[i]));
                    assert(nibble(q, i) == nibble(p, i));
                    assert(t[i] == s[i]);
                } else if i == t.len() {
                    assert(s[i] == hi);
                } else {
                    assert(i == 2 * p.len() + 1);
                    assert(s[i] == lo);
                }
            }
        }
    } else {
        assert(hex_ascii(Seq::<u8>::empty()) =~= s.map_values(|c: u8| ascii_lower(c)));
    }
}

proof fn lemma_decode_prefixes(s: Seq<u8>, bytes: Seq<u8>, k: int)
    requires
        s.len() == 2 * bytes.len(),
        0 <= k <= bytes.len(),
        forall|j: int| 0 <= j < bytes.len() ==> pair_value(s[2 * j], s[2 * j + 1]) == Some(bytes[j]),
    ensures
        spec_hex_decode(s.take(2 * k)) == Some(bytes.take(k)),
    decreases k,
{
    if k == 0 {
        assert(s.take(0) =~= Seq::<u8>::empty());
        assert(bytes.take(0) =~= Seq::<u8>::empty());
    } else {
        lemma_decode_prefixes(s, bytes, k - 1);
        lemma_decode_step(s, 2 * (k - 1));
        assert(bytes.take(k - 1).push(bytes[k - 1]) =~= bytes.take(k));
    }
}

/// The sixteen hex digits, lowercase.
pub open spec fn lower_hex_alphabet() -> Seq<char> {
    seq!['0', '1', '2', '3', '4', '5', '6', '7', '8', '9', 'a', 'b', 'c', 'd', 'e', 'f']
}

/// The sixteen hex digits, uppercase.
pub open spec fn upper_hex_alphabet() -> Seq<char> {
    seq!['0', '1', '2', '3', '4', '5', '6', '7', '8', '9', 'A', 'B', 'C', 'D', 'E', 'F']
}

/// The hex digits have their standard values: digit `n` is written as the
/// `n`-th character of "0123456789abcdef", and reading that character, or the
/// `n`-th character of "0123456789ABCDEF", gives `n` back.
pub proof fn law_hex_digits(n: u8)
    requires
        n < 16,
    ensures
        hex_char(n as int) == lower_hex_alphabet()[n as int],
        digit_value(lower_hex_alphabet()[n as int] as u8) == Some(n),
        digit_value(upper_hex_alphabet()[n as int] as u8) == Some(n),
{
    if n == 0 {
    } else if n == 1 {
    } else if n == 2 {
    } else if n == 3 {
    } else if n == 4 {
    } else if n == 5 {
    } else if n == 6 {
    } else if n == 7 {
    } else if n == 8 {
    } else if n == 9 {
    } else if n == 10 {
    } else if n == 11 {
    } else if n == 12 {
    } else if n == 13 {
    } else if n == 14 {
    } else {
    }
}

/// Encoding writes each byte as two characters of "0123456789abcdef": the one
/// at its high nibble, then the one at its low nibble.
pub proof fn law_encode_digits(bytes: Seq<u8>, i: int)
    requires
        0 <= i < bytes.len(),
    ensures
        spec_encode(bytes).len() == 2 * bytes.len(),
        spec_encode(bytes)[2 * i] == lower_hex_alphabet()[(bytes[i] / 16) as int],
        spec_encode(bytes)[2 * i + 1] == lower_hex_alphabet()[(bytes[i] % 16) as int],
{
    let b = bytes[i];
    assert((2 * i) / 2 == i);
    assert((2 * i + 1) / 2 == i);
    assert((2 * i) % 2 == 0);
    assert((2 * i + 1) % 2 == 1);
    lemma_byte_nibbles(b);
    law_hex_digits(b / 16);
    law_hex_digits(b % 16);
}

/// The hex of `bytes` starts with `prefix` exactly when the prefix is no longer
/// than the hex and each of its characters is the digit, in
/// "0123456789abcdef", of the matching nibble: the high nibble of byte `i / 2`
/// at an even position `i`, its low nibble at an odd one.
pub proof fn law_hex_prefix_digits(bytes: Seq<u8>, prefix: Seq<u8>)
    ensures
        hex_starts_with(bytes, prefix) <==> prefix.len() <= 2 * bytes.len() && forall|i: int|
            0 <= i < prefix.len() ==> #[trigger] prefix[i] == lower_hex_alphabet()[if i % 2 == 0 {
                bytes[i / 2] / 16
            } else {
                bytes[i / 2] % 16
            } as int] as u8,
{
    let hex = hex_ascii(bytes);
    assert forall|i: int| 0 <= i < 2 * bytes.len() implies #[trigger] hex[i] == lower_hex_alphabet()[if i % 2
        == 0 {
        bytes[i / 2] / 16
    } else {
        bytes[i / 2] % 16
    } as int] as u8 by {
        lemma_byte_nibbles(bytes[i / 2]);
        law_hex_digits(bytes[i / 2] / 16);
        law_hex_digits(bytes[i / 2] % 16);
    }
    if prefix.len() <= 2 * bytes.len() {
        if hex_starts_with(bytes, prefix) {
            assert forall|i: int| 0 <= i < prefix.len() implies #[trigger] prefix[i] == lower_hex_alphabet()[if i % 2
                == 0 {
                bytes[i / 2] / 16
            } else {
                bytes[i / 2] % 16
            } as int] as u8 by {
                assert(hex.take(prefix.len() as int)[i] == hex[i]);
            }
        }
        if forall|i: int| 0 <= i < prefix.len() ==> #[trigger] prefix[i] == lower_hex_alphabet()[if i % 2 == 0 {
            bytes[i / 2] / 16
        } else {
            bytes[i / 2] % 16
        } as int] as u8 {
            assert(hex.take(prefix.len() as int) =~= prefix);
        }
    }
}

/// The bytes read as hex digits are exactly the sixteen digits of either case.
pub proof fn law_only_hex_digits(c: u8)
    ensures
        digit_value(c) is Some <==> exists|n: int|
            0 <= n < 16 && (#[trigger] lower_hex_alphabet()[n] as u8 == c || upper_hex_alphabet()[n] as u8 == c),
{
    if digit_value(c) is Some {
        let n = digit_value(c).unwrap();
        lemma_digit_roundtrip(c);
        law_hex_digits(n);
        if 65 <= c <= 70 {
            if c == 65 {
            assert(upper_hex_alphabet()[10] as u8 == c);
        } else if c == 66 {
            assert(upper_hex_alphabet()[11] as u8 == c);
        } else if c == 67 {
            assert(upper_hex_alphabet()[12] as u8 == c);
        } else if c == 68 {
            assert(upper_hex_alphabet()[13] as u8 == c);
        } else if c == 69 {
            assert(upper_hex_alphabet()[14] as u8 == c);
        } else if c == 70 {
            assert(upper_hex_alphabet()[15] as u8 == c);
        }
        } else {
            assert(lower_hex_alphabet()[n as int] as u8 == c);
        }
    }
    if exists|n: int| 0 <= n < 16 && (#[trigger] lower_hex_alphabet()[n] as u8 == c || upper_hex_alphabet()[n] as u8 == c) {
        let n = choose|n: int|
            0 <= n < 16 && (#[trigger] lower_hex_alphabet()[n] as u8 == c || upper_hex_alphabet()[n] as u8 == c);
        law_hex_digits(n as u8);
    }
}

} // verus!
