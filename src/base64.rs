use vstd::arithmetic::div_mod::lemma_fundamental_div_mod_converse;
use vstd::prelude::*;
use vstd::string::StringSliceAdditionalSpecFns;

use crate::error::DecodeError;

verus! {

/// The padding byte `=`.
pub const PAD: u8 = 61;

/// The alphabet byte for a six-bit value (`A-Z`, `a-z`, `0-9`, `+`, `/`).
pub open spec fn sextet_char(v: u8) -> u8 {
    if v < 26 {
        (v + 65) as u8
    } else if v < 52 {
        (v + 71) as u8
    } else if v < 62 {
        (v - 4) as u8
    } else if v == 62 {
        43
    } else {
        47
    }
}

/// The six-bit value of an alphabet byte; `None` for any other byte.
pub open spec fn char_sextet(c: u8) -> Option<u8> {
    if 65 <= c <= 90 {
        Some((c - 65) as u8)
    } else if 97 <= c <= 122 {
        Some((c - 71) as u8)
    } else if 48 <= c <= 57 {
        Some((c + 4) as u8)
    } else if c == 43 {
        Some(62)
    } else if c == 47 {
        Some(63)
    } else {
        None
    }
}

/// Byte `i` of `b`, or zero past either end.
pub open spec fn byte_at(b: Seq<u8>, i: int) -> u8 {
    if 0 <= i < b.len() {
        b[i]
    } else {
        0
    }
}

/// Length of the encoding of `n` bytes: four characters per started group of three.
pub open spec fn encoded_len(n: nat) -> nat {
    4 * ((n + 2) / 3)
}

/// The four sextets of the group `x0 x1 x2`.
pub open spec fn sextet(x0: u8, x1: u8, x2: u8, t: int) -> u8 {
    if t == 0 {
        x0 >> 2
    } else if t == 1 {
        ((x0 & 3) << 4) | (x1 >> 4)
    } else if t == 2 {
        ((x1 & 15) << 2) | (x2 >> 6)
    } else {
        x2 & 63
    }
}

/// Character `i` of the encoding of `b`, as a byte.
pub open spec fn encoded_byte(b: Seq<u8>, i: int) -> u8 {
    let g = i / 4;
    let t = i % 4;
    if (t == 2 && 3 * g + 1 >= b.len()) || (t == 3 && 3 * g + 2 >= b.len()) {
        PAD
    } else {
        sextet_char(sextet(byte_at(b, 3 * g), byte_at(b, 3 * g + 1), byte_at(b, 3 * g + 2), t))
    }
}

/// The base64 encoding of `b`, padded with `=` to a multiple of four characters.
pub open spec fn encode_spec(b: Seq<u8>) -> Seq<char> {
    Seq::new(encoded_len(b.len()), |i: int| encoded_byte(b, i) as char)
}

fn sextet_to_char(v: u8) -> (r: u8)
    requires
        v < 64,
    ensures
        r == sextet_char(v),
{
    if v < 26 {
        v + 65
    } else if v < 52 {
        v + 71
    } else if v < 62 {
        v - 4
    } else if v == 62 {
        43
    } else {
        47
    }
}

/// Relies on `String::push`: appends one character.
#[verifier::external_body]
fn push_char(s: &mut String, c: char)
    ensures
        final(s)@ == old(s)@.push(c),
{
    s.push(c);
}

proof fn lemma_group_index(g: int, t: int)
    requires
        g >= 0,
        0 <= t < 4,
    ensures
        (4 * g + t) / 4 == g,
        (4 * g + t) % 4 == t,
{
    lemma_fundamental_div_mod_converse(4 * g + t, 4, g, t);
}

/// Base64-encodes `input`.
pub fn encode(input: &[u8]) -> (r: String)
    ensures
        r@ == encode_spec(input@),
{
    let n: usize = input.len();
    let mut out: String = String::new();
    let mut i: usize = 0;
    while i < n
        invariant
            n == input@.len(),
            i % 3 == 0,
            i <= n + 2,
            out@.len() == 4 * (i / 3),
            forall|j: int| 0 <= j < out@.len() ==> #[trigger] out@[j] == encoded_byte(input@, j) as char,
        decreases n + 3 - i,
    {
        let x0: u8 = input[i];
        let x1: u8 = if i + 1 < n { input[i + 1] } else { 0 };
        let x2: u8 = if i + 2 < n { input[i + 2] } else { 0 };
        let ghost g: int = (i / 3) as int;
        let ghost before = out@;
        assert(3 * g == i);
        assert(x0 == byte_at(input@, 3 * g) && x1 == byte_at(input@, 3 * g + 1) && x2 == byte_at(input@, 3 * g + 2));
        assert((x0 >> 2) < 64 && (((x0 & 3) << 4) | (x1 >> 4)) < 64 && (((x1 & 15) << 2) | (x2 >> 6)) < 64 && (x2 & 63) < 64) by (bit_vector);
        let c0: u8 = sextet_to_char(x0 >> 2);
        let c1: u8 = sextet_to_char(((x0 & 3) << 4) | (x1 >> 4));
        let c2: u8 = if i + 1 < n { sextet_to_char(((x1 & 15) << 2) | (x2 >> 6)) } else { PAD };
        let c3: u8 = if i + 2 < n { sextet_to_char(x2 & 63) } else { PAD };
        push_char(&mut out, c0 as char);
        push_char(&mut out, c1 as char);
        push_char(&mut out, c2 as char);
        push_char(&mut out, c3 as char);
        proof {
            lemma_group_index(g, 0);
            lemma_group_index(g, 1);
            lemma_group_index(g, 2);
            lemma_group_index(g, 3);
            assert(out@ == before.push(c0 as char).push(c1 as char).push(c2 as char).push(c3 as char));
            assert forall|j: int| 0 <= j < out@.len() implies #[trigger] out@[j] == encoded_byte(input@, j) as char by {
                if j >= before.len() {
                    assert(j == 4 * g + (j - 4 * g));
                }
            }
        }
        i = i + 3;
    }
    proof {
        let ghost m: int = (n + 2) / 3;
        lemma_fundamental_div_mod_converse(i as int, 3, (i / 3) as int, 0);
        assert(i / 3 == m) by (nonlinear_arith)
            requires i % 3 == 0, i >= n, i <= n + 2, m == (n + 2) / 3, i == 3 * (i / 3);
        assert(out@ =~= encode_spec(input@));
    }
    out
}

/// Byte `i` of `s` may stand there: an alphabet byte anywhere; `=` as the last
/// byte, or as the one before it when the last is `=` too.
pub open spec fn valid_at(s: Seq<u8>, i: int) -> bool {
    let n = s.len() as int;
    char_sextet(s[i]) is Some || (s[i] == PAD && (i == n - 1 || (i == n - 2 && s[n - 1] == PAD)))
}

/// Every byte of `s` may stand where it is.
pub open spec fn is_valid_text(s: Seq<u8>) -> bool {
    forall|i: int| 0 <= i < s.len() ==> #[trigger] valid_at(s, i)
}

/// The number of trailing `=` (at most two).
pub open spec fn pad_count(s: Seq<u8>) -> nat {
    let n = s.len() as int;
    if n >= 1 && s[n - 1] == PAD {
        if n >= 2 && s[n - 2] == PAD {
            2
        } else {
            1
        }
    } else {
        0
    }
}

/// The six-bit value that character `i` of `s` carries; `=` carries zero.
pub open spec fn value_at(s: Seq<u8>, i: int) -> u8 {
    match char_sextet(s[i]) {
        Some(v) => v,
        None => 0,
    }
}

/// The three bytes that the four sextets `v0 v1 v2 v3` carry.
pub open spec fn unpack(v0: u8, v1: u8, v2: u8, v3: u8, r: int) -> u8 {
    if r == 0 {
        (v0 << 2) | (v1 >> 4)
    } else if r == 1 {
        ((v1 & 15) << 4) | (v2 >> 2)
    } else {
        ((v2 & 3) << 6) | v3
    }
}

/// Byte `j` of the decoding of `s`.
pub open spec fn decoded_byte(s: Seq<u8>, j: int) -> u8 {
    let g = j / 3;
    unpack(
        value_at(s, 4 * g),
        value_at(s, 4 * g + 1),
        value_at(s, 4 * g + 2),
        value_at(s, 4 * g + 3),
        j % 3,
    )
}

/// Length of the decoding of a valid text.
pub open spec fn decoded_len(s: Seq<u8>) -> int {
    3 * (s.len() / 4) - pad_count(s)
}

/// Decoding of the text bytes `s`: its length must be a multiple of four and
/// every byte valid where it stands.
pub open spec fn decode_spec(s: Seq<u8>) -> Result<Seq<u8>, DecodeError> {
    if s.len() % 4 != 0 {
        Err(DecodeError::InvalidLength)
    } else if !is_valid_text(s) {
        Err(DecodeError::InvalidCharacter)
    } else {
        Ok(Seq::new(decoded_len(s) as nat, |j: int| decoded_byte(s, j)))
    }
}

/// The six-bit value of an alphabet byte.
fn sextet_of(c: u8) -> (r: Option<u8>)
    ensures
        r == char_sextet(c),
{
    if 65 <= c && c <= 90 {
        Some(c - 65)
    } else if 97 <= c && c <= 122 {
        Some(c - 71)
    } else if 48 <= c && c <= 57 {
        Some(c + 4)
    } else if c == 43 {
        Some(62)
    } else if c == 47 {
        Some(63)
    } else {
        None
    }
}

fn value_of(c: u8) -> (r: u8)
    ensures
        r == (match char_sextet(c) {
            Some(v) => v,
            None => 0,
        }),
{
    match sextet_of(c) {
        Some(v) => v,
        None => 0,
    }
}

/// Base64-decodes `text`.
pub fn decode(text: &str) -> (r: Result<Vec<u8>, DecodeError>)
    ensures
        r is Ok <==> decode_spec(text.spec_bytes()) is Ok,
        r matches Ok(v) ==> decode_spec(text.spec_bytes()) == Ok::<Seq<u8>, DecodeError>(v@),
        r matches Err(e) ==> decode_spec(text.spec_bytes()) == Err::<Seq<u8>, DecodeError>(e),
{
    let s: &[u8] = text.as_bytes();
    let n: usize = s.len();
    if n % 4 != 0 {
        return Err(DecodeError::InvalidLength);
    }
    let mut i: usize = 0;
    while i < n
        invariant
            n == s@.len(),
            s@ == text.spec_bytes(),
            n % 4 == 0,
            i <= n,
            forall|j: int| 0 <= j < i ==> #[trigger] valid_at(s@, j),
        decreases n - i,
    {
        let c: u8 = s[i];
        let ok: bool = match sextet_of(c) {
            Some(_) => true,
            None => c == PAD && (i + 1 == n || (i + 2 == n && s[n - 1] == PAD)),
        };
        if !ok {
            assert(!valid_at(s@, i as int));
            return Err(DecodeError::InvalidCharacter);
        }
        i = i + 1;
    }
    assert(is_valid_text(s@));
    let pads: usize = if n >= 1 && s[n - 1] == PAD {
        if n >= 2 && s[n - 2] == PAD {
            2
        } else {
            1
        }
    } else {
        0
    };
    let total: usize = 3 * (n / 4) - pads;
    let mut out: Vec<u8> = Vec::new();
    let mut k: usize = 0;
    while k < total
        invariant
            n == s@.len(),
            s@ == text.spec_bytes(),
            n % 4 == 0,
            total == decoded_len(s@),
            k <= total,
            out@.len() == k,
            forall|j: int| 0 <= j < k ==> #[trigger] out@[j] == decoded_byte(s@, j),
        decreases total - k,
    {
        let g: usize = k / 3;
        assert(4 * g + 3 < n) by (nonlinear_arith)
            requires g == k / 3, k < total, total <= 3 * (n / 4), n % 4 == 0;
        let v0: u8 = value_of(s[4 * g]);
        let v1: u8 = value_of(s[4 * g + 1]);
        let v2: u8 = value_of(s[4 * g + 2]);
        let v3: u8 = value_of(s[4 * g + 3]);
        let x: u8 = if k % 3 == 0 {
            (v0 << 2) | (v1 >> 4)
        } else if k % 3 == 1 {
            ((v1 & 15) << 4) | (v2 >> 2)
        } else {
            ((v2 & 3) << 6) | v3
        };
        out.push(x);
        k = k + 1;
    }
    assert(out@ =~= Seq::new(decoded_len(s@) as nat, |j: int| decoded_byte(s@, j)));
    Ok(out)
}

proof fn lemma_sextet_char(v: u8)
    requires
        v < 64,
    ensures
        char_sextet(sextet_char(v)) == Some(v),
        sextet_char(v) != PAD,
        sextet_char(v) < 128,
{
}

proof fn lemma_sextets_unpack(x0: u8, x1: u8, x2: u8)
    ensures
        sextet(x0, x1, x2, 0) < 64,
        sextet(x0, x1, x2, 1) < 64,
        sextet(x0, x1, x2, 2) < 64,
        sextet(x0, x1, x2, 3) < 64,
        (sextet(x0, x1, x2, 0) << 2) | (sextet(x0, x1, x2, 1) >> 4) == x0,
        ((sextet(x0, x1, x2, 1) & 15) << 4) | (sextet(x0, x1, x2, 2) >> 2) == x1,
        ((sextet(x0, x1, x2, 2) & 3) << 6) | sextet(x0, x1, x2, 3) == x2,
{
    assert((x0 >> 2) < 64 && (((x0 & 3) << 4) | (x1 >> 4)) < 64 && (((x1 & 15) << 2) | (x2 >> 6))
        < 64 && (x2 & 63) < 64) by (bit_vector);
    assert(((x0 >> 2) << 2) | ((((x0 & 3) << 4) | (x1 >> 4)) >> 4) == x0) by (bit_vector);
    assert((((((x0 & 3) << 4) | (x1 >> 4)) & 15) << 4) | ((((x1 & 15) << 2) | (x2 >> 6)) >> 2)
        == x1) by (bit_vector);
    assert((((((x1 & 15) << 2) | (x2 >> 6)) & 3) << 6) | (x2 & 63) == x2) by (bit_vector);
}

/// The encoding of `b` as bytes.
pub open spec fn encoded_bytes(b: Seq<u8>) -> Seq<u8> {
    Seq::new(encoded_len(b.len()), |i: int| encoded_byte(b, i))
}

/// Facts on the shape of the encoding: every character is ASCII, and `=`
/// stands only in the last two places, as many as the last group lacks.
proof fn lemma_encoded_shape(b: Seq<u8>, i: int)
    requires
        0 <= i < encoded_len(b.len()),
    ensures
        encoded_byte(b, i) < 128,
        encoded_byte(b, i) == PAD <==> (i == encoded_len(b.len()) - 1 && b.len() % 3 != 0) || (
        i == encoded_len(b.len()) - 2 && b.len() % 3 == 1),
        encoded_byte(b, i) != PAD ==> char_sextet(encoded_byte(b, i)) == Some(
            sextet(
                byte_at(b, 3 * (i / 4)),
                byte_at(b, 3 * (i / 4) + 1),
                byte_at(b, 3 * (i / 4) + 2),
                i % 4,
            ),
        ),
{
    let n = b.len() as int;
    let big_g = (n + 2) / 3;
    let g = i / 4;
    let t = i % 4;
    lemma_fundamental_div_mod_converse(n + 2, 3, big_g, (n + 2) % 3);
    lemma_fundamental_div_mod_converse(n, 3, n / 3, n % 3);
    lemma_fundamental_div_mod_converse(i, 4, g, t);
    let (x0, x1, x2) = (byte_at(b, 3 * g), byte_at(b, 3 * g + 1), byte_at(b, 3 * g + 2));
    lemma_sextets_unpack(x0, x1, x2);
    lemma_sextet_char(sextet(x0, x1, x2, t));
}

/// Decoding the encoding of any byte sequence gives that sequence back: for a
/// text whose characters are those of `encode(b)`, `decode` returns `b`.
pub proof fn lemma_round_trip(b: Seq<u8>, text: &str)
    requires
        text@ == encode_spec(b),
    ensures
        decode_spec(text.spec_bytes()) == Ok::<Seq<u8>, DecodeError>(b),
{
    let e = encoded_bytes(b);
    let len = encoded_len(b.len());
    let n = b.len() as int;
    let big_g = (n + 2) / 3;
    lemma_fundamental_div_mod_converse(n + 2, 3, big_g, (n + 2) % 3);
    lemma_fundamental_div_mod_converse(n, 3, n / 3, n % 3);
    assert forall|i: int| 0 <= i < len implies #[trigger] encoded_byte(b, i) < 128 by {
        lemma_encoded_shape(b, i);
    }
    assert(vstd::string::is_ascii(text));
    vstd::string::is_ascii_spec_bytes(text);
    assert(text.spec_bytes() =~= e);
    lemma_fundamental_div_mod_converse(len as int, 4, big_g, 0);
    assert forall|i: int| 0 <= i < e.len() implies #[trigger] valid_at(e, i) by {
        lemma_encoded_shape(b, i);
        if e[i] == PAD && i == len - 2 {
            lemma_encoded_shape(b, len - 1);
        }
    }
    if len >= 1 {
        lemma_encoded_shape(b, len - 1);
    }
    if len >= 2 {
        lemma_encoded_shape(b, len - 2);
    }
    assert(decoded_len(e) == n);
    assert forall|j: int| 0 <= j < n implies #[trigger] decoded_byte(e, j) == b[j] by {
        let g = j / 3;
        let r = j % 3;
        lemma_fundamental_div_mod_converse(j, 3, g, r);
        lemma_group_index_all(g);
        assert(4 * g + 3 < len);
        lemma_encoded_shape(b, 4 * g);
        lemma_encoded_shape(b, 4 * g + 1);
        lemma_encoded_shape(b, 4 * g + 2);
        lemma_encoded_shape(b, 4 * g + 3);
        let (x0, x1, x2) = (byte_at(b, 3 * g), byte_at(b, 3 * g + 1), byte_at(b, 3 * g + 2));
        lemma_sextets_unpack(x0, x1, x2);
    }
    assert(Seq::new(decoded_len(e) as nat, |j: int| decoded_byte(e, j)) =~= b);
}

proof fn lemma_group_index_all(g: int)
    requires
        g >= 0,
    ensures
        forall|t: int| 0 <= t < 4 ==> (#[trigger] (4 * g + t)) / 4 == g && (4 * g + t) % 4 == t,
{
    assert forall|t: int| 0 <= t < 4 implies (#[trigger] (4 * g + t)) / 4 == g && (4 * g + t) % 4
        == t by {
        lemma_group_index(g, t);
    }
}

/// The number of `=` at the end of `s`.
pub open spec fn trailing_pads(s: Seq<char>) -> nat
    decreases s.len(),
{
    if s.len() > 0 && s.last() == '=' {
        1 + trailing_pads(s.drop_last())
    } else {
        0
    }
}

/// An encoding fills whole groups of four characters, and ends in as many `=`
/// as the last group of three bytes lacks.
pub proof fn lemma_padding(b: Seq<u8>)
    ensures
        encode_spec(b).len() % 4 == 0,
        trailing_pads(encode_spec(b)) == (3 - b.len() % 3) % 3,
{
    let s = encode_spec(b);
    let len = encoded_len(b.len()) as int;
    let n = b.len() as int;
    let big_g = (n + 2) / 3;
    lemma_fundamental_div_mod_converse(n + 2, 3, big_g, (n + 2) % 3);
    lemma_fundamental_div_mod_converse(n, 3, n / 3, n % 3);
    lemma_fundamental_div_mod_converse(len, 4, big_g, 0);
    assert(PAD as char == '=');
    reveal_with_fuel(trailing_pads, 4);
    if len >= 1 {
        lemma_encoded_shape(b, len - 1);
    }
    if len >= 2 {
        lemma_encoded_shape(b, len - 2);
    }
    if len >= 3 {
        lemma_encoded_shape(b, len - 3);
    }
    let s1 = s.drop_last();
    let s2 = s1.drop_last();
    if n % 3 == 0 {
        assert(n == 0 || s[len - 1] != '=');
    } else if n % 3 == 1 {
        assert(s[len - 1] == '=');
        assert(s1.last() == '=');
        assert(s2.last() != '=');
    } else {
        assert(s[len - 1] == '=');
        assert(s1.last() != '=');
    }
}

} // verus!
