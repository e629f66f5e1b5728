use itertools::Itertools;
use vstd::prelude::*;
use vstd::utf8::{decode_utf8, valid_utf8};

verus! {

/// Why a text could not be turned into bytes, or bytes into text.
#[derive(Clone, Copy, Debug, PartialEq, Eq, Hash)]
pub enum CodecError {
    /// The first character that is not in the alphabet.
    InvalidCharacter(char),
    /// A hexadecimal text with an odd number of digits.
    OddLength,
    /// A Base64 text whose symbols, padding left out, number one more than a multiple of four.
    DanglingCharacter,
    /// Bytes that are not valid UTF-8.
    NonTextDecryption,
}

// ---------------------------------------------------------------- alphabets

/// The value of an ASCII hexadecimal digit, in either case.
pub open spec fn hex_value(c: char) -> Option<u8> {
    let n = c as u32;
    if 48 <= n <= 57 {
        Some((n - 48) as u8)
    } else if 97 <= n <= 102 {
        Some((n - 87) as u8)
    } else if 65 <= n <= 70 {
        Some((n - 55) as u8)
    } else {
        None
    }
}

/// The upper-case hexadecimal digit for a value below 16.
pub open spec fn hex_digit(n: u8) -> char {
    if n < 10 {
        (n + 48) as u8 as char
    } else {
        (n + 55) as u8 as char
    }
}

/// The value of a symbol of the standard Base64 alphabet.
pub open spec fn base64_value(c: char) -> Option<u8> {
    let n = c as u32;
    if 65 <= n <= 90 {
        Some((n - 65) as u8)
    } else if 97 <= n <= 122 {
        Some((n - 71) as u8)
    } else if 48 <= n <= 57 {
        Some((n + 4) as u8)
    } else if n == 43 {
        Some(62u8)
    } else if n == 47 {
        Some(63u8)
    } else {
        None
    }
}

/// The Base64 symbol for a value below 64.
pub open spec fn base64_digit(n: u8) -> char {
    if n < 26 {
        (n + 65) as u8 as char
    } else if n < 52 {
        (n + 71) as u8 as char
    } else if n < 62 {
        (n - 4) as u8 as char
    } else if n == 62 {
        '+'
    } else {
        '/'
    }
}

pub open spec fn is_hex_char(c: char) -> bool {
    hex_value(c) is Some
}

/// A symbol or the padding character `=`.
pub open spec fn is_base64_char(c: char) -> bool {
    base64_value(c) is Some || c == '='
}

/// The first character of `s` that `ok` rejects.
pub open spec fn first_rejected(s: Seq<char>, ok: spec_fn(char) -> bool) -> Option<char>
    decreases s.len(),
{
    if s.len() == 0 {
        None
    } else if !ok(s[0]) {
        Some(s[0])
    } else {
        first_rejected(s.drop_first(), ok)
    }
}

pub open spec fn hex_alphabet() -> spec_fn(char) -> bool {
    |c: char| is_hex_char(c)
}

pub open spec fn base64_alphabet() -> spec_fn(char) -> bool {
    |c: char| is_base64_char(c)
}

proof fn lemma_first_rejected_skip(s: Seq<char>, ok: spec_fn(char) -> bool, i: int)
    requires
        0 <= i <= s.len(),
        forall|j: int| 0 <= j < i ==> ok(#[trigger] s[j]),
    ensures
        first_rejected(s, ok) == first_rejected(s.skip(i), ok),
    decreases i,
{
    if i > 0 {
        assert forall|j: int| 0 <= j < i - 1 implies ok(#[trigger] s.drop_first()[j]) by {
            assert(ok(s[j + 1]));
        }
        lemma_first_rejected_skip(s.drop_first(), ok, i - 1);
        assert(s.drop_first().skip(i - 1) =~= s.skip(i));
    } else {
        assert(s.skip(0) =~= s);
    }
}

proof fn lemma_none_rejected(s: Seq<char>, ok: spec_fn(char) -> bool)
    requires
        forall|j: int| 0 <= j < s.len() ==> ok(#[trigger] s[j]),
    ensures
        first_rejected(s, ok) is None,
{
    lemma_first_rejected_skip(s, ok, s.len() as int);
    assert(s.skip(s.len() as int).len() == 0);
}

// ---------------------------------------------------------------- hexadecimal

/// The byte written by the digits at `2 * i` and `2 * i + 1`.
pub open spec fn hex_pair(s: Seq<char>, i: int) -> u8 {
    (hex_value(s[2 * i]).unwrap() * 16 + hex_value(s[2 * i + 1]).unwrap()) as u8
}

/// What a hexadecimal text decodes to.
pub open spec fn hex_decoded(s: Seq<char>) -> Result<Seq<u8>, CodecError> {
    match first_rejected(s, hex_alphabet()) {
        Some(c) => Err(CodecError::InvalidCharacter(c)),
        None => if s.len() % 2 == 1 {
            Err(CodecError::OddLength)
        } else {
            Ok(Seq::new(s.len() / 2, |i: int| hex_pair(s, i)))
        },
    }
}

/// Two upper-case digits for each byte, the high half first.
pub open spec fn hex_encoded(b: Seq<u8>) -> Seq<char> {
    Seq::new(
        2 * b.len(),
        |i: int|
            if i % 2 == 0 {
                hex_digit(b[i / 2] / 16)
            } else {
                hex_digit(b[i / 2] % 16)
            },
    )
}

// ---------------------------------------------------------------- Base64

/// The values of the symbols of `s`, with the padding and any stray character left out.
pub open spec fn sextets_of(s: Seq<char>) -> Seq<u8>
    decreases s.len(),
{
    if s.len() == 0 {
        seq![]
    } else {
        let rest = sextets_of(s.drop_last());
        match base64_value(s.last()) {
            Some(v) => rest.push(v),
            None => rest,
        }
    }
}

/// The bytes of one group of two to four symbols.
pub open spec fn group_bytes(q: Seq<u8>) -> Seq<u8> {
    let b0 = (q[0] * 4 + q[1] / 16) as u8;
    if q.len() == 2 {
        seq![b0]
    } else {
        let b1 = ((q[1] % 16) * 16 + q[2] / 4) as u8;
        if q.len() == 3 {
            seq![b0, b1]
        } else {
            seq![b0, b1, ((q[2] % 4) * 64 + q[3]) as u8]
        }
    }
}

/// The bytes of a sequence of symbol values, taken in groups of four.
pub open spec fn sextets_to_bytes(q: Seq<u8>) -> Seq<u8>
    decreases q.len(),
{
    if q.len() < 2 {
        seq![]
    } else if q.len() <= 4 {
        group_bytes(q)
    } else {
        group_bytes(q.take(4)) + sextets_to_bytes(q.skip(4))
    }
}

/// What a Base64 text decodes to.
pub open spec fn base64_decoded(s: Seq<char>) -> Result<Seq<u8>, CodecError> {
    match first_rejected(s, base64_alphabet()) {
        Some(c) => Err(CodecError::InvalidCharacter(c)),
        None => if sextets_of(s).len() % 4 == 1 {
            Err(CodecError::DanglingCharacter)
        } else {
            Ok(sextets_to_bytes(sextets_of(s)))
        },
    }
}

/// The four symbols of a chunk of one to three bytes, padded with `=`.
pub open spec fn chunk_symbols(c: Seq<u8>) -> Seq<char> {
    let a = c[0];
    if c.len() == 1 {
        seq![base64_digit(a / 4), base64_digit(((a % 4) * 16) as u8), '=', '=']
    } else {
        let b = c[1];
        let s1 = base64_digit(((a % 4) * 16 + b / 16) as u8);
        if c.len() == 2 {
            seq![base64_digit(a / 4), s1, base64_digit(((b % 16) * 4) as u8), '=']
        } else {
            let d = c[2];
            seq![
                base64_digit(a / 4),
                s1,
                base64_digit(((b % 16) * 4 + d / 64) as u8),
                base64_digit(d % 64),
            ]
        }
    }
}

/// The Base64 text of a byte sequence, in chunks of three bytes.
pub open spec fn base64_encoded(b: Seq<u8>) -> Seq<char>
    decreases b.len(),
{
    if b.len() == 0 {
        seq![]
    } else if b.len() <= 3 {
        chunk_symbols(b)
    } else {
        chunk_symbols(b.take(3)) + base64_encoded(b.skip(3))
    }
}

// ---------------------------------------------------------------- digits

fn hexchar_to_nibble(c: char) -> (r: Result<u8, char>)
    ensures
        match r {
            Ok(v) => hex_value(c) == Some(v),
            Err(e) => hex_value(c) is None && e == c,
        },
{
    let n = c as u32;
    if 48 <= n && n <= 57 {
        Ok((n - 48) as u8)
    } else if 97 <= n && n <= 102 {
        Ok((n - 87) as u8)
    } else if 65 <= n && n <= 70 {
        Ok((n - 55) as u8)
    } else {
        Err(c)
    }
}

fn base64char_to_sextet(c: char) -> (r: Result<u8, char>)
    ensures
        match r {
            Ok(v) => base64_value(c) == Some(v),
            Err(e) => base64_value(c) is None && e == c,
        },
{
    let n = c as u32;
    if 65 <= n && n <= 90 {
        Ok((n - 65) as u8)
    } else if 97 <= n && n <= 122 {
        Ok((n - 71) as u8)
    } else if 48 <= n && n <= 57 {
        Ok((n + 4) as u8)
    } else if n == 43 {
        Ok(62)
    } else if n == 47 {
        Ok(63)
    } else {
        Err(c)
    }
}

fn nibble_to_hexchar(i: u8) -> (r: Result<char, u8>)
    ensures
        i < 16 ==> r == Ok::<char, u8>(hex_digit(i)),
        i >= 16 ==> r == Err::<char, u8>(i),
{
    if i < 10 {
        Ok((i + 48) as char)
    } else if i < 16 {
        Ok((i + 55) as char)
    } else {
        Err(i)
    }
}

fn nibble_to_base64char(i: u8) -> (r: Result<char, u8>)
    ensures
        i < 64 ==> r == Ok::<char, u8>(base64_digit(i)),
        i >= 64 ==> r == Err::<char, u8>(i),
{
    if i < 26 {
        Ok((i + 65) as char)
    } else if i < 52 {
        Ok((i + 71) as char)
    } else if i < 62 {
        Ok((i - 4) as char)
    } else if i == 62 {
        Ok('+')
    } else if i == 63 {
        Ok('/')
    } else {
        Err(i)
    }
}

fn nibbles_to_byte(nibbles: &[u8]) -> (r: Option<u8>)
    requires
        nibbles@.len() >= 1,
    ensures
        nibbles@.len() == 1 ==> r is None,
        nibbles@.len() >= 2 ==> r is Some,
        nibbles@.len() >= 2 && nibbles@[0] < 16 && nibbles@[1] < 16 ==> r == Some(
            (nibbles@[0] * 16 + nibbles@[1]) as u8,
        ),
{
    if nibbles.len() >= 2 {
        let a = nibbles[0];
        let b = nibbles[1];
        if a < 16 && b < 16 {
            assert((a << 4u8) ^ b == a * 16 + b) by (bit_vector)
                requires
                    a < 16,
                    b < 16,
            ;
        }
        Some((a << 4u8) ^ b)
    } else {
        None
    }
}

// ---------------------------------------------------------------- outside calls

/// Relies on `str::chars`, collected into a `Vec`: the characters of the text, in order.
#[verifier::external_body]
fn chars_of(s: &str) -> (r: Vec<char>)
    ensures
        r@ == s@,
{
    s.chars().collect()
}

/// Relies on `itertools::Itertools::join` with an empty separator: the text of each
/// character, one after another.
#[verifier::external_body]
fn join_chars(chars: &Vec<char>) -> (r: String)
    ensures
        r@ == chars@,
{
    chars.iter().join("")
}

/// Relies on `String::from_utf8`: it succeeds exactly on valid UTF-8, with the decoded
/// characters.
#[verifier::external_body]
fn utf8_string(bytes: Vec<u8>) -> (r: Option<String>)
    ensures
        r is Some <==> valid_utf8(bytes@),
        r matches Some(s) ==> s@ == decode_utf8(bytes@),
{
    String::from_utf8(bytes).ok()
}


// ---------------------------------------------------------------- bit arithmetic

proof fn lemma_halves(b: u8)
    ensures
        b >> 4u8 == b / 16,
        b & 0x0Fu8 == b % 16,
{
    assert(b >> 4u8 == b / 16) by (bit_vector);
    assert(b & 0x0Fu8 == b % 16) by (bit_vector);
}

proof fn lemma_first_byte(a: u8, b: u8)
    requires
        a < 64,
        b < 64,
    ensures
        (a << 2u8) ^ (b >> 4u8) == a * 4 + b / 16,
{
    assert((a << 2u8) ^ (b >> 4u8) == a * 4 + b / 16) by (bit_vector)
        requires
            a < 64,
            b < 64,
    ;
}

proof fn lemma_second_byte(b: u8, c: u8)
    requires
        b < 64,
        c < 64,
    ensures
        ((b & 0x0Fu8) << 4u8) ^ (c >> 2u8) == (b % 16) * 16 + c / 4,
{
    assert(((b & 0x0Fu8) << 4u8) ^ (c >> 2u8) == (b % 16) * 16 + c / 4) by (bit_vector)
        requires
            b < 64,
            c < 64,
    ;
}

proof fn lemma_third_byte(c: u8, d: u8)
    requires
        c < 64,
        d < 64,
    ensures
        ((c & 0x03u8) << 6u8) ^ d == (c % 4) * 64 + d,
{
    assert(((c & 0x03u8) << 6u8) ^ d == (c % 4) * 64 + d) by (bit_vector)
        requires
            c < 64,
            d < 64,
    ;
}

proof fn lemma_base64_split(a: u8)
    ensures
        a >> 2u8 == a / 4,
        (a & 0x03u8) << 4u8 == (a % 4) * 16,
        (a & 0x0Fu8) << 2u8 == (a % 16) * 4,
        a & 0x3Fu8 == a % 64,
        a >> 4u8 == a / 16,
        a >> 6u8 == a / 64,
{
    assert(a >> 2u8 == a / 4) by (bit_vector);
    assert((a & 0x03u8) << 4u8 == (a % 4) * 16) by (bit_vector);
    assert((a & 0x0Fu8) << 2u8 == (a % 16) * 4) by (bit_vector);
    assert(a & 0x3Fu8 == a % 64) by (bit_vector);
    assert(a >> 4u8 == a / 16) by (bit_vector);
    assert(a >> 6u8 == a / 64) by (bit_vector);
}

proof fn lemma_base64_join(a: u8, b: u8)
    ensures
        ((a & 0x03u8) << 4u8) ^ (b >> 4u8) == (a % 4) * 16 + b / 16,
{
    assert(((a & 0x03u8) << 4u8) ^ (b >> 4u8) == (a % 4) * 16 + b / 16) by (bit_vector);
}

proof fn lemma_base64_last(b: u8, c: u8)
    ensures
        ((b & 0x0Fu8) << 2u8) ^ (c >> 6u8) == (b % 16) * 4 + c / 64,
{
    assert(((b & 0x0Fu8) << 2u8) ^ (c >> 6u8) == (b % 16) * 4 + c / 64) by (bit_vector);
}

// ---------------------------------------------------------------- byte strings

/// An owned sequence of bytes, with its hexadecimal and Base64 forms.
#[derive(Clone, Default, Debug, Eq, Hash, Ord, PartialEq, PartialOrd)]
pub struct ByteString {
    pub bytes: Vec<u8>,
}

/// The bytes of a decoding result, or its error.
pub open spec fn decoded_view(r: Result<ByteString, CodecError>) -> Result<Seq<u8>, CodecError> {
    match r {
        Ok(b) => Ok(b.bytes@),
        Err(e) => Err(e),
    }
}

impl ByteString {
    fn new(bytes: Vec<u8>) -> (r: ByteString)
        ensures
            r.bytes@ == bytes@,
    {
        ByteString { bytes: bytes }
    }

    pub fn from_bytes(bytes: Vec<u8>) -> (r: ByteString)
        ensures
            r.bytes@ == bytes@,
    {
        ByteString { bytes: bytes }
    }

    /// The bytes read as UTF-8 text.
    pub fn as_utf8(&self) -> (r: Result<String, CodecError>)
        ensures
            r is Ok <==> valid_utf8(self.bytes@),
            match r {
                Ok(s) => s@ == decode_utf8(self.bytes@),
                Err(e) => e == CodecError::NonTextDecryption,
            },
    {
        match utf8_string(self.bytes.clone()) {
            Some(s) => Ok(s),
            None => Err(CodecError::NonTextDecryption),
        }
    }

    /// Decodes hexadecimal text, digits in either case, two to a byte.
    pub fn from_hex(hex_string: &str) -> (r: Result<ByteString, CodecError>)
        ensures
            decoded_view(r) == hex_decoded(hex_string@),
    {
        let chars = chars_of(hex_string);
        let mut nibbles: Vec<u8> = Vec::new();
        let mut i: usize = 0;
        while i < chars.len()
            invariant
                i <= chars@.len(),
                chars@ == hex_string@,
                nibbles@.len() == i,
                forall|j: int|
                    0 <= j < i ==> #[trigger] is_hex_char(chars@[j]) && nibbles@[j]
                        == hex_value(chars@[j]).unwrap(),
            decreases chars.len() - i,
        {
            match hexchar_to_nibble(chars[i]) {
                Ok(v) => nibbles.push(v),
                Err(c) => {
                    proof {
                        assert forall|j: int| 0 <= j < i implies (hex_alphabet())(
                            #[trigger] chars@[j],
                        ) by {
                            assert(is_hex_char(chars@[j]));
                        }
                        lemma_first_rejected_skip(chars@, hex_alphabet(), i as int);
                    }
                    return Err(CodecError::InvalidCharacter(c));
                },
            }
            i += 1;
        }
        proof {
            assert forall|j: int| 0 <= j < chars@.len() implies (hex_alphabet())(
                #[trigger] chars@[j],
            ) by {
                assert(is_hex_char(chars@[j]));
            }
            lemma_none_rejected(chars@, hex_alphabet());
        }
        if nibbles.len() % 2 == 1 {
            return Err(CodecError::OddLength);
        }
        let mut bytes: Vec<u8> = Vec::new();
        let mut k: usize = 0;
        while k < nibbles.len() / 2
            invariant
                chars@ == hex_string@,
                nibbles@.len() == chars@.len(),
                nibbles@.len() % 2 == 0,
                k <= nibbles@.len() / 2,
                forall|j: int|
                    0 <= j < nibbles@.len() ==> #[trigger] is_hex_char(chars@[j]) && nibbles@[j]
                        == hex_value(chars@[j]).unwrap(),
                bytes@.len() == k,
                forall|j: int| 0 <= j < k ==> bytes@[j] == hex_pair(chars@, j),
            decreases nibbles.len() / 2 - k,
        {
            let pair = vstd::slice::slice_subrange(nibbles.as_slice(), 2 * k, 2 * k + 2);
            assert(is_hex_char(chars@[2 * k as int]));
            assert(is_hex_char(chars@[2 * k + 1]));
            match nibbles_to_byte(pair) {
                Some(b) => bytes.push(b),
                None => return Err(CodecError::OddLength),
            }
            k += 1;
        }
        assert(bytes@ =~= Seq::new(chars@.len() / 2, |j: int| hex_pair(chars@, j)));
        Ok(ByteString::new(bytes))
    }

    /// Decodes Base64 text; every `=` is padding and is left out before grouping.
    pub fn from_base64(base64_string: &str) -> (r: Result<ByteString, CodecError>)
        ensures
            decoded_view(r) == base64_decoded(base64_string@),
    {
        let chars = chars_of(base64_string);
        let mut sextets: Vec<u8> = Vec::new();
        let mut i: usize = 0;
        while i < chars.len()
            invariant
                i <= chars@.len(),
                chars@ == base64_string@,
                sextets@ == sextets_of(chars@.take(i as int)),
                forall|j: int| 0 <= j < i ==> #[trigger] is_base64_char(chars@[j]),
                forall|j: int| 0 <= j < sextets@.len() ==> #[trigger] sextets@[j] < 64,
            decreases chars.len() - i,
        {
            let c = chars[i];
            assert(chars@.take(i + 1).drop_last() =~= chars@.take(i as int));
            if c != '=' {
                match base64char_to_sextet(c) {
                    Ok(v) => sextets.push(v),
                    Err(e) => {
                        proof {
                            assert forall|j: int| 0 <= j < i implies (base64_alphabet())(
                                #[trigger] chars@[j],
                            ) by {
                                assert(is_base64_char(chars@[j]));
                            }
                            lemma_first_rejected_skip(chars@, base64_alphabet(), i as int);
                        }
                        return Err(CodecError::InvalidCharacter(e));
                    },
                }
            }
            i += 1;
        }
        proof {
            assert forall|j: int| 0 <= j < chars@.len() implies (base64_alphabet())(
                #[trigger] chars@[j],
            ) by {
                assert(is_base64_char(chars@[j]));
            }
            lemma_none_rejected(chars@, base64_alphabet());
            assert(chars@.take(chars@.len() as int) =~= chars@);
        }
        if sextets.len() % 4 == 1 {
            return Err(CodecError::DanglingCharacter);
        }
        let n = sextets.len();
        let mut bytes: Vec<u8> = Vec::new();
        let mut g: usize = 0;
        assert(sextets@.skip(0) =~= sextets@);
        assert(bytes@ + sextets_to_bytes(sextets@) =~= sextets_to_bytes(sextets@));
        while g < n
            invariant
                n == sextets@.len(),
                n % 4 != 1,
                g <= n,
                g == n || g % 4 == 0,
                forall|j: int| 0 <= j < n ==> #[trigger] sextets@[j] < 64,
                bytes@ + sextets_to_bytes(sextets@.skip(g as int)) == sextets_to_bytes(sextets@),
            decreases n - g,
        {
            let ghost rest = sextets@.skip(g as int);
            let a = sextets[g];
            let b = sextets[g + 1];
            let b0 = (a << 2u8) ^ (b >> 4u8);
            proof {
                lemma_first_byte(a, b);
            }
            let ghost before = bytes@;
            if n - g == 2 {
                bytes.push(b0);
            } else {
                let c = sextets[g + 2];
                let b1 = ((b & 0x0Fu8) << 4u8) ^ (c >> 2u8);
                proof {
                    lemma_second_byte(b, c);
                }
                bytes.push(b0);
                bytes.push(b1);
                if n - g >= 4 {
                    let d = sextets[g + 3];
                    proof {
                        lemma_third_byte(c, d);
                    }
                    bytes.push(((c & 0x03u8) << 6u8) ^ d);
                }
            }
            proof {
                if n - g > 4 {
                    assert(rest.skip(4) =~= sextets@.skip(g + 4));
                    assert(bytes@ =~= before + group_bytes(rest.take(4)));
                } else if n - g > 2 {
                    assert(bytes@ =~= before + group_bytes(rest));
                    assert(sextets@.skip(n as int).len() == 0);
                } else {
                    assert(sextets@.skip(n as int).len() == 0);
                }
            }
            if n - g >= 4 {
                g = g + 4;
            } else {
                g = n;
            }
        }
        assert(sextets@.skip(n as int).len() == 0);
        assert(bytes@ =~= sextets_to_bytes(sextets@));
        Ok(ByteString::new(bytes))
    }

    /// Two upper-case hexadecimal digits for each byte.
    pub fn to_hex(&self) -> (r: String)
        ensures
            r@ == hex_encoded(self.bytes@),
    {
        let mut out: Vec<char> = Vec::new();
        let mut i: usize = 0;
        while i < self.bytes.len()
            invariant
                i <= self.bytes@.len(),
                out@.len() == 2 * i,
                forall|j: int| 0 <= j < 2 * i ==> out@[j] == hex_encoded(self.bytes@)[j],
            decreases self.bytes.len() - i,
        {
            let b = self.bytes[i];
            proof {
                lemma_halves(b);
            }
            let hi = nibble_to_hexchar(b >> 4u8);
            let lo = nibble_to_hexchar(b & 0x0Fu8);
            match (hi, lo) {
                (Ok(h), Ok(l)) => {
                    out.push(h);
                    out.push(l);
                },
                _ => {},
            }
            assert((2 * i + 1) / 2 == i as int);
            i += 1;
        }
        assert(out@ =~= hex_encoded(self.bytes@));
        join_chars(&out)
    }

    /// Base64 text, in the standard alphabet, padded with `=` to whole groups of four.
    pub fn to_base64(&self) -> (r: String)
        ensures
            r@ == base64_encoded(self.bytes@),
    {
        let n = self.bytes.len();
        let mut out: Vec<char> = Vec::new();
        let mut i: usize = 0;
        assert(self.bytes@.skip(0) =~= self.bytes@);
        assert(out@ + base64_encoded(self.bytes@) =~= base64_encoded(self.bytes@));
        while i < n
            invariant
                n == self.bytes@.len(),
                i <= n,
                out@ + base64_encoded(self.bytes@.skip(i as int)) == base64_encoded(self.bytes@),
            decreases n - i,
        {
            let rest = Ghost(self.bytes@.skip(i as int));
            let chunk = Ghost(if n - i >= 3 { rest@.take(3) } else { rest@ });
            let ghost before = out@;
            let a = self.bytes[i];
            assert(chunk@[0] == a);
            proof {
                lemma_base64_split(a);
            }
            let s0 = nibble_to_base64char(a >> 2u8);
            if n - i == 1 {
                let s1 = nibble_to_base64char((a & 0x03u8) << 4u8);
                if let (Ok(x), Ok(y)) = (s0, s1) {
                    out.push(x);
                    out.push(y);
                    out.push('=');
                    out.push('=');
                }
                assert(chunk@.len() == 1);
                assert(out@ =~= before + chunk_symbols(chunk@));
            } else {
                let b = self.bytes[i + 1];
                assert(chunk@[1] == b);
                proof {
                    lemma_base64_join(a, b);
                    lemma_base64_split(b);
                }
                let s1 = nibble_to_base64char(((a & 0x03u8) << 4u8) ^ (b >> 4u8));
                if n - i == 2 {
                    let s2 = nibble_to_base64char((b & 0x0Fu8) << 2u8);
                    if let (Ok(x), Ok(y), Ok(z)) = (s0, s1, s2) {
                        out.push(x);
                        out.push(y);
                        out.push(z);
                        out.push('=');
                    }
                    assert(chunk@.len() == 2);
                    assert(out@ =~= before + chunk_symbols(chunk@));
                } else {
                    let c = self.bytes[i + 2];
                    assert(chunk@[2] == c && chunk@.len() == 3);
                    proof {
                        lemma_base64_last(b, c);
                        lemma_base64_split(c);
                    }
                    let s2 = nibble_to_base64char(((b & 0x0Fu8) << 2u8) ^ (c >> 6u8));
                    let s3 = nibble_to_base64char(c & 0x3Fu8);
                    if let (Ok(x), Ok(y), Ok(z), Ok(w)) = (s0, s1, s2, s3) {
                        out.push(x);
                        out.push(y);
                        out.push(z);
                        out.push(w);
                    }
                    assert(out@ =~= before + chunk_symbols(chunk@));
                }
            }
            proof {
                assert(out@ =~= before + chunk_symbols(chunk@));
                if n - i > 3 {
                    assert(rest@.skip(3) =~= self.bytes@.skip(i + 3));
                } else {
                    assert(self.bytes@.skip(n as int).len() == 0);
                }
            }
            if n - i >= 3 {
                i = i + 3;
            } else {
                i = n;
            }
        }
        assert(self.bytes@.skip(n as int).len() == 0);
        assert(out@ =~= base64_encoded(self.bytes@));
        join_chars(&out)
    }
}

// ---------------------------------------------------------------- round trips

proof fn lemma_base64_digit_value(n: u8)
    requires
        n < 64,
    ensures
        base64_value(base64_digit(n)) == Some(n),
{
}

/// Decoding the hexadecimal text of any byte sequence gives the bytes back.
pub proof fn lemma_hex_round_trip(b: Seq<u8>)
    ensures
        hex_decoded(hex_encoded(b)) == Ok::<Seq<u8>, CodecError>(b),
{
    let e = hex_encoded(b);
    assert forall|j: int| 0 <= j < e.len() implies (hex_alphabet())(#[trigger] e[j]) by {
        let x = b[j / 2];
        assert(hex_value(hex_digit(x / 16)) == Some(x / 16));
        assert(hex_value(hex_digit(x % 16)) == Some(x % 16));
    }
    lemma_none_rejected(e, hex_alphabet());
    let d = Seq::new(e.len() / 2, |i: int| hex_pair(e, i));
    assert forall|i: int| 0 <= i < b.len() implies #[trigger] d[i] == b[i] by {
        let x = b[i];
        assert((2 * i) / 2 == i && (2 * i + 1) / 2 == i && (2 * i) % 2 == 0 && (2 * i + 1) % 2
            == 1);
        assert(hex_value(hex_digit(x / 16)) == Some(x / 16));
        assert(hex_value(hex_digit(x % 16)) == Some(x % 16));
    }
    assert(d =~= b);
}

proof fn lemma_sextets_concat(x: Seq<char>, y: Seq<char>)
    ensures
        sextets_of(x + y) == sextets_of(x) + sextets_of(y),
    decreases y.len(),
{
    if y.len() == 0 {
        assert(x + y =~= x);
        assert(sextets_of(x) + sextets_of(y) =~= sextets_of(x));
    } else {
        lemma_sextets_concat(x, y.drop_last());
        assert((x + y).drop_last() =~= x + y.drop_last());
        assert((x + y).last() == y.last());
        match base64_value(y.last()) {
            Some(v) => {
                assert(sextets_of(x) + sextets_of(y) =~= (sextets_of(x) + sextets_of(
                    y.drop_last(),
                )).push(v));
            },
            None => {},
        }
    }
}

proof fn lemma_chunk_round_trip(c: Seq<u8>)
    requires
        1 <= c.len() <= 3,
    ensures
        forall|j: int| 0 <= j < 4 ==> is_base64_char(#[trigger] chunk_symbols(c)[j]),
        chunk_symbols(c).len() == 4,
        sextets_of(chunk_symbols(c)).len() == c.len() + 1,
        group_bytes(sextets_of(chunk_symbols(c))) == c,
{
    reveal_with_fuel(sextets_of, 5);
    let a = c[0];
    lemma_base64_digit_value(a / 4);
    let s = chunk_symbols(c);
    if c.len() == 1 {
        let s1 = ((a % 4) * 16) as u8;
        lemma_base64_digit_value(s1);
        let q = seq![a / 4, s1];
        assert(s.drop_last().drop_last().drop_last().drop_last().len() == 0);
        assert(sextets_of(s) =~= q);
        assert(group_bytes(q) =~= c);
    } else {
        let b = c[1];
        let s1 = ((a % 4) * 16 + b / 16) as u8;
        lemma_base64_digit_value(s1);
        if c.len() == 2 {
            let s2 = ((b % 16) * 4) as u8;
            lemma_base64_digit_value(s2);
            let q = seq![a / 4, s1, s2];
            assert(sextets_of(s) =~= q);
            assert(group_bytes(q) =~= c);
        } else {
            let d = c[2];
            let s2 = ((b % 16) * 4 + d / 64) as u8;
            lemma_base64_digit_value(s2);
            lemma_base64_digit_value(d % 64);
            let q = seq![a / 4, s1, s2, d % 64];
            assert(sextets_of(s) =~= q);
            assert(group_bytes(q) =~= c);
        }
    }
}

proof fn lemma_base64_symbols(b: Seq<u8>)
    ensures
        forall|j: int|
            0 <= j < base64_encoded(b).len() ==> is_base64_char(#[trigger] base64_encoded(b)[j]),
        sextets_of(base64_encoded(b)).len() % 4 != 1,
        b.len() > 0 ==> sextets_of(base64_encoded(b)).len() >= 2,
        sextets_to_bytes(sextets_of(base64_encoded(b))) == b,
    decreases b.len(),
{
    let e = base64_encoded(b);
    if b.len() == 0 {
        assert(sextets_of(e) =~= Seq::<u8>::empty());
        assert(sextets_to_bytes(sextets_of(e)) =~= b);
    } else if b.len() <= 3 {
        lemma_chunk_round_trip(b);
    } else {
        let head = b.take(3);
        let tail = b.skip(3);
        lemma_chunk_round_trip(head);
        lemma_base64_symbols(tail);
        let x = chunk_symbols(head);
        let y = base64_encoded(tail);
        lemma_sextets_concat(x, y);
        assert forall|j: int| 0 <= j < e.len() implies is_base64_char(#[trigger] e[j]) by {
            if j < 4 {
                assert(e[j] == x[j]);
            } else {
                assert(e[j] == y[j - 4]);
            }
        }
        let q = sextets_of(e);
        let qx = sextets_of(x);
        let qy = sextets_of(y);
        assert(q.take(4) =~= qx);
        assert(q.skip(4) =~= qy);
        assert(head + tail =~= b);
    }
}

/// Decoding the Base64 text of any byte sequence gives the bytes back.
pub proof fn lemma_base64_round_trip(b: Seq<u8>)
    ensures
        base64_decoded(base64_encoded(b)) == Ok::<Seq<u8>, CodecError>(b),
{
    let e = base64_encoded(b);
    lemma_base64_symbols(b);
    assert forall|j: int| 0 <= j < e.len() implies (base64_alphabet())(#[trigger] e[j]) by {
        assert(is_base64_char(e[j]));
    }
    lemma_none_rejected(e, base64_alphabet());
}

// ---------------------------------------------------------------- errors

proof fn lemma_some_rejected(s: Seq<char>, ok: spec_fn(char) -> bool, j: int)
    requires
        0 <= j < s.len(),
        !ok(s[j]),
    ensures
        first_rejected(s, ok) is Some,
    decreases j,
{
    if ok(s[0]) {
        lemma_some_rejected(s.drop_first(), ok, j - 1);
    }
}

/// Hexadecimal digits of odd number fail with `OddLength`.
pub proof fn lemma_hex_odd_length(s: Seq<char>)
    requires
        s.len() % 2 == 1,
        forall|j: int| 0 <= j < s.len() ==> is_hex_char(#[trigger] s[j]),
    ensures
        hex_decoded(s) == Err::<Seq<u8>, CodecError>(CodecError::OddLength),
{
    assert forall|j: int| 0 <= j < s.len() implies (hex_alphabet())(#[trigger] s[j]) by {
        assert(is_hex_char(s[j]));
    }
    lemma_none_rejected(s, hex_alphabet());
}

/// A text with a `g` in it is no hexadecimal text.
pub proof fn lemma_hex_invalid_character(s: Seq<char>, j: int)
    requires
        0 <= j < s.len(),
        s[j] == 'g',
    ensures
        hex_decoded(s) matches Err(CodecError::InvalidCharacter(_)),
{
    lemma_some_rejected(s, hex_alphabet(), j);
}

/// Base64 symbols and padding whose symbols number one more than a multiple of four fail
/// with `DanglingCharacter`.
pub proof fn lemma_base64_dangling(s: Seq<char>)
    requires
        forall|j: int| 0 <= j < s.len() ==> is_base64_char(#[trigger] s[j]),
        sextets_of(s).len() % 4 == 1,
    ensures
        base64_decoded(s) == Err::<Seq<u8>, CodecError>(CodecError::DanglingCharacter),
{
    assert forall|j: int| 0 <= j < s.len() implies (base64_alphabet())(#[trigger] s[j]) by {
        assert(is_base64_char(s[j]));
    }
    lemma_none_rejected(s, base64_alphabet());
}

} // verus!
