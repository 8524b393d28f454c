//! Encoding primitives: ASCII, EBCDIC (the IBM-037 subset mirroring ASCII),
//! packed BCD and raw binary. Converts between raw field content bytes and
//! their canonical textual rendering, and validates content alphabets.

use vstd::prelude::*;
use vstd::utf8::{valid_utf8, decode_utf8, pop_first_scalar};

verus! {

/// Content or length-prefix encoding of a field.
#[derive(Clone, Copy, PartialEq, Eq, Structural, Debug)]
pub enum Encoding {
    ASCII,
    EBCDIC,
    BINARY,
    BCD,
}

/// Bytes occupied by `n_chars` characters under `enc`: BCD packs two decimal
/// digits per byte; the other encodings use one byte per character.
pub open spec fn spec_byte_length(enc: Encoding, n_chars: nat) -> nat {
    match enc {
        Encoding::BCD => ((n_chars + 1) / 2) as nat,
        _ => n_chars,
    }
}

/// Executable form of [`spec_byte_length`].
pub fn byte_length(enc: Encoding, n_chars: usize) -> (r: usize)
    requires
        n_chars < usize::MAX,
    ensures
        r as nat == spec_byte_length(enc, n_chars as nat),
{
    match enc {
        Encoding::BCD => (n_chars + 1) / 2,
        _ => n_chars,
    }
}

/// The IBM-037 EBCDIC byte for an ASCII byte, over the mirrored subset:
/// space, decimal digits and the Latin letters.
pub open spec fn spec_ebcdic_of_ascii(a: u8) -> Option<u8> {
    if a == 0x20 {
        Some(0x40u8)
    } else if 0x30 <= a <= 0x39 {
        Some((a + 0xc0) as u8)
    } else if 0x41 <= a <= 0x49 {
        Some((a + 0x80) as u8)
    } else if 0x4a <= a <= 0x52 {
        Some((a + 0x87) as u8)
    } else if 0x53 <= a <= 0x5a {
        Some((a + 0x8f) as u8)
    } else if 0x61 <= a <= 0x69 {
        Some((a + 0x20) as u8)
    } else if 0x6a <= a <= 0x72 {
        Some((a + 0x27) as u8)
    } else if 0x73 <= a <= 0x7a {
        Some((a + 0x2f) as u8)
    } else {
        None
    }
}

/// The ASCII byte for an IBM-037 EBCDIC byte, over the mirrored subset.
pub open spec fn spec_ascii_of_ebcdic(e: u8) -> Option<u8> {
    if e == 0x40 {
        Some(0x20u8)
    } else if 0xf0 <= e <= 0xf9 {
        Some((e - 0xc0) as u8)
    } else if 0xc1 <= e <= 0xc9 {
        Some((e - 0x80) as u8)
    } else if 0xd1 <= e <= 0xd9 {
        Some((e - 0x87) as u8)
    } else if 0xe2 <= e <= 0xe9 {
        Some((e - 0x8f) as u8)
    } else if 0x81 <= e <= 0x89 {
        Some((e - 0x20) as u8)
    } else if 0x91 <= e <= 0x99 {
        Some((e - 0x27) as u8)
    } else if 0xa2 <= e <= 0xa9 {
        Some((e - 0x2f) as u8)
    } else {
        None
    }
}

/// The two EBCDIC table directions invert each other, and every EBCDIC image
/// is a printable ASCII byte.
pub proof fn lemma_ebcdic_ascii_inverse(b: u8)
    ensures
        spec_ebcdic_of_ascii(b) is Some ==> spec_ascii_of_ebcdic(spec_ebcdic_of_ascii(b)->Some_0)
            == Some(b),
        spec_ascii_of_ebcdic(b) is Some ==> {
            &&& spec_ebcdic_of_ascii(spec_ascii_of_ebcdic(b)->Some_0) == Some(b)
            &&& spec_ascii_of_ebcdic(b)->Some_0 < 0x80
        },
{
}

/// Executable form of [`spec_ebcdic_of_ascii`].
pub fn ebcdic_of_ascii(a: u8) -> (r: Option<u8>)
    ensures
        r == spec_ebcdic_of_ascii(a),
{
    if a == 0x20 {
        Some(0x40)
    } else if 0x30 <= a && a <= 0x39 {
        Some(a + 0xc0)
    } else if 0x41 <= a && a <= 0x49 {
        Some(a + 0x80)
    } else if 0x4a <= a && a <= 0x52 {
        Some(a + 0x87)
    } else if 0x53 <= a && a <= 0x5a {
        Some(a + 0x8f)
    } else if 0x61 <= a && a <= 0x69 {
        Some(a + 0x20)
    } else if 0x6a <= a && a <= 0x72 {
        Some(a + 0x27)
    } else if 0x73 <= a && a <= 0x7a {
        Some(a + 0x2f)
    } else {
        None
    }
}

/// Executable form of [`spec_ascii_of_ebcdic`].
pub fn ascii_of_ebcdic(e: u8) -> (r: Option<u8>)
    ensures
        r == spec_ascii_of_ebcdic(e),
{
    if e == 0x40 {
        Some(0x20)
    } else if 0xf0 <= e && e <= 0xf9 {
        Some(e - 0xc0)
    } else if 0xc1 <= e && e <= 0xc9 {
        Some(e - 0x80)
    } else if 0xd1 <= e && e <= 0xd9 {
        Some(e - 0x87)
    } else if 0xe2 <= e && e <= 0xe9 {
        Some(e - 0x8f)
    } else if 0x81 <= e && e <= 0x89 {
        Some(e - 0x20)
    } else if 0x91 <= e && e <= 0x99 {
        Some(e - 0x27)
    } else if 0xa2 <= e && e <= 0xa9 {
        Some(e - 0x2f)
    } else {
        None
    }
}

/// Whether `b` lies in the alphabet of `enc`: 7-bit bytes for ASCII, the
/// mirrored IBM-037 subset for EBCDIC, decimal nibbles for BCD, anything for
/// binary.
pub open spec fn spec_byte_ok(enc: Encoding, b: u8) -> bool {
    match enc {
        Encoding::ASCII => b < 0x80,
        Encoding::EBCDIC => spec_ascii_of_ebcdic(b) is Some,
        Encoding::BINARY => true,
        Encoding::BCD => b / 16 <= 9 && b % 16 <= 9,
    }
}

/// Whether every byte of `s` lies in the alphabet of `enc`.
pub open spec fn spec_bytes_ok(enc: Encoding, s: Seq<u8>) -> bool {
    forall|i: int| 0 <= i < s.len() ==> spec_byte_ok(enc, #[trigger] s[i])
}

/// Executable form of [`spec_byte_ok`].
pub fn byte_ok(enc: Encoding, b: u8) -> (r: bool)
    ensures
        r == spec_byte_ok(enc, b),
{
    match enc {
        Encoding::ASCII => b < 0x80,
        Encoding::EBCDIC => ascii_of_ebcdic(b).is_some(),
        Encoding::BINARY => true,
        Encoding::BCD => b / 16 <= 9 && b % 16 <= 9,
    }
}

/// Checks the alphabet of `enc` over `buf[from..to]`.
pub fn bytes_ok(enc: Encoding, buf: &Vec<u8>, from: usize, to: usize) -> (r: bool)
    requires
        from <= to <= buf.len(),
    ensures
        r == spec_bytes_ok(enc, buf@.subrange(from as int, to as int)),
{
    let ghost sub = buf@.subrange(from as int, to as int);
    let mut i: usize = from;
    while i < to
        invariant
            from <= i <= to <= buf.len(),
            sub == buf@.subrange(from as int, to as int),
            forall|j: int| from <= j < i ==> spec_byte_ok(enc, #[trigger] buf@[j]),
        decreases to - i,
    {
        if !byte_ok(enc, buf[i]) {
            proof {
                assert(sub[i - from] == buf@[i as int]);
            }
            return false;
        }
        i = i + 1;
    }
    proof {
        assert(forall|j: int| 0 <= j < sub.len() ==> sub[j] == buf@[j + from]);
    }
    true
}

/// The character rendering a nibble or digit value: `0..=9` then `a..=f`.
pub open spec fn spec_digit_char(d: u8) -> char
    recommends
        d < 16,
{
    if d < 10 {
        ((0x30 + d) as u8) as char
    } else {
        ((0x57 + d) as u8) as char
    }
}

/// The ASCII byte rendering a nibble or digit value.
pub open spec fn spec_digit_byte(d: u8) -> u8
    recommends
        d < 16,
{
    if d < 10 {
        (0x30 + d) as u8
    } else {
        (0x57 + d) as u8
    }
}

/// Executable form of [`spec_digit_byte`].
pub fn digit_byte(d: u8) -> (r: u8)
    requires
        d < 16,
    ensures
        r == spec_digit_byte(d),
        r == spec_digit_char(d) as u8,
        r < 0x80,
{
    if d < 10 {
        0x30 + d
    } else {
        0x57 + d
    }
}

/// The digit value of a hexadecimal character (both letter cases), if any.
pub open spec fn spec_hex_nibble(c: char) -> Option<u8> {
    let v = c as u32;
    if 0x30 <= v <= 0x39 {
        Some((v - 0x30) as u8)
    } else if 0x61 <= v <= 0x66 {
        Some((v - 0x57) as u8)
    } else if 0x41 <= v <= 0x46 {
        Some((v - 0x37) as u8)
    } else {
        None
    }
}

/// Executable form of [`spec_hex_nibble`].
pub fn hex_nibble(c: char) -> (r: Option<u8>)
    ensures
        r == spec_hex_nibble(c),
{
    let v = c as u32;
    if 0x30 <= v && v <= 0x39 {
        Some((v - 0x30) as u8)
    } else if 0x61 <= v && v <= 0x66 {
        Some((v - 0x57) as u8)
    } else if 0x41 <= v && v <= 0x46 {
        Some((v - 0x37) as u8)
    } else {
        None
    }
}

/// The lowercase hexadecimal character sequence for a byte sequence: two
/// characters per byte, high nibble first.
pub open spec fn spec_hex_of_bytes(s: Seq<u8>) -> Seq<char>
    decreases s.len(),
{
    if s.len() == 0 {
        Seq::empty()
    } else {
        spec_hex_of_bytes(s.drop_last()) + seq![
            spec_digit_char((s.last() / 16) as u8),
            spec_digit_char((s.last() % 16) as u8),
        ]
    }
}

/// The bytes denoted by a hexadecimal character sequence; `None` unless the
/// length is even and every character is a hexadecimal digit.
pub open spec fn spec_bytes_of_hex(cs: Seq<char>) -> Option<Seq<u8>>
    decreases cs.len(),
{
    if cs.len() % 2 != 0 {
        None
    } else if cs.len() == 0 {
        Some(Seq::empty())
    } else {
        let hi = spec_hex_nibble(cs[cs.len() - 2]);
        let lo = spec_hex_nibble(cs[cs.len() - 1]);
        match spec_bytes_of_hex(cs.take(cs.len() - 2)) {
            Some(rest) => if hi is Some && lo is Some {
                Some(rest.push((hi->Some_0 * 16 + lo->Some_0) as u8))
            } else {
                None
            },
            None => None,
        }
    }
}

/// Reading back the hexadecimal rendering of any byte sequence yields the
/// original bytes.
pub proof fn lemma_hex_round_trip(s: Seq<u8>)
    ensures
        spec_bytes_of_hex(spec_hex_of_bytes(s)) == Some(s),
    decreases s.len(),
{
    if s.len() == 0 {
        assert(spec_hex_of_bytes(s).len() == 0);
        assert(spec_bytes_of_hex(spec_hex_of_bytes(s))->Some_0 =~= s);
    } else {
        lemma_hex_round_trip(s.drop_last());
        lemma_hex_of_bytes_len(s.drop_last());
        let cs = spec_hex_of_bytes(s);
        lemma_hex_of_bytes_len(s);
        assert(cs.take(cs.len() - 2) =~= spec_hex_of_bytes(s.drop_last()));
        let b = s.last();
        let hi = (b / 16) as u8;
        let lo = (b % 16) as u8;
        assert(spec_hex_nibble(spec_digit_char(hi)) == Some(hi));
        assert(spec_hex_nibble(spec_digit_char(lo)) == Some(lo));
        assert(cs[cs.len() - 2] == spec_digit_char(hi));
        assert(cs[cs.len() - 1] == spec_digit_char(lo));
        assert(s.drop_last().push((hi * 16 + lo) as u8) =~= s);
    }
}

/// The hexadecimal rendering has two characters per byte.
pub proof fn lemma_hex_of_bytes_len(s: Seq<u8>)
    ensures
        spec_hex_of_bytes(s).len() == 2 * s.len(),
    decreases s.len(),
{
    if s.len() > 0 {
        lemma_hex_of_bytes_len(s.drop_last());
    }
}

/// The characters denoted by a sequence of 7-bit bytes.
pub open spec fn ascii_chars_of(s: Seq<u8>) -> Seq<char> {
    Seq::new(s.len(), |i: int| s[i] as char)
}

/// Relies on `String::from_utf8` of std: returns the string decoded from the
/// bytes exactly when they are valid UTF-8.
#[verifier::external_body]
fn string_from_utf8(v: Vec<u8>) -> (r: Option<String>)
    ensures
        r is Some <==> valid_utf8(v@),
        r is Some ==> r->Some_0@ == decode_utf8(v@),
{
    String::from_utf8(v).ok()
}

/// A sequence of 7-bit bytes is valid UTF-8 and decodes to one character per
/// byte.
pub proof fn lemma_ascii_utf8(s: Seq<u8>)
    requires
        forall|i: int| 0 <= i < s.len() ==> #[trigger] s[i] < 0x80,
    ensures
        valid_utf8(s),
        decode_utf8(s) =~= ascii_chars_of(s),
    decreases s.len(),
{
    if s.len() > 0 {
        let b = s[0];
        assert(b < 0x80);
        assert((b & 0x7f) == b) by (bit_vector)
            requires
                b < 0x80,
        ;
        let rest = pop_first_scalar(s);
        assert(rest =~= s.drop_first());
        lemma_ascii_utf8(rest);
        assert(decode_utf8(s) =~= ascii_chars_of(s)) by {
            assert(decode_utf8(s) == seq![(b as u32) as char] + decode_utf8(rest));
            assert(((b as u32) as char) == (b as char));
            assert(forall|i: int|
                0 < i < s.len() ==> ascii_chars_of(s)[i] == #[trigger] ascii_chars_of(rest)[i
                    - 1]);
        }
    }
}

/// Builds the `String` whose characters are the given 7-bit bytes.
pub fn ascii_string_of(v: Vec<u8>) -> (r: String)
    requires
        forall|i: int| 0 <= i < v@.len() ==> #[trigger] v@[i] < 0x80,
    ensures
        r@ == ascii_chars_of(v@),
{
    proof {
        lemma_ascii_utf8(v@);
    }
    let r = string_from_utf8(v);
    match r {
        Some(s) => s,
        None => {
            proof {
                assert(false);
            }
            String::new()
        },
    }
}

/// The lowercase hexadecimal rendering of a byte vector.
pub fn hex_string_of_bytes(data: &Vec<u8>) -> (r: String)
    ensures
        r@ == spec_hex_of_bytes(data@),
{
    let mut out: Vec<u8> = Vec::new();
    let mut i: usize = 0;
    while i < data.len()
        invariant
            i <= data.len(),
            ascii_chars_of(out@) =~= spec_hex_of_bytes(data@.take(i as int)),
            forall|j: int| 0 <= j < out@.len() ==> #[trigger] out@[j] < 0x80,
        decreases data.len() - i,
    {
        let b = data[i];
        out.push(digit_byte(b / 16));
        out.push(digit_byte(b % 16));
        proof {
            assert(data@.take(i + 1).drop_last() =~= data@.take(i as int));
            assert(data@.take(i + 1).last() == data@[i as int]);
            assert(ascii_chars_of(out@) =~= spec_hex_of_bytes(data@.take(i + 1)));
        }
        i = i + 1;
    }
    proof {
        assert(data@.take(data@.len() as int) =~= data@);
    }
    ascii_string_of(out)
}

/// The bytes denoted by a hexadecimal string, if well formed.
pub fn bytes_of_hex_str(s: &str) -> (r: Option<Vec<u8>>)
    ensures
        r is Some <==> spec_bytes_of_hex(s@) is Some,
        r is Some ==> Some(r->Some_0@) == spec_bytes_of_hex(s@),
{
    let n = s.unicode_len();
    if n % 2 != 0 {
        return None;
    }
    let mut out: Vec<u8> = Vec::new();
    let mut i: usize = 0;
    while i < n
        invariant
            i <= n,
            i % 2 == 0,
            n % 2 == 0,
            n == s@.len(),
            spec_bytes_of_hex(s@.take(i as int)) == Some(out@),
        decreases n - i,
    {
        let hi = hex_nibble(s.get_char(i));
        let lo = hex_nibble(s.get_char(i + 1));
        match (hi, lo) {
            (Some(h), Some(l)) => {
                out.push(h * 16 + l);
                proof {
                    let t = s@.take(i + 2);
                    assert(t.take(t.len() - 2) =~= s@.take(i as int));
                    assert(t[t.len() - 2] == s@[i as int]);
                    assert(t[t.len() - 1] == s@[i as int + 1]);
                }
            },
            _ => {
                proof {
                    lemma_bytes_of_hex_prefix_none(s@, i as int);
                }
                return None;
            },
        }
        i = i + 2;
    }
    proof {
        assert(s@.take(n as int) =~= s@);
    }
    Some(out)
}

/// If some character at or after an even index is not a hexadecimal digit,
/// the whole string does not decode.
proof fn lemma_bytes_of_hex_prefix_none(cs: Seq<char>, i: int)
    requires
        cs.len() % 2 == 0,
        0 <= i,
        i % 2 == 0,
        i + 2 <= cs.len(),
        spec_hex_nibble(cs[i]) is None || spec_hex_nibble(cs[i + 1]) is None,
    ensures
        spec_bytes_of_hex(cs) is None,
    decreases cs.len(),
{
    if cs.len() > 0 {
        if i + 2 < cs.len() {
            lemma_bytes_of_hex_prefix_none(cs.take(cs.len() - 2), i);
            assert(cs.take(cs.len() - 2)[i] == cs[i]);
            assert(cs.take(cs.len() - 2)[i + 1] == cs[i + 1]);
        }
    }
}


/// One byte's canonical rendering: the character itself for ASCII, the
/// mirrored ASCII character for EBCDIC, two hexadecimal characters for
/// binary, two decimal digits for BCD. A byte outside the alphabet renders as
/// nothing.
pub open spec fn spec_render_byte(enc: Encoding, b: u8) -> Seq<char> {
    match enc {
        Encoding::ASCII => if b < 0x80 {
            seq![b as char]
        } else {
            Seq::empty()
        },
        Encoding::EBCDIC => match spec_ascii_of_ebcdic(b) {
            Some(a) => seq![a as char],
            None => Seq::empty(),
        },
        Encoding::BINARY => seq![
            spec_digit_char((b / 16) as u8),
            spec_digit_char((b % 16) as u8),
        ],
        Encoding::BCD => seq![
            spec_digit_char((b / 16) as u8),
            spec_digit_char((b % 16) as u8),
        ],
    }
}

/// The canonical human rendering of content bytes under an encoding.
pub open spec fn spec_to_string(enc: Encoding, s: Seq<u8>) -> Seq<char>
    decreases s.len(),
{
    if s.len() == 0 {
        Seq::empty()
    } else {
        spec_to_string(enc, s.drop_last()) + spec_render_byte(enc, s.last())
    }
}

/// The decimal digit value of a character, if it is one.
pub open spec fn spec_dec_digit(c: char) -> Option<u8> {
    let v = c as u32;
    if 0x30 <= v <= 0x39 {
        Some((v - 0x30) as u8)
    } else {
        None
    }
}

/// Decimal digit characters packed two to a byte, an odd count left-padded
/// with a zero nibble; `None` when a character is not a decimal digit.
pub open spec fn spec_bcd_of_digit_chars(cs: Seq<char>) -> Option<Seq<u8>>
    decreases cs.len(),
{
    if cs.len() == 0 {
        Some(Seq::empty())
    } else if cs.len() == 1 {
        match spec_dec_digit(cs[0]) {
            Some(d) => Some(seq![d]),
            None => None,
        }
    } else {
        let hi = spec_dec_digit(cs[cs.len() - 2]);
        let lo = spec_dec_digit(cs[cs.len() - 1]);
        match spec_bcd_of_digit_chars(cs.take(cs.len() - 2)) {
            Some(rest) => if hi is Some && lo is Some {
                Some(rest.push((hi->Some_0 * 16 + lo->Some_0) as u8))
            } else {
                None
            },
            None => None,
        }
    }
}

/// The content bytes denoted by a rendered string: the exact inverse of
/// [`spec_to_string`] on canonical renderings.
pub open spec fn spec_to_raw(enc: Encoding, cs: Seq<char>) -> Option<Seq<u8>>
    decreases cs.len(),
{
    match enc {
        Encoding::BINARY => spec_bytes_of_hex(cs),
        Encoding::BCD => spec_bcd_of_digit_chars(cs),
        _ => if cs.len() == 0 {
            Some(Seq::empty())
        } else {
            match spec_to_raw(enc, cs.drop_last()) {
                Some(rest) => {
                    let v = cs.last() as u32;
                    if enc == Encoding::ASCII {
                        if v < 0x80 {
                            Some(rest.push(cs.last() as u8))
                        } else {
                            None
                        }
                    } else {
                        if v < 0x80 {
                            match spec_ebcdic_of_ascii(cs.last() as u8) {
                                Some(e) => Some(rest.push(e)),
                                None => None,
                            }
                        } else {
                            None
                        }
                    }
                },
                None => None,
            }
        },
    }
}

/// Renders content bytes as their canonical string.
pub fn render_bytes(enc: Encoding, data: &Vec<u8>) -> (r: String)
    ensures
        r@ == spec_to_string(enc, data@),
{
    let mut out: Vec<u8> = Vec::new();
    let mut i: usize = 0;
    while i < data.len()
        invariant
            i <= data@.len(),
            ascii_chars_of(out@) =~= spec_to_string(enc, data@.take(i as int)),
            forall|j: int| 0 <= j < out@.len() ==> #[trigger] out@[j] < 0x80,
        decreases data@.len() - i,
    {
        let b = data[i];
        let ghost out_before = out@;
        match enc {
            Encoding::ASCII => {
                if b < 0x80 {
                    out.push(b);
                }
            },
            Encoding::EBCDIC => {
                match ascii_of_ebcdic(b) {
                    Some(a) => {
                        proof {
                            lemma_ebcdic_ascii_inverse(b);
                        }
                        out.push(a);
                    },
                    None => {},
                }
            },
            Encoding::BINARY => {
                out.push(digit_byte(b / 16));
                out.push(digit_byte(b % 16));
            },
            Encoding::BCD => {
                out.push(digit_byte(b / 16));
                out.push(digit_byte(b % 16));
            },
        }
        proof {
            assert(data@.take(i + 1).drop_last() =~= data@.take(i as int));
            assert(data@.take(i + 1).last() == b);
            assert(ascii_chars_of(out@) =~= ascii_chars_of(out_before) + spec_render_byte(enc, b));
        }
        i = i + 1;
    }
    proof {
        assert(data@.take(data@.len() as int) =~= data@);
    }
    ascii_string_of(out)
}

/// If some character at or after the pairing index is not a decimal digit,
/// the digit string does not pack.
proof fn lemma_bcd_chars_prefix_none(cs: Seq<char>, i: int)
    requires
        0 <= i < cs.len(),
        spec_dec_digit(cs[i]) is None,
    ensures
        spec_bcd_of_digit_chars(cs) is None,
    decreases cs.len(),
{
    if cs.len() > 2 && i < cs.len() - 2 {
        lemma_bcd_chars_prefix_none(cs.take(cs.len() - 2), i);
        assert(cs.take(cs.len() - 2)[i] == cs[i]);
    }
}

/// The bytes denoted by a rendered string, if well formed under `enc`.
#[verifier::loop_isolation(false)]
pub fn raw_of_string(enc: Encoding, s: &str) -> (r: Option<Vec<u8>>)
    ensures
        r is Some <==> spec_to_raw(enc, s@) is Some,
        r is Some ==> Some(r->Some_0@) == spec_to_raw(enc, s@),
{
    match enc {
        Encoding::BINARY => bytes_of_hex_str(s),
        Encoding::BCD => {
            let n = s.unicode_len();
            let mut out: Vec<u8> = Vec::new();
            let mut i: usize = 0;
            if n % 2 == 1 {
                match hex_nibble(s.get_char(0)) {
                    Some(d) if d < 10 => {
                        out.push(d);
                        proof {
                            assert(s@.take(1)[0] == s@[0]);
                            assert(spec_dec_digit(s@[0]) == Some(d));
                        }
                        i = 1;
                    },
                    _ => {
                        proof {
                            lemma_bcd_chars_prefix_none(s@, 0);
                        }
                        return None;
                    },
                }
            }
            while i < n
                invariant
                    i <= n,
                    (n - i) % 2 == 0,
                    n == s@.len(),
                    spec_bcd_of_digit_chars(s@.take(i as int)) == Some(out@),
                decreases n - i,
            {
                proof {
                    assert(i + 2 <= n);
                }
                let c0 = s.get_char(i);
                let c1 = s.get_char(i + 1);
                let hi = hex_nibble(c0);
                let lo = hex_nibble(c1);
                let both_digits = match (hi, lo) {
                    (Some(h), Some(l)) => h < 10 && l < 10,
                    _ => false,
                };
                if !both_digits {
                    proof {
                        assert(spec_dec_digit(s@[i as int]) is None || spec_dec_digit(
                            s@[i as int + 1],
                        ) is None);
                        if spec_dec_digit(s@[i as int]) is None {
                            lemma_bcd_chars_prefix_none(s@, i as int);
                        } else {
                            lemma_bcd_chars_prefix_none(s@, i as int + 1);
                        }
                        assert(spec_bcd_of_digit_chars(s@) is None);
                    }
                    return None;
                }
                let h = match hi {
                    Some(h) => h,
                    None => 0,
                };
                let l = match lo {
                    Some(l) => l,
                    None => 0,
                };
                out.push(h * 16 + l);
                proof {
                    let t = s@.take(i + 2);
                    assert(t.take(t.len() - 2) =~= s@.take(i as int));
                    assert(t[t.len() - 2] == s@[i as int]);
                    assert(t[t.len() - 1] == s@[i as int + 1]);
                }
                i = i + 2;
            }
            proof {
                assert(s@.take(n as int) =~= s@);
            }
            Some(out)
        },
        _ => {
            let n = s.unicode_len();
            let mut out: Vec<u8> = Vec::new();
            let mut i: usize = 0;
            while i < n
                invariant
                    i <= n,
                    n == s@.len(),
                    enc == Encoding::ASCII || enc == Encoding::EBCDIC,
                    spec_to_raw(enc, s@.take(i as int)) == Some(out@),
                decreases n - i,
            {
                let c = s.get_char(i);
                let v = c as u32;
                proof {
                    assert(s@.take(i + 1).drop_last() =~= s@.take(i as int));
                    assert(s@.take(i + 1).last() == s@[i as int]);
                }
                if v >= 0x80 {
                    proof {
                        lemma_to_raw_prefix_none(enc, s@, i as int);
                    }
                    return None;
                }
                match enc {
                    Encoding::ASCII => {
                        out.push(c as u8);
                    },
                    _ => {
                        match ebcdic_of_ascii(v as u8) {
                            Some(e) => {
                                out.push(e);
                            },
                            None => {
                                proof {
                                    lemma_to_raw_prefix_none(enc, s@, i as int);
                                }
                                return None;
                            },
                        }
                    },
                }
                i = i + 1;
            }
            proof {
                assert(s@.take(n as int) =~= s@);
            }
            Some(out)
        },
    }
}

/// A character that cannot convert spoils the whole string.
proof fn lemma_to_raw_prefix_none(enc: Encoding, cs: Seq<char>, i: int)
    requires
        enc == Encoding::ASCII || enc == Encoding::EBCDIC,
        0 <= i < cs.len(),
        cs[i] as u32 >= 0x80 || (enc == Encoding::EBCDIC && spec_ebcdic_of_ascii(cs[i] as u8)
            is None),
    ensures
        spec_to_raw(enc, cs) is None,
    decreases cs.len(),
{
    if i < cs.len() - 1 {
        lemma_to_raw_prefix_none(enc, cs.drop_last(), i);
        assert(cs.drop_last()[i] == cs[i]);
    }
}

/// Reading back the canonical rendering of alphabet-valid content yields the
/// original bytes: `to_raw` inverts `to_string`.
pub proof fn lemma_to_raw_inverts_to_string(enc: Encoding, s: Seq<u8>)
    requires
        spec_bytes_ok(enc, s),
    ensures
        spec_to_raw(enc, spec_to_string(enc, s)) == Some(s),
    decreases s.len(),
{
    if s.len() == 0 {
        assert(spec_to_string(enc, s) =~= Seq::<char>::empty());
        match enc {
            Encoding::BINARY => {
                assert(spec_to_raw(enc, spec_to_string(enc, s)) == Some(Seq::<u8>::empty()));
            },
            Encoding::BCD => {
                assert(spec_to_raw(enc, spec_to_string(enc, s)) == Some(Seq::<u8>::empty()));
            },
            _ => {
                assert(spec_to_raw(enc, spec_to_string(enc, s)) == Some(Seq::<u8>::empty()));
            },
        }
        assert(Seq::<u8>::empty() =~= s);
    } else {
        let front = s.drop_last();
        assert(spec_bytes_ok(enc, front)) by {
            assert(forall|i: int| 0 <= i < front.len() ==> front[i] == #[trigger] s[i]);
        }
        lemma_to_raw_inverts_to_string(enc, front);
        let b = s.last();
        assert(spec_byte_ok(enc, b));
        let cs = spec_to_string(enc, s);
        let csf = spec_to_string(enc, front);
        match enc {
            Encoding::ASCII => {
                assert(cs.drop_last() =~= csf);
                assert(cs.last() == (b as char));
                assert((b as char) as u32 == b as u32);
                assert(((b as char) as u8) == b);
                assert(spec_to_raw(enc, cs) == Some(front.push(b)));
                assert(front.push(b) =~= s);
            },
            Encoding::EBCDIC => {
                let a = spec_ascii_of_ebcdic(b)->Some_0;
                lemma_ebcdic_ascii_inverse(b);
                assert(cs.drop_last() =~= csf);
                assert(cs.last() == (a as char));
                assert((a as char) as u32 == a as u32);
                assert(((a as char) as u8) == a);
                assert(a < 0x80);
                assert(spec_ebcdic_of_ascii((a as char) as u8) == Some(b));
                assert(spec_to_raw(enc, cs) == Some(front.push(b)));
                assert(front.push(b) =~= s);
            },
            Encoding::BINARY => {
                lemma_to_string_binary_is_hex(s);
                lemma_hex_round_trip(s);
            },
            Encoding::BCD => {
                let hi = (b / 16) as u8;
                let lo = (b % 16) as u8;
                assert(cs.take(cs.len() - 2) =~= csf);
                assert(cs.len() >= 2 && cs.len() == csf.len() + 2) by {
                    lemma_to_string_bcd_len(front);
                    lemma_to_string_bcd_len(s);
                }
                assert(cs[cs.len() - 2] == spec_digit_char(hi));
                assert(cs[cs.len() - 1] == spec_digit_char(lo));
                assert(spec_dec_digit(spec_digit_char(hi)) == Some(hi));
                assert(spec_dec_digit(spec_digit_char(lo)) == Some(lo));
                assert((hi * 16 + lo) as u8 == b);
                assert(spec_bcd_of_digit_chars(cs) == Some(front.push(b)));
                assert(front.push(b) =~= s);
            },
        }
    }
}

/// Rendering under the binary encoding is the hexadecimal rendering.
proof fn lemma_to_string_binary_is_hex(s: Seq<u8>)
    ensures
        spec_to_string(Encoding::BINARY, s) =~= spec_hex_of_bytes(s),
    decreases s.len(),
{
    if s.len() > 0 {
        lemma_to_string_binary_is_hex(s.drop_last());
    }
}

/// A BCD rendering has two characters per byte.
proof fn lemma_to_string_bcd_len(s: Seq<u8>)
    ensures
        spec_to_string(Encoding::BCD, s).len() == 2 * s.len(),
    decreases s.len(),
{
    if s.len() > 0 {
        lemma_to_string_bcd_len(s.drop_last());
    }
}

} // verus!
