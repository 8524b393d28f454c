//! The field model: fixed-width fields, variable-length fields with an
//! encoded decimal length prefix, and the composite bitmap field's children.

use vstd::prelude::*;
use crate::encoding::{
    Encoding,
    spec_byte_length,
    byte_length,
    spec_bytes_ok,
    bytes_ok,
};
use crate::errors::ParseError;
use crate::fieldmap::FieldMap;
use crate::radix::{
    pow_of,
    radix_value,
    radix_digits,
    lemma_radix_digits_wf,
    lemma_radix_round_trip,
    lemma_radix_digits_unique,
};

verus! {

/// A field of `len` characters read under `encoding`.
#[derive(Debug)]
pub struct FixedField {
    pub name: String,
    pub position: u32,
    pub len: usize,
    pub encoding: Encoding,
}

/// A field whose content is preceded by a `len`-digit length prefix encoded
/// under `len_encoding`; the prefix gives the content length in characters.
#[derive(Debug)]
pub struct VarField {
    pub name: String,
    pub position: u32,
    pub len: usize,
    pub encoding: Encoding,
    pub len_encoding: Encoding,
}

/// A child of the composite bitmap field.
#[derive(Debug)]
pub enum ChildField {
    Fixed(FixedField),
    Var(VarField),
}

/// How many digits a length prefix may carry, so that its value fits the
/// machine: 3 bytes for a binary prefix, 7 digits for BCD, 9 otherwise.
pub open spec fn prefix_wf(enc: Encoding, d: nat) -> bool {
    match enc {
        Encoding::BINARY => 1 <= d <= 3,
        Encoding::BCD => 1 <= d <= 7,
        _ => 1 <= d <= 9,
    }
}

/// The largest value a `d`-digit length prefix under `enc` can carry, plus
/// one.
pub open spec fn spec_prefix_cap(enc: Encoding, d: nat) -> nat {
    match enc {
        Encoding::BINARY => pow_of(256, d),
        _ => pow_of(10, d),
    }
}

impl FixedField {
    /// Machine bounds on a fixed field's declaration.
    pub open spec fn wf(self) -> bool {
        1 <= self.len <= 0xffff
    }
}

impl VarField {
    /// Machine bounds on a variable field's declaration.
    pub open spec fn wf(self) -> bool {
        prefix_wf(self.len_encoding, self.len as nat)
    }
}

impl ChildField {
    /// The field's name.
    pub open spec fn spec_name(self) -> Seq<char> {
        match self {
            ChildField::Fixed(f) => f.name@,
            ChildField::Var(f) => f.name@,
        }
    }

    /// The field's bitmap position.
    pub open spec fn spec_position(self) -> u32 {
        match self {
            ChildField::Fixed(f) => f.position,
            ChildField::Var(f) => f.position,
        }
    }

    /// Machine bounds on the declaration.
    pub open spec fn wf(self) -> bool {
        match self {
            ChildField::Fixed(f) => f.wf(),
            ChildField::Var(f) => f.wf(),
        }
    }

    /// The field's name.
    pub fn name(&self) -> (r: &String)
        ensures
            r@ == self.spec_name(),
    {
        match self {
            ChildField::Fixed(f) => &f.name,
            ChildField::Var(f) => &f.name,
        }
    }

    /// The field's bitmap position.
    pub fn position(&self) -> (r: u32)
        ensures
            r == self.spec_position(),
    {
        match self {
            ChildField::Fixed(f) => f.position,
            ChildField::Var(f) => f.position,
        }
    }

    /// The field's content encoding.
    pub fn encoding(&self) -> (r: Encoding)
        ensures
            r == self.spec_encoding(),
    {
        match self {
            ChildField::Fixed(f) => f.encoding,
            ChildField::Var(f) => f.encoding,
        }
    }

    /// The field's content encoding.
    pub open spec fn spec_encoding(self) -> Encoding {
        match self {
            ChildField::Fixed(f) => f.encoding,
            ChildField::Var(f) => f.encoding,
        }
    }
}

/// The decimal (or, for a binary prefix, base-256) value of length-prefix
/// bytes; `None` when a byte falls outside the encoding's digit alphabet.
pub open spec fn spec_prefix_value(enc: Encoding, s: Seq<u8>) -> Option<nat>
    decreases s.len(),
{
    if s.len() == 0 {
        Some(0nat)
    } else {
        match spec_prefix_value(enc, s.drop_last()) {
            None => None,
            Some(v) => {
                let b = s.last();
                match enc {
                    Encoding::ASCII => if 0x30 <= b <= 0x39 {
                        Some((v * 10 + (b - 0x30)) as nat)
                    } else {
                        None
                    },
                    Encoding::EBCDIC => if 0xf0 <= b <= 0xf9 {
                        Some((v * 10 + (b - 0xf0)) as nat)
                    } else {
                        None
                    },
                    Encoding::BCD => if b / 16 <= 9 && b % 16 <= 9 {
                        Some((v * 100 + (b / 16) * 10 + b % 16) as nat)
                    } else {
                        None
                    },
                    Encoding::BINARY => Some((v * 256 + b) as nat),
                }
            },
        }
    }
}

/// Whether a length-prefix byte is a digit of `enc`'s alphabet.
pub open spec fn spec_prefix_byte_ok(enc: Encoding, b: u8) -> bool {
    match enc {
        Encoding::ASCII => 0x30 <= b <= 0x39,
        Encoding::EBCDIC => 0xf0 <= b <= 0xf9,
        Encoding::BCD => b / 16 <= 9 && b % 16 <= 9,
        Encoding::BINARY => true,
    }
}

/// A prefix has a value exactly when every byte is a digit.
pub proof fn lemma_prefix_value_some(enc: Encoding, s: Seq<u8>)
    ensures
        spec_prefix_value(enc, s) is Some <==> (forall|i: int|
            0 <= i < s.len() ==> spec_prefix_byte_ok(enc, #[trigger] s[i])),
    decreases s.len(),
{
    if s.len() > 0 {
        lemma_prefix_value_some(enc, s.drop_last());
        if spec_prefix_value(enc, s) is Some {
            assert forall|i: int| 0 <= i < s.len() implies spec_prefix_byte_ok(
                enc,
                #[trigger] s[i],
            ) by {
                if i < s.len() - 1 {
                    assert(s.drop_last()[i] == s[i]);
                }
            }
        } else {
            if forall|i: int| 0 <= i < s.len() ==> spec_prefix_byte_ok(enc, #[trigger] s[i]) {
                assert forall|i: int| 0 <= i < s.drop_last().len() implies spec_prefix_byte_ok(
                    enc,
                    #[trigger] s.drop_last()[i],
                ) by {
                    assert(s.drop_last()[i] == s[i]);
                }
                assert(spec_prefix_value(enc, s.drop_last()) is Some);
                assert(spec_prefix_byte_ok(enc, s.last()));
            }
        }
    }
}

/// Prefix values are bounded by the alphabet's capacity for the byte count.
pub proof fn lemma_prefix_value_bound(enc: Encoding, s: Seq<u8>)
    requires
        spec_prefix_value(enc, s) is Some,
    ensures
        spec_prefix_value(enc, s)->Some_0 < (match enc {
            Encoding::BCD => pow_of(10, 2 * s.len()),
            Encoding::BINARY => pow_of(256, s.len()),
            _ => pow_of(10, s.len()),
        }),
    decreases s.len(),
{
    if s.len() > 0 {
        lemma_prefix_value_bound(enc, s.drop_last());
        let v = spec_prefix_value(enc, s.drop_last())->Some_0;
        match enc {
            Encoding::BCD => {
                let p = pow_of(10, 2 * (s.len() - 1) as nat);
                assert(pow_of(10, 2 * s.len()) == 10 * pow_of(10, (2 * s.len() - 1) as nat));
                assert(pow_of(10, (2 * s.len() - 1) as nat) == 10 * p);
                assert(v * 100 + 99 < 100 * p) by (nonlinear_arith)
                    requires
                        v < p,
                        p >= 1,
                ;
            },
            Encoding::BINARY => {
                let p = pow_of(256, (s.len() - 1) as nat);
                assert(v * 256 + 255 < 256 * p) by (nonlinear_arith)
                    requires
                        v < p,
                        p >= 1,
                ;
            },
            _ => {
                let p = pow_of(10, (s.len() - 1) as nat);
                assert(v * 10 + 9 < 10 * p) by (nonlinear_arith)
                    requires
                        v < p,
                        p >= 1,
                ;
            },
        }
    }
}

/// Every power of a positive base is at least one.
pub proof fn lemma_pow_pos(base: nat, k: nat)
    requires
        base >= 1,
    ensures
        pow_of(base, k) >= 1,
    decreases k,
{
    if k > 0 {
        lemma_pow_pos(base, (k - 1) as nat);
        assert(base * pow_of(base, (k - 1) as nat) >= 1) by (nonlinear_arith)
            requires
                base >= 1,
                pow_of(base, (k - 1) as nat) >= 1,
        ;
    }
}

/// Reads the `d`-digit length prefix at `buf[pos..]` under `enc`. Returns the
/// prefix's decimal value and the position after it, or `None` when the
/// buffer is short or a byte is not a digit of `enc`.
pub fn parse_prefix(enc: Encoding, buf: &Vec<u8>, pos: usize, d: usize) -> (r: Option<(u32, usize)>)
    requires
        pos <= buf@.len(),
        prefix_wf(enc, d as nat),
    ensures
        ({
            let pn = spec_byte_length(enc, d as nat);
            match r {
                Some((n, np)) => pos + pn <= buf@.len() && spec_prefix_value(
                    enc,
                    buf@.subrange(pos as int, pos as int + pn),
                ) == Some(n as nat) && np == pos + pn,
                None => pos + pn > buf@.len() || spec_prefix_value(
                    enc,
                    buf@.subrange(pos as int, pos as int + pn),
                ) is None,
            }
        }),
{
    let pn = byte_length(enc, d);
    if buf.len() - pos < pn {
        return None;
    }
    proof {
        lemma_prefix_cap_fits(enc, d as nat);
    }
    let end = buf.len();
    let ghost s = buf@.subrange(pos as int, pos as int + pn as int);
    let mut acc: u64 = 0;
    let mut i: usize = 0;
    while i < pn
        invariant
            0 <= i <= pn,
            pos + pn <= end,
            end == buf@.len(),
            s == buf@.subrange(pos as int, pos as int + pn as int),
            s.len() == pn,
            prefix_wf(enc, d as nat),
            pn == spec_byte_length(enc, d as nat),
            spec_prefix_value(enc, s.take(i as int)) == Some(acc as nat),
            acc < spec_prefix_value_cap(enc, i as nat),
            spec_prefix_value_cap(enc, pn as nat) <= 0x1_0000_0000,
        decreases pn - i,
    {
        let b = buf[pos + i];
        proof {
            assert(s[i as int] == b);
            assert(s.take(i + 1).drop_last() =~= s.take(i as int));
            assert(s.take(i + 1).last() == b);
            lemma_cap_step(enc, i as nat);
            lemma_cap_mono(enc, (i + 1) as nat, pn as nat);
        }
        match enc {
            Encoding::ASCII => {
                if b < 0x30 || b > 0x39 {
                    proof {
                        lemma_prefix_value_some(enc, s);
                    }
                    return None;
                }
                acc = acc * 10 + ((b - 0x30) as u64);
            },
            Encoding::EBCDIC => {
                if b < 0xf0 || b > 0xf9 {
                    proof {
                        lemma_prefix_value_some(enc, s);
                    }
                    return None;
                }
                acc = acc * 10 + ((b - 0xf0) as u64);
            },
            Encoding::BCD => {
                if b / 16 > 9 || b % 16 > 9 {
                    proof {
                        lemma_prefix_value_some(enc, s);
                    }
                    return None;
                }
                acc = acc * 100 + ((b / 16) as u64) * 10 + ((b % 16) as u64);
            },
            Encoding::BINARY => {
                acc = acc * 256 + (b as u64);
            },
        }
        i = i + 1;
    }
    proof {
        assert(s.take(pn as int) =~= s);
    }
    Some((acc as u32, pos + pn))
}

/// The value bound reached after consuming `i` prefix bytes.
pub open spec fn spec_prefix_value_cap(enc: Encoding, i: nat) -> nat {
    match enc {
        Encoding::BCD => pow_of(10, 2 * i),
        Encoding::BINARY => pow_of(256, i),
        _ => pow_of(10, i),
    }
}

/// One more prefix byte multiplies the value bound by the alphabet size.
proof fn lemma_cap_step(enc: Encoding, i: nat)
    ensures
        match enc {
            Encoding::BCD => spec_prefix_value_cap(enc, i + 1) == 100 * spec_prefix_value_cap(
                enc,
                i,
            ),
            Encoding::BINARY => spec_prefix_value_cap(enc, i + 1) == 256 * spec_prefix_value_cap(
                enc,
                i,
            ),
            _ => spec_prefix_value_cap(enc, i + 1) == 10 * spec_prefix_value_cap(enc, i),
        },
{
    match enc {
        Encoding::BCD => {
            assert(2 * (i + 1) == 2 * i + 2);
            assert(pow_of(10, 2 * i + 2) == 10 * pow_of(10, 2 * i + 1));
            assert(pow_of(10, 2 * i + 1) == 10 * pow_of(10, 2 * i));
        },
        _ => {},
    }
}

/// The value bound grows with the byte count.
proof fn lemma_cap_mono(enc: Encoding, a: nat, b: nat)
    requires
        a <= b,
    ensures
        spec_prefix_value_cap(enc, a) <= spec_prefix_value_cap(enc, b),
    decreases b,
{
    if a < b {
        lemma_cap_mono(enc, a, (b - 1) as nat);
        lemma_cap_step(enc, (b - 1) as nat);
        match enc {
            Encoding::BCD => {
                lemma_pow_pos(10, 2 * (b - 1) as nat);
            },
            Encoding::BINARY => {
                lemma_pow_pos(256, (b - 1) as nat);
            },
            _ => {
                lemma_pow_pos(10, (b - 1) as nat);
            },
        }
        let c = spec_prefix_value_cap(enc, (b - 1) as nat);
        assert(c <= 10 * c && c <= 100 * c && c <= 256 * c) by (nonlinear_arith)
            requires
                c >= 1,
        ;
    }
}

/// The machine bound on any well-formed prefix's value.
pub proof fn lemma_prefix_cap_fits(enc: Encoding, d: nat)
    requires
        prefix_wf(enc, d),
    ensures
        spec_prefix_value_cap(enc, spec_byte_length(enc, d)) <= 0x1_0000_0000,
        spec_prefix_cap(enc, d) <= spec_prefix_value_cap(enc, spec_byte_length(enc, d)),
{
    lemma_pow_unfold_all();
    match enc {
        Encoding::BCD => {
            lemma_pow10_mono(d, 2 * spec_byte_length(enc, d));
        },
        Encoding::BINARY => {
        },
        _ => {
            assert(spec_byte_length(enc, d) == d);
        },
    }
}

/// Powers of ten are monotone in the exponent.
proof fn lemma_pow10_mono(a: nat, b: nat)
    requires
        a <= b,
    ensures
        pow_of(10, a) <= pow_of(10, b),
    decreases b,
{
    if a < b {
        lemma_pow10_mono(a, (b - 1) as nat);
        lemma_pow_pos(10, (b - 1) as nat);
    }
}

/// Evaluates the small powers the prefix bounds rest on.
proof fn lemma_pow_unfold_all()
    ensures
        pow_of(10, 0) == 1,
        pow_of(10, 1) == 10,
        pow_of(10, 2) == 100,
        pow_of(10, 3) == 1000,
        pow_of(10, 4) == 10000,
        pow_of(10, 5) == 100000,
        pow_of(10, 6) == 1000000,
        pow_of(10, 7) == 10000000,
        pow_of(10, 8) == 100000000,
        pow_of(10, 9) == 1000000000,
        pow_of(256, 0) == 1,
        pow_of(256, 1) == 256,
        pow_of(256, 2) == 65536,
        pow_of(256, 3) == 16777216,
{
    reveal_with_fuel(pow_of, 11);
}


/// The reversal of a byte sequence.
pub open spec fn rev_of(s: Seq<u8>) -> Seq<u8> {
    Seq::new(s.len(), |i: int| s[s.len() - 1 - i])
}

/// Decimal digit values mapped to bytes at a fixed offset (ASCII `0x30`,
/// EBCDIC `0xf0`).
pub open spec fn map_digits(ds: Seq<u8>, off: u8) -> Seq<u8>
    recommends
        off == 0x30 || off == 0xf0,
{
    Seq::new(ds.len(), |i: int| (ds[i] + off) as u8)
}

/// Digit values packed two per byte, high nibble first.
pub open spec fn pack_bcd(ds: Seq<u8>) -> Seq<u8>
    recommends
        ds.len() % 2 == 0,
    decreases ds.len(),
{
    if ds.len() < 2 {
        Seq::empty()
    } else {
        pack_bcd(ds.take(ds.len() - 2)).push(
            (ds[ds.len() - 2] * 16 + ds[ds.len() - 1]) as u8,
        )
    }
}

/// The on-wire bytes of a `d`-digit length prefix carrying the value `n`:
/// zero-padded decimal digits under the prefix encoding, packed for BCD with
/// a leading zero nibble when `d` is odd, or a big-endian integer for binary.
pub open spec fn spec_prefix_bytes(enc: Encoding, n: nat, d: nat) -> Seq<u8>
    recommends
        n < spec_prefix_cap(enc, d),
{
    match enc {
        Encoding::ASCII => map_digits(radix_digits(10, n, d), 0x30),
        Encoding::EBCDIC => map_digits(radix_digits(10, n, d), 0xf0),
        Encoding::BINARY => radix_digits(256, n, d),
        Encoding::BCD => pack_bcd(
            if d % 2 == 1 {
                seq![0u8] + radix_digits(10, n, d)
            } else {
                radix_digits(10, n, d)
            },
        ),
    }
}

/// Packing digit pairs halves the length.
proof fn lemma_pack_bcd_len(ds: Seq<u8>)
    requires
        ds.len() % 2 == 0,
    ensures
        pack_bcd(ds).len() == ds.len() / 2,
    decreases ds.len(),
{
    if ds.len() >= 2 {
        lemma_pack_bcd_len(ds.take(ds.len() - 2));
    }
}

/// The prefix bytes occupy exactly the encoding's byte length for `d` digits.
pub proof fn lemma_prefix_bytes_len(enc: Encoding, n: nat, d: nat)
    ensures
        spec_prefix_bytes(enc, n, d).len() == spec_byte_length(enc, d),
{
    match enc {
        Encoding::ASCII => {
            lemma_radix_digits_wf(10, n, d);
        },
        Encoding::EBCDIC => {
            lemma_radix_digits_wf(10, n, d);
        },
        Encoding::BINARY => {
            lemma_radix_digits_wf(256, n, d);
        },
        Encoding::BCD => {
            lemma_radix_digits_wf(10, n, d);
            let ds = radix_digits(10, n, d);
            let padded = if d % 2 == 1 {
                seq![0u8] + ds
            } else {
                ds
            };
            assert(padded.len() % 2 == 0);
            lemma_pack_bcd_len(padded);
        },
    }
}

/// The decimal value of offset-mapped digits is the digits' radix-10 value.
proof fn lemma_value_of_mapped_digits(enc: Encoding, ds: Seq<u8>, off: u8)
    requires
        (enc == Encoding::ASCII && off == 0x30) || (enc == Encoding::EBCDIC && off == 0xf0),
        forall|i: int| 0 <= i < ds.len() ==> #[trigger] ds[i] < 10,
    ensures
        spec_prefix_value(enc, map_digits(ds, off)) == Some(radix_value(10, ds)),
    decreases ds.len(),
{
    if ds.len() > 0 {
        let front = ds.drop_last();
        assert(forall|i: int| 0 <= i < front.len() ==> #[trigger] front[i] < 10);
        lemma_value_of_mapped_digits(enc, front, off);
        assert(map_digits(ds, off).drop_last() =~= map_digits(front, off));
        assert(map_digits(ds, off).last() == (ds.last() + off) as u8);
    }
}

/// The value of a binary prefix is its base-256 value.
proof fn lemma_value_binary(s: Seq<u8>)
    ensures
        spec_prefix_value(Encoding::BINARY, s) == Some(radix_value(256, s)),
    decreases s.len(),
{
    if s.len() > 0 {
        lemma_value_binary(s.drop_last());
    }
}

/// Prepending a zero digit does not change a numeral's value.
proof fn lemma_radix_value_zero_prepend(ds: Seq<u8>)
    ensures
        radix_value(10, seq![0u8] + ds) == radix_value(10, ds),
    decreases ds.len(),
{
    if ds.len() == 0 {
        assert((seq![0u8] + ds) =~= seq![0u8]);
        assert(radix_value(10, seq![0u8]) == radix_value(10, seq![0u8].drop_last()) * 10 + 0);
        assert(seq![0u8].drop_last() =~= Seq::<u8>::empty());
    } else {
        lemma_radix_value_zero_prepend(ds.drop_last());
        assert((seq![0u8] + ds).drop_last() =~= seq![0u8] + ds.drop_last());
        assert((seq![0u8] + ds).last() == ds.last());
    }
}

/// The value of packed digits is their radix-10 value.
proof fn lemma_value_of_packed_digits(ds: Seq<u8>)
    requires
        ds.len() % 2 == 0,
        forall|i: int| 0 <= i < ds.len() ==> #[trigger] ds[i] < 10,
    ensures
        spec_prefix_value(Encoding::BCD, pack_bcd(ds)) == Some(radix_value(10, ds)),
    decreases ds.len(),
{
    if ds.len() >= 2 {
        let front = ds.take(ds.len() - 2);
        assert(forall|i: int| 0 <= i < front.len() ==> #[trigger] front[i] < 10);
        lemma_value_of_packed_digits(front);
        let hi = ds[ds.len() - 2];
        let lo = ds.last();
        let b = (hi * 16 + lo) as u8;
        assert(b / 16 == hi && b % 16 == lo) by (nonlinear_arith)
            requires
                hi < 10,
                lo < 10,
                b == hi * 16 + lo,
        ;
        assert(pack_bcd(ds).drop_last() =~= pack_bcd(front));
        assert(ds.drop_last().drop_last() =~= front);
        assert(radix_value(10, ds) == radix_value(10, ds.drop_last()) * 10 + lo);
        assert(radix_value(10, ds.drop_last()) == radix_value(10, front) * 10 + hi);
    }
}

/// Parsing a freshly assembled length prefix yields the value it was
/// assembled from.
pub proof fn lemma_prefix_round_trip(enc: Encoding, n: nat, d: nat)
    requires
        prefix_wf(enc, d),
        n < spec_prefix_cap(enc, d),
    ensures
        spec_prefix_value(enc, spec_prefix_bytes(enc, n, d)) == Some(n),
{
    match enc {
        Encoding::ASCII => {
            lemma_radix_digits_wf(10, n, d);
            lemma_radix_round_trip(10, n, d);
            lemma_value_of_mapped_digits(enc, radix_digits(10, n, d), 0x30);
        },
        Encoding::EBCDIC => {
            lemma_radix_digits_wf(10, n, d);
            lemma_radix_round_trip(10, n, d);
            lemma_value_of_mapped_digits(enc, radix_digits(10, n, d), 0xf0);
        },
        Encoding::BINARY => {
            lemma_radix_digits_wf(256, n, d);
            lemma_radix_round_trip(256, n, d);
            lemma_value_binary(radix_digits(256, n, d));
        },
        Encoding::BCD => {
            lemma_radix_digits_wf(10, n, d);
            lemma_radix_round_trip(10, n, d);
            let ds = radix_digits(10, n, d);
            if d % 2 == 1 {
                let padded = seq![0u8] + ds;
                assert(forall|i: int| 0 <= i < padded.len() ==> #[trigger] padded[i] < 10);
                lemma_value_of_packed_digits(padded);
                lemma_radix_value_zero_prepend(ds);
            } else {
                lemma_value_of_packed_digits(ds);
            }
        },
    }
}

/// The zero-padded numeral of `n` in the given base, most significant digit
/// first.
fn radix_digits_vec(base: u32, n: u32, d: usize) -> (r: Vec<u8>)
    requires
        base == 10 || base == 256,
        (n as nat) < pow_of(base as nat, d as nat),
        d <= 9,
    ensures
        r@ =~= radix_digits(base as nat, n as nat, d as nat),
{
    let mut tmp: Vec<u8> = Vec::new();
    let mut m = n;
    let mut k = d;
    while k > 0
        invariant
            base == 10 || base == 256,
            k <= d,
            tmp@.len() == d - k,
            (m as nat) < pow_of(base as nat, k as nat),
            radix_digits(base as nat, n as nat, d as nat) =~= radix_digits(
                base as nat,
                m as nat,
                k as nat,
            ) + rev_of(tmp@),
        decreases k,
    {
        let ghost tmp0 = tmp@;
        let ghost m0 = m as nat;
        let ghost k0 = k as nat;
        let dig = (m % base) as u8;
        tmp.push(dig);
        m = m / base;
        k = k - 1;
        proof {
            assert((m as nat) < pow_of(base as nat, k as nat)) by (nonlinear_arith)
                requires
                    base >= 2,
                    (m0 as int) < (base as int) * (pow_of(base as nat, k as nat) as int),
                    m == m0 / (base as nat),
            ;
            assert(radix_digits(base as nat, m0, k0) == radix_digits(
                base as nat,
                m as nat,
                k as nat,
            ).push(dig));
            assert(rev_of(tmp@) =~= seq![dig] + rev_of(tmp0));
            assert(radix_digits(base as nat, m as nat, k as nat).push(dig) + rev_of(tmp0)
                =~= radix_digits(base as nat, m as nat, k as nat) + (seq![dig] + rev_of(tmp0)));
        }
    }
    let mut r: Vec<u8> = Vec::new();
    let mut j = tmp.len();
    while j > 0
        invariant
            j <= tmp@.len(),
            r@.len() == tmp@.len() - j,
            forall|t: int| 0 <= t < r@.len() ==> r@[t] == tmp@[tmp@.len() - 1 - t],
        decreases j,
    {
        j = j - 1;
        r.push(tmp[j]);
    }
    proof {
        assert(r@ =~= rev_of(tmp@));
    }
    r
}

/// Appends the on-wire bytes of a `d`-digit length prefix carrying `n`.
pub fn assemble_prefix(enc: Encoding, out: &mut Vec<u8>, n: u32, d: usize)
    requires
        prefix_wf(enc, d as nat),
        (n as nat) < spec_prefix_cap(enc, d as nat),
    ensures
        final(out)@ =~= old(out)@ + spec_prefix_bytes(enc, n as nat, d as nat),
{
    let ghost out0 = out@;
    match enc {
        Encoding::ASCII => {
            let ds = radix_digits_vec(10, n, d);
            proof {
                lemma_radix_digits_wf(10, n as nat, d as nat);
            }
            let mut i: usize = 0;
            while i < ds.len()
                invariant
                    i <= ds@.len(),
                    ds@ == radix_digits(10, n as nat, d as nat),
                    forall|t: int| 0 <= t < ds@.len() ==> #[trigger] ds@[t] < 10,
                    out@ =~= out0 + map_digits(ds@.take(i as int), 0x30),
                decreases ds@.len() - i,
            {
                out.push(0x30 + ds[i]);
                proof {
                    assert(map_digits(ds@.take(i + 1), 0x30) =~= map_digits(
                        ds@.take(i as int),
                        0x30,
                    ).push((ds@[i as int] + 0x30) as u8));
                }
                i = i + 1;
            }
            proof {
                assert(ds@.take(ds@.len() as int) =~= ds@);
            }
        },
        Encoding::EBCDIC => {
            let ds = radix_digits_vec(10, n, d);
            proof {
                lemma_radix_digits_wf(10, n as nat, d as nat);
            }
            let mut i: usize = 0;
            while i < ds.len()
                invariant
                    i <= ds@.len(),
                    ds@ == radix_digits(10, n as nat, d as nat),
                    forall|t: int| 0 <= t < ds@.len() ==> #[trigger] ds@[t] < 10,
                    out@ =~= out0 + map_digits(ds@.take(i as int), 0xf0),
                decreases ds@.len() - i,
            {
                out.push(0xf0 + ds[i]);
                proof {
                    assert(map_digits(ds@.take(i + 1), 0xf0) =~= map_digits(
                        ds@.take(i as int),
                        0xf0,
                    ).push((ds@[i as int] + 0xf0) as u8));
                }
                i = i + 1;
            }
            proof {
                assert(ds@.take(ds@.len() as int) =~= ds@);
            }
        },
        Encoding::BINARY => {
            let ds = radix_digits_vec(256, n, d);
            let mut i: usize = 0;
            while i < ds.len()
                invariant
                    i <= ds@.len(),
                    ds@ == radix_digits(256, n as nat, d as nat),
                    out@ =~= out0 + ds@.take(i as int),
                decreases ds@.len() - i,
            {
                out.push(ds[i]);
                proof {
                    assert(ds@.take(i + 1) =~= ds@.take(i as int).push(ds@[i as int]));
                }
                i = i + 1;
            }
            proof {
                assert(ds@.take(ds@.len() as int) =~= ds@);
            }
        },
        Encoding::BCD => {
            let ds = radix_digits_vec(10, n, d);
            proof {
                lemma_radix_digits_wf(10, n as nat, d as nat);
            }
            let mut pd: Vec<u8> = Vec::new();
            if d % 2 == 1 {
                pd.push(0);
            }
            let mut i: usize = 0;
            while i < ds.len()
                invariant
                    i <= ds@.len(),
                    ds@ == radix_digits(10, n as nat, d as nat),
                    forall|t: int| 0 <= t < ds@.len() ==> #[trigger] ds@[t] < 10,
                    pd@ =~= (if (d as nat) % 2 == 1 {
                        seq![0u8] + ds@.take(i as int)
                    } else {
                        ds@.take(i as int)
                    }),
                decreases ds@.len() - i,
            {
                pd.push(ds[i]);
                proof {
                    assert(ds@.take(i + 1) =~= ds@.take(i as int).push(ds@[i as int]));
                }
                i = i + 1;
            }
            proof {
                assert(ds@.take(ds@.len() as int) =~= ds@);
            }
            let ghost padded = pd@;
            proof {
                assert(padded.len() % 2 == 0);
                assert(forall|t: int| 0 <= t < padded.len() ==> #[trigger] padded[t] < 10);
            }
            let half = pd.len() / 2;
            let mut j: usize = 0;
            while j < half
                invariant
                    j <= half,
                    half == padded.len() / 2,
                    padded.len() % 2 == 0,
                    padded.len() <= 10,
                    pd@ == padded,
                    forall|t: int| 0 <= t < padded.len() ==> #[trigger] padded[t] < 10,
                    out@ =~= out0 + pack_bcd(padded.take(2 * j as int)),
                decreases half - j,
            {
                out.push(pd[2 * j] * 16 + pd[2 * j + 1]);
                proof {
                    let t = padded.take(2 * (j + 1) as int);
                    assert(t.take(t.len() - 2) =~= padded.take(2 * j as int));
                    assert(t[t.len() - 2] == padded[2 * j as int]);
                    assert(t[t.len() - 1] == padded[2 * j as int + 1]);
                }
                j = j + 1;
            }
            proof {
                assert(padded.take(padded.len() as int) =~= padded);
            }
        },
    }
}


/// Copies `buf[from..to]` into a fresh vector.
pub fn copy_range(buf: &Vec<u8>, from: usize, to: usize) -> (r: Vec<u8>)
    requires
        from <= to <= buf@.len(),
    ensures
        r@ == buf@.subrange(from as int, to as int),
{
    let mut r: Vec<u8> = Vec::new();
    let mut i = from;
    while i < to
        invariant
            from <= i <= to <= buf@.len(),
            r@ =~= buf@.subrange(from as int, i as int),
        decreases to - i,
    {
        r.push(buf[i]);
        proof {
            assert(buf@.subrange(from as int, i + 1) =~= buf@.subrange(from as int, i as int).push(
                buf@[i as int],
            ));
        }
        i = i + 1;
    }
    r
}

/// Parsing a fixed field at `pos`: its content bytes and the position after
/// them, or `None` when the buffer is short or a byte falls outside the
/// field's alphabet.
pub open spec fn spec_parse_fixed(f: FixedField, buf: Seq<u8>, pos: int) -> Option<(Seq<u8>, int)> {
    let n = spec_byte_length(f.encoding, f.len as nat);
    if pos + n <= buf.len() && spec_bytes_ok(f.encoding, buf.subrange(pos, pos + n)) {
        Some((buf.subrange(pos, pos + n), pos + n))
    } else {
        None
    }
}

/// Parsing a variable field at `pos`: reads the length prefix, then that many
/// characters of content; the content bytes and the position after them, or
/// `None` when the buffer is short, the prefix is not a numeral, or a content
/// byte falls outside the field's alphabet.
pub open spec fn spec_parse_var(f: VarField, buf: Seq<u8>, pos: int) -> Option<(Seq<u8>, int)> {
    let pn = spec_byte_length(f.len_encoding, f.len as nat);
    if pos + pn <= buf.len() {
        match spec_prefix_value(f.len_encoding, buf.subrange(pos, pos + pn)) {
            Some(n) => {
                let cn = spec_byte_length(f.encoding, n);
                if pos + pn + cn <= buf.len() && spec_bytes_ok(
                    f.encoding,
                    buf.subrange(pos + pn, pos + pn + cn),
                ) {
                    Some((buf.subrange(pos + pn, pos + pn + cn), pos + pn + cn))
                } else {
                    None
                }
            },
            None => None,
        }
    } else {
        None
    }
}

/// Parsing a bitmap child at `pos`.
pub open spec fn spec_parse_child(c: ChildField, buf: Seq<u8>, pos: int) -> Option<(Seq<u8>, int)> {
    match c {
        ChildField::Fixed(f) => spec_parse_fixed(f, buf, pos),
        ChildField::Var(f) => spec_parse_var(f, buf, pos),
    }
}

/// The character count of stored content bytes: two digits per byte for BCD,
/// one character per byte otherwise.
pub open spec fn spec_content_chars(enc: Encoding, n_bytes: nat) -> nat {
    match enc {
        Encoding::BCD => 2 * n_bytes,
        _ => n_bytes,
    }
}

/// Assembling a field's wire bytes from its stored content: the content
/// itself for a fixed field of the exact declared width, or the length prefix
/// followed by the content for a variable field whose character count the
/// prefix can carry; `None` otherwise.
pub open spec fn spec_assemble_child(c: ChildField, content: Seq<u8>) -> Option<Seq<u8>> {
    match c {
        ChildField::Fixed(f) => spec_assemble_fixed(f, content),
        ChildField::Var(f) => spec_assemble_var(f, content),
    }
}

/// Assembling a fixed field: the content itself, when it has exactly the
/// declared width.
pub open spec fn spec_assemble_fixed(f: FixedField, content: Seq<u8>) -> Option<Seq<u8>> {
    if content.len() == spec_byte_length(f.encoding, f.len as nat) {
        Some(content)
    } else {
        None
    }
}

/// Assembling a variable field: the length prefix derived from the content's
/// character count, then the content, when the prefix can carry that count.
pub open spec fn spec_assemble_var(f: VarField, content: Seq<u8>) -> Option<Seq<u8>> {
    let chars = spec_content_chars(f.encoding, content.len());
    if chars < spec_prefix_cap(f.len_encoding, f.len as nat) {
        Some(spec_prefix_bytes(f.len_encoding, chars, f.len as nat) + content)
    } else {
        None
    }
}

/// The largest value a well-formed prefix can carry, as a machine word.
fn prefix_cap(enc: Encoding, d: usize) -> (r: u64)
    requires
        prefix_wf(enc, d as nat),
    ensures
        r as nat == spec_prefix_cap(enc, d as nat),
{
    proof {
        lemma_pow_unfold_all();
    }
    match enc {
        Encoding::BINARY => {
            if d == 1 {
                256
            } else if d == 2 {
                65536
            } else {
                16777216
            }
        },
        _ => {
            if d == 1 {
                10
            } else if d == 2 {
                100
            } else if d == 3 {
                1000
            } else if d == 4 {
                10000
            } else if d == 5 {
                100000
            } else if d == 6 {
                1000000
            } else if d == 7 {
                10000000
            } else if d == 8 {
                100000000
            } else {
                1000000000
            }
        },
    }
}

impl FixedField {
    /// Parses this field's content at `in_buf[pos..]` and binds it to the
    /// field's name in `out_map`. Errs exactly when the spec level parse
    /// yields nothing, leaving `out_map` unchanged.
    pub fn parse(&self, in_buf: &Vec<u8>, pos: usize, out_map: &mut FieldMap) -> (r: Result<
        usize,
        ParseError,
    >)
        requires
            self.wf(),
            pos <= in_buf@.len(),
        ensures
            ({
                let m = spec_parse_fixed(*self, in_buf@, pos as int);
                match r {
                    Ok(np) => m is Some && np == m->Some_0.1 && np <= in_buf@.len()
                        && final(out_map)@ == old(out_map)@.insert(self.name@, m->Some_0.0),
                    Err(_) => m is None && final(out_map)@ == old(out_map)@,
                }
            }),
    {
        let n = byte_length(self.encoding, self.len);
        if in_buf.len() - pos < n {
            return Err(ParseError::about("insufficient data parsing field ", &self.name));
        }
        if !bytes_ok(self.encoding, in_buf, pos, pos + n) {
            return Err(ParseError::about("invalid encoding in field ", &self.name));
        }
        let content = copy_range(in_buf, pos, pos + n);
        out_map.insert(self.name.clone(), content);
        Ok(pos + n)
    }

    /// Appends this field's wire bytes for the given stored content. Errs
    /// exactly when the spec level assembly yields nothing, leaving `out`
    /// unchanged.
    pub fn assemble(&self, out: &mut Vec<u8>, content: &Vec<u8>) -> (r: Result<(), ParseError>)
        requires
            self.wf(),
        ensures
            ({
                let m = spec_assemble_fixed(*self, content@);
                match r {
                    Ok(_) => m is Some && final(out)@ == old(out)@ + m->Some_0,
                    Err(_) => m is None && final(out)@ == old(out)@,
                }
            }),
    {
        let n = byte_length(self.encoding, self.len);
        if content.len() != n {
            return Err(ParseError::about("content length mismatch for field ", &self.name));
        }
        let ghost out0 = out@;
        let mut i: usize = 0;
        while i < content.len()
            invariant
                i <= content@.len(),
                out@ =~= out0 + content@.take(i as int),
            decreases content@.len() - i,
        {
            out.push(content[i]);
            proof {
                assert(content@.take(i + 1) =~= content@.take(i as int).push(content@[i as int]));
            }
            i = i + 1;
        }
        proof {
            assert(content@.take(content@.len() as int) =~= content@);
        }
        Ok(())
    }
}

impl VarField {
    /// Parses the length prefix and then this field's content at
    /// `in_buf[pos..]`, binding the content octets only (not the prefix) to
    /// the field's name in `out_map`. Errs exactly when the spec level parse
    /// yields nothing, leaving `out_map` unchanged.
    pub fn parse(&self, in_buf: &Vec<u8>, pos: usize, out_map: &mut FieldMap) -> (r: Result<
        usize,
        ParseError,
    >)
        requires
            self.wf(),
            pos <= in_buf@.len(),
        ensures
            ({
                let m = spec_parse_var(*self, in_buf@, pos as int);
                match r {
                    Ok(np) => m is Some && np == m->Some_0.1 && np <= in_buf@.len()
                        && final(out_map)@ == old(out_map)@.insert(self.name@, m->Some_0.0),
                    Err(_) => m is None && final(out_map)@ == old(out_map)@,
                }
            }),
    {
        match parse_prefix(self.len_encoding, in_buf, pos, self.len) {
            None => Err(ParseError::about("invalid length indicator for field ", &self.name)),
            Some((nval, p2)) => {
                proof {
                    let pn = spec_byte_length(self.len_encoding, self.len as nat);
                    lemma_prefix_value_small(
                        self.len_encoding,
                        in_buf@.subrange(pos as int, pos as int + pn),
                        self.len as nat,
                    );
                }
                let cn = byte_length(self.encoding, nval as usize);
                if in_buf.len() - p2 < cn {
                    return Err(
                        ParseError::about("insufficient data parsing field ", &self.name),
                    );
                }
                if !bytes_ok(self.encoding, in_buf, p2, p2 + cn) {
                    return Err(ParseError::about("invalid encoding in field ", &self.name));
                }
                let content = copy_range(in_buf, p2, p2 + cn);
                out_map.insert(self.name.clone(), content);
                Ok(p2 + cn)
            },
        }
    }

    /// Appends the length prefix derived from the content's character count,
    /// then the content. Errs exactly when the spec level assembly yields
    /// nothing, leaving `out` unchanged.
    pub fn assemble(&self, out: &mut Vec<u8>, content: &Vec<u8>) -> (r: Result<(), ParseError>)
        requires
            self.wf(),
        ensures
            ({
                let m = spec_assemble_var(*self, content@);
                match r {
                    Ok(_) => m is Some && final(out)@ == old(out)@ + m->Some_0,
                    Err(_) => m is None && final(out)@ == old(out)@,
                }
            }),
    {
        let cap = prefix_cap(self.len_encoding, self.len);
        if content.len() > 0x3fffffff {
            proof {
                lemma_pow_unfold_all();
                lemma_cap_le_billion(self.len_encoding, self.len as nat);
            }
            return Err(ParseError::about("content too long for field ", &self.name));
        }
        let chars: u64 = match self.encoding {
            Encoding::BCD => 2 * (content.len() as u64),
            _ => content.len() as u64,
        };
        if chars >= cap {
            return Err(ParseError::about("content too long for field ", &self.name));
        }
        let ghost out0 = out@;
        assemble_prefix(self.len_encoding, out, chars as u32, self.len);
        let mut i: usize = 0;
        let ghost mid = out@;
        while i < content.len()
            invariant
                i <= content@.len(),
                out@ =~= mid + content@.take(i as int),
            decreases content@.len() - i,
        {
            out.push(content[i]);
            proof {
                assert(content@.take(i + 1) =~= content@.take(i as int).push(content@[i as int]));
            }
            i = i + 1;
        }
        proof {
            assert(content@.take(content@.len() as int) =~= content@);
            assert(out@ =~= out0 + (spec_prefix_bytes(
                self.len_encoding,
                chars as nat,
                self.len as nat,
            ) + content@));
        }
        Ok(())
    }
}

impl ChildField {
    /// Parses this child's content at `in_buf[pos..]` into `out_map`.
    pub fn parse(&self, in_buf: &Vec<u8>, pos: usize, out_map: &mut FieldMap) -> (r: Result<
        usize,
        ParseError,
    >)
        requires
            self.wf(),
            pos <= in_buf@.len(),
        ensures
            ({
                let m = spec_parse_child(*self, in_buf@, pos as int);
                match r {
                    Ok(np) => m is Some && np == m->Some_0.1 && np <= in_buf@.len()
                        && final(out_map)@ == old(out_map)@.insert(self.spec_name(), m->Some_0.0),
                    Err(_) => m is None && final(out_map)@ == old(out_map)@,
                }
            }),
    {
        match self {
            ChildField::Fixed(f) => f.parse(in_buf, pos, out_map),
            ChildField::Var(f) => f.parse(in_buf, pos, out_map),
        }
    }

    /// Appends this child's wire bytes for the given stored content.
    pub fn assemble(&self, out: &mut Vec<u8>, content: &Vec<u8>) -> (r: Result<(), ParseError>)
        requires
            self.wf(),
        ensures
            ({
                let m = spec_assemble_child(*self, content@);
                match r {
                    Ok(_) => m is Some && final(out)@ == old(out)@ + m->Some_0,
                    Err(_) => m is None && final(out)@ == old(out)@,
                }
            }),
    {
        match self {
            ChildField::Fixed(f) => f.assemble(out, content),
            ChildField::Var(f) => f.assemble(out, content),
        }
    }
}

/// A well-formed prefix's value stays well under the machine's word.
proof fn lemma_prefix_value_small(enc: Encoding, s: Seq<u8>, d: nat)
    requires
        prefix_wf(enc, d),
        s.len() == spec_byte_length(enc, d),
        spec_prefix_value(enc, s) is Some,
    ensures
        spec_prefix_value(enc, s)->Some_0 < 0x40000000,
{
    lemma_prefix_value_bound(enc, s);
    lemma_pow_unfold_all();
    match enc {
        Encoding::BCD => {
            lemma_pow10_mono(2 * s.len(), 8);
        },
        Encoding::BINARY => {
        },
        _ => {
            lemma_pow10_mono(s.len(), 9);
        },
    }
}

/// No well-formed prefix can carry more than a billion.
proof fn lemma_cap_le_billion(enc: Encoding, d: nat)
    requires
        prefix_wf(enc, d),
    ensures
        spec_prefix_cap(enc, d) <= 1000000000,
{
    lemma_pow_unfold_all();
    match enc {
        Encoding::BINARY => {
        },
        Encoding::BCD => {
            lemma_pow10_mono(d, 9);
        },
        _ => {
            lemma_pow10_mono(d, 9);
        },
    }
}


/// A numeral's value is at least its leading digit's weight.
proof fn lemma_radix_value_lower(base: nat, ds: Seq<u8>)
    requires
        2 <= base <= 256,
        ds.len() >= 1,
        forall|i: int| 0 <= i < ds.len() ==> #[trigger] ds[i] < base,
    ensures
        radix_value(base, ds) >= ds[0] * pow_of(base, (ds.len() - 1) as nat),
    decreases ds.len(),
{
    if ds.len() == 1 {
        assert(ds.last() == ds[0]);
        assert(radix_value(base, ds.drop_last()) == 0);
        assert(radix_value(base, ds) == (radix_value(base, ds.drop_last()) * base
            + ds.last()) as nat);
        assert(radix_value(base, ds) == ds[0] as nat);
        assert(pow_of(base, (ds.len() - 1) as nat) == 1);
        assert(ds[0] * pow_of(base, (ds.len() - 1) as nat) == ds[0]) by (nonlinear_arith)
            requires
                pow_of(base, (ds.len() - 1) as nat) == 1,
        ;
    } else {
        let front = ds.drop_last();
        assert(forall|i: int| 0 <= i < front.len() ==> #[trigger] front[i] < base);
        assert(front[0] == ds[0]);
        lemma_radix_value_lower(base, front);
        let p = pow_of(base, (front.len() - 1) as nat);
        assert(radix_value(base, front) * base + ds.last() >= (ds[0] * p) * base)
            by (nonlinear_arith)
            requires
                radix_value(base, front) >= ds[0] * p,
                base >= 2,
                ds.last() >= 0,
        ;
        assert((ds[0] * p) * base == ds[0] * (p * base)) by (nonlinear_arith);
        assert(pow_of(base, (ds.len() - 1) as nat) == base * p);
        assert(ds[0] * (p * base) == ds[0] * (base * p)) by (nonlinear_arith);
        assert(radix_value(base, ds) == (radix_value(base, front) * base + ds.last()) as nat);
        assert(radix_value(base, ds) >= ds[0] * pow_of(base, (ds.len() - 1) as nat));
    }
}

/// The nibble values of packed bytes, high nibble first.
pub open spec fn unpack_bcd(s: Seq<u8>) -> Seq<u8> {
    Seq::new(2 * s.len(), |i: int| if i % 2 == 0 {
        (s[i / 2] / 16) as u8
    } else {
        (s[i / 2] % 16) as u8
    })
}

/// Packing the unpacked nibbles restores the bytes.
proof fn lemma_pack_unpack(s: Seq<u8>)
    ensures
        pack_bcd(unpack_bcd(s)) =~= s,
    decreases s.len(),
{
    if s.len() > 0 {
        lemma_pack_unpack(s.drop_last());
        let u = unpack_bcd(s);
        assert(u.take(u.len() - 2) =~= unpack_bcd(s.drop_last()));
        let b = s.last();
        assert(u[u.len() - 2] == b / 16 && u[u.len() - 1] == b % 16);
        assert((b / 16) * 16 + b % 16 == b) by (nonlinear_arith);
        assert(pack_bcd(u) == pack_bcd(u.take(u.len() - 2)).push(b));
    }
}

/// The decimal value of valid packed bytes is their nibbles' radix-10 value.
proof fn lemma_value_bcd_unpack(s: Seq<u8>)
    requires
        spec_prefix_value(Encoding::BCD, s) is Some,
    ensures
        forall|i: int| 0 <= i < unpack_bcd(s).len() ==> #[trigger] unpack_bcd(s)[i] < 10,
        spec_prefix_value(Encoding::BCD, s) == Some(radix_value(10, unpack_bcd(s))),
    decreases s.len(),
{
    if s.len() > 0 {
        lemma_prefix_value_some(Encoding::BCD, s);
        assert(forall|i: int|
            0 <= i < s.drop_last().len() ==> #[trigger] s.drop_last()[i] == s[i]);
        lemma_prefix_value_some(Encoding::BCD, s.drop_last());
        lemma_value_bcd_unpack(s.drop_last());
        let u = unpack_bcd(s);
        let uf = unpack_bcd(s.drop_last());
        assert(uf =~= u.take(u.len() - 2));
        let b = s.last();
        assert(u[u.len() - 2] == b / 16 && u[u.len() - 1] == b % 16);
        assert(u.drop_last().drop_last() =~= uf);
        assert(radix_value(10, u) == radix_value(10, u.drop_last()) * 10 + b % 16);
        assert(radix_value(10, u.drop_last()) == radix_value(10, uf) * 10 + b / 16);
    }
}

/// Length prefixes of a fixed digit count are unique: re-encoding a parsed
/// prefix's value reproduces the prefix bytes, provided the value lies under
/// the declared digit count's capacity.
pub proof fn lemma_prefix_bytes_unique(enc: Encoding, s: Seq<u8>, d: nat)
    requires
        prefix_wf(enc, d),
        s.len() == spec_byte_length(enc, d),
        spec_prefix_value(enc, s) is Some,
        spec_prefix_value(enc, s)->Some_0 < spec_prefix_cap(enc, d),
    ensures
        spec_prefix_bytes(enc, spec_prefix_value(enc, s)->Some_0, d) =~= s,
{
    let v = spec_prefix_value(enc, s)->Some_0;
    lemma_prefix_value_some(enc, s);
    match enc {
        Encoding::ASCII => {
            let ds = Seq::new(s.len(), |i: int| (s[i] - 0x30) as u8);
            assert(map_digits(ds, 0x30) =~= s);
            assert(forall|i: int| 0 <= i < ds.len() ==> #[trigger] ds[i] < 10);
            lemma_value_of_mapped_digits(enc, ds, 0x30);
            assert(radix_value(10, ds) == v);
            lemma_radix_digits_unique(10, ds);
            assert(map_digits(radix_digits(10, v, d), 0x30) =~= s);
        },
        Encoding::EBCDIC => {
            let ds = Seq::new(s.len(), |i: int| (s[i] - 0xf0) as u8);
            assert(map_digits(ds, 0xf0) =~= s);
            assert(forall|i: int| 0 <= i < ds.len() ==> #[trigger] ds[i] < 10);
            lemma_value_of_mapped_digits(enc, ds, 0xf0);
            assert(radix_value(10, ds) == v);
            lemma_radix_digits_unique(10, ds);
            assert(map_digits(radix_digits(10, v, d), 0xf0) =~= s);
        },
        Encoding::BINARY => {
            lemma_value_binary(s);
            assert(forall|i: int| 0 <= i < s.len() ==> #[trigger] s[i] < 256);
            lemma_radix_digits_unique(256, s);
        },
        Encoding::BCD => {
            lemma_value_bcd_unpack(s);
            lemma_pack_unpack(s);
            let u = unpack_bcd(s);
            assert(radix_value(10, u) == v);
            if d % 2 == 0 {
                assert(u.len() == d);
                lemma_radix_digits_unique(10, u);
                assert(pack_bcd(radix_digits(10, v, d)) =~= pack_bcd(u));
            } else {
                assert(u.len() == d + 1);
                assert(u[0] == 0) by {
                    if u[0] >= 1 {
                        lemma_radix_value_lower(10, u);
                        lemma_pow_pos(10, d);
                        assert(radix_value(10, u) >= u[0] * pow_of(10, d));
                        assert(u[0] * pow_of(10, d) >= pow_of(10, d)) by (nonlinear_arith)
                            requires
                                u[0] >= 1,
                                pow_of(10, d) >= 1,
                        ;
                    }
                }
                let rest = u.drop_first();
                assert(seq![0u8] + rest =~= u);
                lemma_radix_value_zero_prepend(rest);
                assert(radix_value(10, rest) == v);
                assert(forall|i: int| 0 <= i < rest.len() ==> #[trigger] rest[i] < 10) by {
                    assert(forall|i: int| 0 <= i < rest.len() ==> rest[i] == #[trigger] u[i + 1]);
                }
                lemma_radix_digits_unique(10, rest);
                assert(seq![0u8] + radix_digits(10, v, d) =~= u);
            }
        },
    }
}

} // verus!
