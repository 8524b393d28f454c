//! Message length indicator (MLI) framing: a 2- or 4-byte big-endian length
//! prefix, either exclusive or inclusive of its own bytes.

use vstd::prelude::*;
use crate::errors::{ParseError, IsoError};
use crate::wire::{
    u16_of_be,
    u32_of_be,
    u16_to_be,
    u32_to_be,
    read_u16_be,
    read_u32_be,
    push_u16_be,
    push_u32_be,
    lemma_u16_be_round_trip,
    lemma_u32_be_round_trip,
};

verus! {

/// The four MLI framing variants: 2- or 4-byte width, length exclusive (`E`)
/// or inclusive (`I`) of the prefix bytes themselves.
#[derive(Clone, Copy, PartialEq, Eq, Structural, Debug)]
pub enum MLIType {
    MLI2E,
    MLI2I,
    MLI4E,
    MLI4I,
}

/// Width in bytes of the length prefix.
pub open spec fn mli_width(t: MLIType) -> nat {
    match t {
        MLIType::MLI2E => 2,
        MLIType::MLI2I => 2,
        MLIType::MLI4E => 4,
        MLIType::MLI4I => 4,
    }
}

/// What the prefix value exceeds the payload length by.
pub open spec fn mli_adjust(t: MLIType) -> nat {
    match t {
        MLIType::MLI2E => 0,
        MLIType::MLI2I => 2,
        MLIType::MLI4E => 0,
        MLIType::MLI4I => 4,
    }
}

/// The largest payload length the prefix can announce.
pub open spec fn mli_max_payload(t: MLIType) -> nat {
    (match t {
        MLIType::MLI2E => 0xffff,
        MLIType::MLI2I => 0xffff - 2,
        MLIType::MLI4E => 0xffffffff,
        MLIType::MLI4I => 0xffffffff - 4,
    }) as nat
}

/// The prefix bytes announcing an `n`-byte payload.
pub open spec fn spec_mli_create(t: MLIType, n: nat) -> Seq<u8>
    recommends
        n <= mli_max_payload(t),
{
    match t {
        MLIType::MLI2E => u16_to_be(n as u16),
        MLIType::MLI2I => u16_to_be((n + 2) as u16),
        MLIType::MLI4E => u32_to_be(n as u32),
        MLIType::MLI4I => u32_to_be((n + 4) as u32),
    }
}

/// Reading a prefix from the head of `s`: `Ok(None)` when fewer than the
/// width's bytes are buffered (more input is needed), `Err` when an inclusive
/// prefix announces less than its own width (a framing error), and otherwise
/// the payload length and the bytes consumed.
pub open spec fn spec_mli_parse(t: MLIType, s: Seq<u8>) -> Result<Option<(u32, int)>, ()> {
    if s.len() < mli_width(t) {
        Ok(None)
    } else {
        match t {
            MLIType::MLI2E => Ok(Some((u16_of_be(s.take(2)) as u32, 2))),
            MLIType::MLI2I => {
                let v = u16_of_be(s.take(2));
                if v < 2 {
                    Err(())
                } else {
                    Ok(Some(((v - 2) as u32, 2)))
                }
            },
            MLIType::MLI4E => Ok(Some((u32_of_be(s.take(4)), 4))),
            MLIType::MLI4I => {
                let v = u32_of_be(s.take(4));
                if v < 4 {
                    Err(())
                } else {
                    Ok(Some(((v - 4) as u32, 4)))
                }
            },
        }
    }
}

impl MLIType {
    /// Reads the length prefix at `in_buf[pos..]`. Returns `Ok(None)` when
    /// more bytes are needed, the payload length and the position after the
    /// prefix on success, and an error when an inclusive prefix announces
    /// less than its own width.
    pub fn parse(&self, in_buf: &Vec<u8>, pos: usize) -> (r: Result<
        Option<(u32, usize)>,
        ParseError,
    >)
        requires
            pos <= in_buf@.len(),
        ensures
            ({
                let m = spec_mli_parse(*self, in_buf@.skip(pos as int));
                match r {
                    Ok(None) => m == Ok::<Option<(u32, int)>, ()>(None),
                    Ok(Some((n, np))) => m == Ok::<Option<(u32, int)>, ()>(
                        Some((n, np - pos)),
                    ) && np <= in_buf@.len(),
                    Err(_) => m is Err,
                }
            }),
    {
        let ghost s = in_buf@.skip(pos as int);
        match self {
            MLIType::MLI2E => {
                if in_buf.len() - pos < 2 {
                    Ok(None)
                } else {
                    let v = read_u16_be(in_buf, pos);
                    proof {
                        assert(s.take(2) =~= in_buf@.subrange(pos as int, pos as int + 2));
                    }
                    Ok(Some((v as u32, pos + 2)))
                }
            },
            MLIType::MLI2I => {
                if in_buf.len() - pos < 2 {
                    Ok(None)
                } else {
                    let v = read_u16_be(in_buf, pos);
                    proof {
                        assert(s.take(2) =~= in_buf@.subrange(pos as int, pos as int + 2));
                    }
                    if v < 2 {
                        Err(ParseError { msg: "mli prefix shorter than its own width".to_owned() })
                    } else {
                        Ok(Some(((v - 2) as u32, pos + 2)))
                    }
                }
            },
            MLIType::MLI4E => {
                if in_buf.len() - pos < 4 {
                    Ok(None)
                } else {
                    let v = read_u32_be(in_buf, pos);
                    proof {
                        assert(s.take(4) =~= in_buf@.subrange(pos as int, pos as int + 4));
                    }
                    Ok(Some((v, pos + 4)))
                }
            },
            MLIType::MLI4I => {
                if in_buf.len() - pos < 4 {
                    Ok(None)
                } else {
                    let v = read_u32_be(in_buf, pos);
                    proof {
                        assert(s.take(4) =~= in_buf@.subrange(pos as int, pos as int + 4));
                    }
                    if v < 4 {
                        Err(ParseError { msg: "mli prefix shorter than its own width".to_owned() })
                    } else {
                        Ok(Some(((v - 4) as u32, pos + 4)))
                    }
                }
            },
        }
    }

    /// Serializes the prefix for an `n`-byte payload; errs exactly when `n`
    /// exceeds what the prefix can announce.
    pub fn create(&self, n: &usize) -> (r: Result<Vec<u8>, IsoError>)
        ensures
            r is Ok <==> *n <= mli_max_payload(*self),
            r is Ok ==> r->Ok_0@ == spec_mli_create(*self, *n as nat),
    {
        let mut mli: Vec<u8> = Vec::new();
        match self {
            MLIType::MLI2E => {
                if *n > 0xffff {
                    return Err(
                        IsoError { msg: "payload too long for a 2-byte mli".to_owned() },
                    );
                }
                push_u16_be(&mut mli, *n as u16);
            },
            MLIType::MLI2I => {
                if *n > 0xffff - 2 {
                    return Err(
                        IsoError { msg: "payload too long for a 2-byte mli".to_owned() },
                    );
                }
                push_u16_be(&mut mli, (*n + 2) as u16);
            },
            MLIType::MLI4E => {
                if *n > 0xffffffff {
                    return Err(
                        IsoError { msg: "payload too long for a 4-byte mli".to_owned() },
                    );
                }
                push_u32_be(&mut mli, *n as u32);
            },
            MLIType::MLI4I => {
                if *n > 0xffffffff - 4 {
                    return Err(
                        IsoError { msg: "payload too long for a 4-byte mli".to_owned() },
                    );
                }
                push_u32_be(&mut mli, (*n + 4) as u32);
            },
        }
        Ok(mli)
    }
}

/// The framing round trip: parsing a freshly created prefix yields exactly
/// the payload length it was created for, after consuming exactly the
/// prefix's width, for every variant and every length in range.
pub proof fn lemma_mli_round_trip(t: MLIType, n: nat)
    requires
        n <= mli_max_payload(t),
    ensures
        spec_mli_create(t, n).len() == mli_width(t),
        spec_mli_parse(t, spec_mli_create(t, n)) == Ok::<Option<(u32, int)>, ()>(
            Some((n as u32, mli_width(t) as int)),
        ),
{
    let s = spec_mli_create(t, n);
    match t {
        MLIType::MLI2E => {
            lemma_u16_be_round_trip(n as u16);
            assert(s.take(2) =~= s);
        },
        MLIType::MLI2I => {
            lemma_u16_be_round_trip((n + 2) as u16);
            assert(s.take(2) =~= s);
        },
        MLIType::MLI4E => {
            lemma_u32_be_round_trip(n as u32);
            assert(s.take(4) =~= s);
        },
        MLIType::MLI4I => {
            lemma_u32_be_round_trip((n + 4) as u32);
            assert(s.take(4) =~= s);
        },
    }
}

/// A parsed prefix never announces more than the variant's maximum payload.
pub proof fn lemma_mli_parse_bound(t: MLIType, s: Seq<u8>)
    ensures
        ({
            let m = spec_mli_parse(t, s);
            m matches Ok(Some((n, c))) ==> n <= mli_max_payload(t) && c == mli_width(t)
        }),
{
}

/// This struct selects the 2-byte, exclusive framing variant.
pub struct MLI2E {}

/// This struct selects the 2-byte, inclusive framing variant.
pub struct MLI2I {}

/// This struct selects the 4-byte, exclusive framing variant.
pub struct MLI4E {}

/// This struct selects the 4-byte, inclusive framing variant.
pub struct MLI4I {}

/// Shared contract of the four framing variants, in terms of the variant's
/// [`MLIType`].
pub trait MLI {
    /// The framing variant this type implements.
    spec fn mli_type(&self) -> MLIType;

    /// As [`MLIType::parse`], for this variant.
    fn parse(&self, in_buf: &Vec<u8>, pos: usize) -> (r: Result<Option<(u32, usize)>, ParseError>)
        requires
            pos <= in_buf@.len(),
        ensures
            ({
                let m = spec_mli_parse(self.mli_type(), in_buf@.skip(pos as int));
                match r {
                    Ok(None) => m == Ok::<Option<(u32, int)>, ()>(None),
                    Ok(Some((n, np))) => m == Ok::<Option<(u32, int)>, ()>(
                        Some((n, np - pos)),
                    ) && np <= in_buf@.len(),
                    Err(_) => m is Err,
                }
            }),
    ;

    /// As [`MLIType::create`], for this variant.
    fn create(&self, n: &usize) -> (r: Result<Vec<u8>, IsoError>)
        ensures
            r is Ok <==> *n <= mli_max_payload(self.mli_type()),
            r is Ok ==> r->Ok_0@ == spec_mli_create(self.mli_type(), *n as nat),
    ;
}

impl MLI for MLI2E {
    open spec fn mli_type(&self) -> MLIType {
        MLIType::MLI2E
    }

    fn parse(&self, in_buf: &Vec<u8>, pos: usize) -> (r: Result<Option<(u32, usize)>, ParseError>) {
        MLIType::MLI2E.parse(in_buf, pos)
    }

    fn create(&self, n: &usize) -> (r: Result<Vec<u8>, IsoError>) {
        MLIType::MLI2E.create(n)
    }
}

impl MLI for MLI2I {
    open spec fn mli_type(&self) -> MLIType {
        MLIType::MLI2I
    }

    fn parse(&self, in_buf: &Vec<u8>, pos: usize) -> (r: Result<Option<(u32, usize)>, ParseError>) {
        MLIType::MLI2I.parse(in_buf, pos)
    }

    fn create(&self, n: &usize) -> (r: Result<Vec<u8>, IsoError>) {
        MLIType::MLI2I.create(n)
    }
}

impl MLI for MLI4E {
    open spec fn mli_type(&self) -> MLIType {
        MLIType::MLI4E
    }

    fn parse(&self, in_buf: &Vec<u8>, pos: usize) -> (r: Result<Option<(u32, usize)>, ParseError>) {
        MLIType::MLI4E.parse(in_buf, pos)
    }

    fn create(&self, n: &usize) -> (r: Result<Vec<u8>, IsoError>) {
        MLIType::MLI4E.create(n)
    }
}

impl MLI for MLI4I {
    open spec fn mli_type(&self) -> MLIType {
        MLIType::MLI4I
    }

    fn parse(&self, in_buf: &Vec<u8>, pos: usize) -> (r: Result<Option<(u32, usize)>, ParseError>) {
        MLIType::MLI4I.parse(in_buf, pos)
    }

    fn create(&self, n: &usize) -> (r: Result<Vec<u8>, IsoError>) {
        MLIType::MLI4I.create(n)
    }
}

} // verus!
