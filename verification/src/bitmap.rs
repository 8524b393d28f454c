//! The ISO 8583 presence bitmap: up to 192 one-indexed positions held in
//! three big-endian 64-bit words (primary, secondary, tertiary).

use vstd::prelude::*;
use crate::wire::{u64_of_be, u64_to_be, read_u64_be, push_u64_be};
use crate::encoding::{hex_string_of_bytes, spec_hex_of_bytes, lemma_hex_of_bytes_len};

verus! {

/// A presence map over field positions `1..=192`. Position 1 is the most
/// significant bit of the primary word; position 192 the least significant
/// bit of the tertiary word.
#[derive(Debug)]
pub struct Bitmap {
    pub p_bmp: u64,
    pub s_bmp: u64,
    pub t_bmp: u64,
}

/// True when `pos` is a valid one-indexed bitmap position.
pub open spec fn pos_in_range(pos: u32) -> bool {
    1 <= pos <= 192
}

/// The word bit for `pos` within its 64-bit segment: bit `k` counted from the
/// most significant end.
pub open spec fn word_bit(w: u64, k: u64) -> bool
    recommends
        k < 64,
{
    (w >> ((63u64 - k) as u64)) & 1u64 == 1u64
}

/// The word with bit `k` (counted from the most significant end) set.
pub open spec fn word_with_bit(w: u64, k: u64) -> u64
    recommends
        k < 64,
{
    (0x8000000000000000u64 >> k) | w
}

proof fn lemma_word_with_bit(w: u64, k: u64, j: u64)
    requires
        k < 64,
        j < 64,
    ensures
        word_bit(word_with_bit(w, k), j) == (j == k || word_bit(w, j)),
{
    assert(((((0x8000000000000000u64 >> k) | w) >> ((63u64 - j) as u64)) & 1u64 == 1u64) == (j == k
        || (w >> ((63u64 - j) as u64)) & 1u64 == 1u64)) by (bit_vector)
        requires
            k < 64,
            j < 64,
    ;
}

impl Bitmap {
    /// Whether bit `pos` is set.
    pub open spec fn spec_is_on(self, pos: u32) -> bool
        recommends
            pos_in_range(pos),
    {
        if pos <= 64 {
            word_bit(self.p_bmp, (pos - 1) as u64)
        } else if pos <= 128 {
            word_bit(self.s_bmp, (pos - 65) as u64)
        } else {
            word_bit(self.t_bmp, (pos - 129) as u64)
        }
    }

    /// The bitmap after setting `pos`, with the cascade to the "next bitmap
    /// follows" indicators: setting a secondary position also sets position 1,
    /// and setting a tertiary position also sets positions 65 and 1.
    pub open spec fn spec_set_on(self, pos: u32) -> Bitmap
        recommends
            pos_in_range(pos),
    {
        if pos <= 64 {
            Bitmap { p_bmp: word_with_bit(self.p_bmp, (pos - 1) as u64), ..self }
        } else if pos <= 128 {
            Bitmap {
                p_bmp: word_with_bit(self.p_bmp, 0),
                s_bmp: word_with_bit(self.s_bmp, (pos - 65) as u64),
                ..self
            }
        } else {
            Bitmap {
                p_bmp: word_with_bit(self.p_bmp, 0),
                s_bmp: word_with_bit(self.s_bmp, 0),
                t_bmp: word_with_bit(self.t_bmp, (pos - 129) as u64),
            }
        }
    }

    /// The wire form: the primary word, then the secondary word iff position
    /// 1 is on, then the tertiary word iff position 65 is on.
    pub open spec fn spec_as_bytes(self) -> Seq<u8> {
        if self.spec_is_on(1) {
            if self.spec_is_on(65) {
                u64_to_be(self.p_bmp) + u64_to_be(self.s_bmp) + u64_to_be(self.t_bmp)
            } else {
                u64_to_be(self.p_bmp) + u64_to_be(self.s_bmp)
            }
        } else {
            u64_to_be(self.p_bmp)
        }
    }

    /// Creates a bitmap from its three 64-bit words.
    pub fn new(b1: u64, b2: u64, b3: u64) -> (r: Bitmap)
        ensures
            r == (Bitmap { p_bmp: b1, s_bmp: b2, t_bmp: b3 }),
    {
        Bitmap { p_bmp: b1, s_bmp: b2, t_bmp: b3 }
    }

    /// Creates a bitmap from its 8-, 16- or 24-byte wire form; absent words
    /// are zero.
    pub fn from_vec(bmp_data: &Vec<u8>) -> (r: Bitmap)
        requires
            bmp_data.len() == 8 || bmp_data.len() == 16 || bmp_data.len() == 24,
        ensures
            r.p_bmp == u64_of_be(bmp_data@.subrange(0, 8)),
            r.s_bmp == if bmp_data.len() >= 16 {
                u64_of_be(bmp_data@.subrange(8, 16))
            } else {
                0u64
            },
            r.t_bmp == if bmp_data.len() >= 24 {
                u64_of_be(bmp_data@.subrange(16, 24))
            } else {
                0u64
            },
    {
        let b1 = read_u64_be(bmp_data, 0);
        let mut b2: u64 = 0;
        let mut b3: u64 = 0;
        if bmp_data.len() >= 16 {
            b2 = read_u64_be(bmp_data, 8);
        }
        if bmp_data.len() >= 24 {
            b3 = read_u64_be(bmp_data, 16);
        }
        Bitmap { p_bmp: b1, s_bmp: b2, t_bmp: b3 }
    }

    /// Whether position `pos` is on.
    pub fn is_on(&self, pos: u32) -> (r: bool)
        requires
            pos_in_range(pos),
        ensures
            r == self.spec_is_on(pos),
    {
        if pos <= 64 {
            (self.p_bmp >> ((64 - pos) as u64)) & 1 == 1
        } else if pos <= 128 {
            (self.s_bmp >> ((128 - pos) as u64)) & 1 == 1
        } else {
            (self.t_bmp >> ((192 - pos) as u64)) & 1 == 1
        }
    }

    /// Sets position `pos`; positions above 64 also set position 1, and
    /// positions above 128 also set position 65.
    pub fn set_on(&mut self, pos: u32)
        requires
            pos_in_range(pos),
        ensures
            *final(self) == old(self).spec_set_on(pos),
    {
        if pos <= 64 {
            self.p_bmp = (0x8000000000000000u64 >> ((pos - 1) as u64)) | self.p_bmp;
        } else if pos <= 128 {
            self.p_bmp = 0x8000000000000000u64 | self.p_bmp;
            self.s_bmp = (0x8000000000000000u64 >> ((pos - 65) as u64)) | self.s_bmp;
            proof {
                assert(forall|w: u64|
                    0x8000000000000000u64 | w == (0x8000000000000000u64 >> 0u64) | w)
                    by (bit_vector);
            }
        } else {
            self.p_bmp = 0x8000000000000000u64 | self.p_bmp;
            self.s_bmp = 0x8000000000000000u64 | self.s_bmp;
            self.t_bmp = (0x8000000000000000u64 >> ((pos - 129) as u64)) | self.t_bmp;
            proof {
                assert(forall|w: u64|
                    0x8000000000000000u64 | w == (0x8000000000000000u64 >> 0u64) | w)
                    by (bit_vector);
            }
        }
    }

    /// The bitmap as its 48-character lowercase hexadecimal rendering of all
    /// three words.
    pub fn hex_string(&self) -> (r: String)
        ensures
            r@ == spec_hex_of_bytes(u64_to_be(self.p_bmp) + u64_to_be(self.s_bmp) + u64_to_be(
                self.t_bmp,
            )),
            r@.len() == 48,
    {
        let mut all: Vec<u8> = Vec::new();
        push_u64_be(&mut all, self.p_bmp);
        push_u64_be(&mut all, self.s_bmp);
        push_u64_be(&mut all, self.t_bmp);
        proof {
            lemma_hex_of_bytes_len(all@);
        }
        hex_string_of_bytes(&all)
    }

    /// The bitmap's wire form: 8, 16 or 24 bytes; the secondary word is
    /// present iff position 1 is on, the tertiary iff position 65 is on.
    pub fn as_vec(&self) -> (r: Vec<u8>)
        ensures
            r@ == self.spec_as_bytes(),
            r@.len() == if self.spec_is_on(1) {
                if self.spec_is_on(65) {
                    24int
                } else {
                    16int
                }
            } else {
                8int
            },
    {
        let mut bmp_data: Vec<u8> = Vec::new();
        push_u64_be(&mut bmp_data, self.p_bmp);
        if self.is_on(1) {
            push_u64_be(&mut bmp_data, self.s_bmp);
            if self.is_on(65) {
                push_u64_be(&mut bmp_data, self.t_bmp);
            }
        }
        bmp_data
    }
}

/// Exact effect of `spec_set_on` on every position: `q` is on afterwards iff
/// it was on before, or is the position just set, or is an indicator bit the
/// cascade turns on.
pub proof fn lemma_set_on_is_on(b: Bitmap, pos: u32, q: u32)
    requires
        pos_in_range(pos),
        pos_in_range(q),
    ensures
        b.spec_set_on(pos).spec_is_on(q) == (b.spec_is_on(q) || q == pos || (pos > 64 && q == 1)
            || (pos > 128 && q == 65)),
{
    let j: u64 = if q <= 64 {
        (q - 1) as u64
    } else if q <= 128 {
        (q - 65) as u64
    } else {
        (q - 129) as u64
    };
    if pos <= 64 {
        lemma_word_with_bit(b.p_bmp, (pos - 1) as u64, j);
    } else if pos <= 128 {
        lemma_word_with_bit(b.p_bmp, 0, j);
        lemma_word_with_bit(b.s_bmp, (pos - 65) as u64, j);
    } else {
        lemma_word_with_bit(b.p_bmp, 0, j);
        lemma_word_with_bit(b.s_bmp, 0, j);
        lemma_word_with_bit(b.t_bmp, (pos - 129) as u64, j);
    }
}

/// The all-zero bitmap has every position off.
pub proof fn lemma_zero_bitmap_all_off(q: u32)
    requires
        pos_in_range(q),
    ensures
        !(Bitmap { p_bmp: 0u64, s_bmp: 0u64, t_bmp: 0u64 }).spec_is_on(q),
{
    let k: u64 = if q <= 64 {
        (q - 1) as u64
    } else if q <= 128 {
        (q - 65) as u64
    } else {
        (q - 129) as u64
    };
    assert((0u64 >> ((63u64 - k) as u64)) & 1u64 != 1u64) by (bit_vector);
}

/// Setting any position above 64 turns position 1 on, and setting any
/// position above 128 turns position 65 on.
pub proof fn lemma_cascade(b: Bitmap, pos: u32)
    requires
        pos_in_range(pos),
    ensures
        pos > 64 ==> b.spec_set_on(pos).spec_is_on(1),
        pos > 128 ==> b.spec_set_on(pos).spec_is_on(65),
{
    if pos > 64 {
        lemma_set_on_is_on(b, pos, 1);
    }
    if pos > 128 {
        lemma_set_on_is_on(b, pos, 65);
    }
}

/// The bitmap denoted by a sequence of `spec_set_on` calls starting from the
/// all-zero bitmap.
pub open spec fn bitmap_of_positions(s: Seq<u32>) -> Bitmap
    decreases s.len(),
{
    if s.len() == 0 {
        Bitmap { p_bmp: 0u64, s_bmp: 0u64, t_bmp: 0u64 }
    } else {
        bitmap_of_positions(s.drop_last()).spec_set_on(s.last())
    }
}

/// Building a bitmap by setting every position in `s` turns on exactly the
/// positions of `s`, plus the indicator positions 1 and 65 demanded by the
/// cascade.
pub proof fn lemma_bitmap_round_trip(s: Seq<u32>, q: u32)
    requires
        forall|i: int| 0 <= i < s.len() ==> pos_in_range(#[trigger] s[i]),
        pos_in_range(q),
    ensures
        bitmap_of_positions(s).spec_is_on(q) == (s.contains(q) || (q == 1 && exists|i: int|
            0 <= i < s.len() && s[i] > 64) || (q == 65 && exists|i: int|
            0 <= i < s.len() && s[i] > 128)),
    decreases s.len(),
{
    if s.len() == 0 {
        lemma_zero_bitmap_all_off(q);
    } else {
        let prefix = s.drop_last();
        lemma_bitmap_round_trip(prefix, q);
        lemma_set_on_is_on(bitmap_of_positions(prefix), s.last(), q);
        assert(s.contains(q) == (prefix.contains(q) || s.last() == q)) by {
            if s.contains(q) {
                let i = choose|i: int| 0 <= i < s.len() && s[i] == q;
                if i < s.len() - 1 {
                    assert(prefix[i] == q);
                }
            }
            if prefix.contains(q) {
                let i = choose|i: int| 0 <= i < prefix.len() && prefix[i] == q;
                assert(s[i] == q);
            }
            if s.last() == q {
                assert(s[s.len() - 1] == q);
            }
        }
        assert((exists|i: int| 0 <= i < s.len() && s[i] > 64) == ((exists|i: int|
            0 <= i < prefix.len() && prefix[i] > 64) || s.last() > 64)) by {
            if exists|i: int| 0 <= i < s.len() && s[i] > 64 {
                let i = choose|i: int| 0 <= i < s.len() && s[i] > 64;
                if i < s.len() - 1 {
                    assert(prefix[i] > 64);
                }
            }
            if exists|i: int| 0 <= i < prefix.len() && prefix[i] > 64 {
                let i = choose|i: int| 0 <= i < prefix.len() && prefix[i] > 64;
                assert(s[i] > 64);
            }
            if s.last() > 64 {
                assert(s[s.len() - 1] > 64);
            }
        }
        assert((exists|i: int| 0 <= i < s.len() && s[i] > 128) == ((exists|i: int|
            0 <= i < prefix.len() && prefix[i] > 128) || s.last() > 128)) by {
            if exists|i: int| 0 <= i < s.len() && s[i] > 128 {
                let i = choose|i: int| 0 <= i < s.len() && s[i] > 128;
                if i < s.len() - 1 {
                    assert(prefix[i] > 128);
                }
            }
            if exists|i: int| 0 <= i < prefix.len() && prefix[i] > 128 {
                let i = choose|i: int| 0 <= i < prefix.len() && prefix[i] > 128;
                assert(s[i] > 128);
            }
            if s.last() > 128 {
                assert(s[s.len() - 1] > 128);
            }
        }
    }
}


/// A bitmap is cascade-closed when a nonzero secondary word implies the
/// "secondary follows" bit (position 1) and a nonzero tertiary word implies
/// the "tertiary follows" bit (position 65).
pub open spec fn bitmap_closed(b: Bitmap) -> bool {
    &&& (b.s_bmp != 0 ==> word_bit(b.p_bmp, 0))
    &&& (b.t_bmp != 0 ==> word_bit(b.s_bmp, 0))
}

/// Setting any position keeps a bitmap cascade-closed: the all-zero bitmap is
/// closed, and every bitmap built by `set_on` stays closed.
pub proof fn lemma_set_on_preserves_closed(b: Bitmap, pos: u32)
    requires
        bitmap_closed(b),
        pos_in_range(pos),
    ensures
        bitmap_closed(b.spec_set_on(pos)),
{
    if pos <= 64 {
        lemma_word_with_bit(b.p_bmp, (pos - 1) as u64, 0);
    } else if pos <= 128 {
        lemma_word_with_bit(b.p_bmp, 0, 0);
        lemma_word_with_bit(b.s_bmp, (pos - 65) as u64, 0);
    } else {
        lemma_word_with_bit(b.p_bmp, 0, 0);
        lemma_word_with_bit(b.s_bmp, 0, 0);
        lemma_word_with_bit(b.t_bmp, (pos - 129) as u64, 0);
    }
}


/// Every bitmap built by `set_on` from the all-zero bitmap is cascade-closed.
pub proof fn lemma_bitmap_of_positions_closed(s: Seq<u32>)
    requires
        forall|i: int| 0 <= i < s.len() ==> pos_in_range(#[trigger] s[i]),
    ensures
        bitmap_closed(bitmap_of_positions(s)),
    decreases s.len(),
{
    if s.len() > 0 {
        lemma_bitmap_of_positions_closed(s.drop_last());
        lemma_set_on_preserves_closed(bitmap_of_positions(s.drop_last()), s.last());
    }
}

} // verus!
