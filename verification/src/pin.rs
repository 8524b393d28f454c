//! ISO 9564 format-0 PIN block generation: the padded PIN field XORed with
//! the PAN field, enciphered with one two-key 3DES block encryption.

use vstd::prelude::*;
use crate::encoding::{spec_bytes_of_hex, bytes_of_hex_str};
use crate::field::pack_bcd;

verus! {

/// The PIN block formats of ISO 9564; only format 0 is implemented.
#[derive(Debug)]
pub enum PinFormat {
    ISO0,
    ISO1,
    ISO2,
    ISO3,
    ISO4,
}

/// A failure generating a PIN block: an unsupported format.
#[derive(Debug)]
pub struct PinError {
    pub msg: String,
}

/// What one two-key 3DES (EDE) encryption of an 8-byte block returns; the
/// result depends on the key and the block alone.
pub uninterp spec fn tdes_ede2_block(key: Seq<u8>, block: Seq<u8>) -> Seq<u8>;

/// Relies on `des::TdesEde2` (`KeyInit::new_from_slice`,
/// `BlockCipherEncrypt::encrypt_block`): enciphers one 8-byte block under a
/// 16-byte two-key 3DES key, in ECB fashion, returning the 8-byte ciphertext.
#[verifier::external_body]
fn des_ede2_encrypt(data: &Vec<u8>, key: &Vec<u8>) -> (r: Vec<u8>)
    requires
        data@.len() == 8,
        key@.len() == 16,
    ensures
        r@ == tdes_ede2_block(key@, data@),
        r@.len() == 8,
{
    let cipher = <des::TdesEde2 as des::cipher::KeyInit>::new_from_slice(key.as_slice()).unwrap();
    let mut block: des::cipher::Block<des::TdesEde2> = des::cipher::Array::clone_from_slice(
        data.as_slice(),
    );
    des::cipher::BlockCipherEncrypt::encrypt_block(&cipher, &mut block);
    block.as_slice().to_vec()
}

/// The digit values of a decimal character sequence.
pub open spec fn spec_digit_vals(cs: Seq<char>) -> Seq<u8> {
    Seq::new(cs.len(), |i: int| ((cs[i] as u32) - 0x30) as u8)
}

/// Whether every character is a decimal digit.
pub open spec fn spec_all_digits(cs: Seq<char>) -> bool {
    forall|i: int| 0 <= i < cs.len() ==> 0x30 <= (#[trigger] cs[i]) as u32 <= 0x39
}

/// The 16 nibbles of the format-0 PIN field: a zero control nibble, the PIN
/// length, the PIN digits, then fill nibbles of `0xf`.
pub open spec fn spec_pin_nibbles(pin: Seq<char>) -> Seq<u8>
    recommends
        pin.len() <= 12,
{
    seq![0u8, pin.len() as u8] + spec_digit_vals(pin) + Seq::new(
        (14 - pin.len()) as nat,
        |i: int| 0xfu8,
    )
}

/// The 16 nibbles of the format-0 PAN field: four zero nibbles, then the 12
/// rightmost PAN digits excluding the check digit.
pub open spec fn spec_pan_nibbles(pan: Seq<char>) -> Seq<u8>
    recommends
        pan.len() >= 13,
{
    seq![0u8, 0u8, 0u8, 0u8] + spec_digit_vals(pan.subrange(pan.len() - 13, pan.len() - 1))
}

/// The bytewise XOR of two equal-length sequences.
pub open spec fn spec_xor_bytes(a: Seq<u8>, b: Seq<u8>) -> Seq<u8>
    recommends
        a.len() == b.len(),
{
    Seq::new(a.len(), |i: int| a[i] ^ b[i])
}

/// The clear format-0 PIN block: the packed PIN field XORed with the packed
/// PAN field.
pub open spec fn spec_clear_pin_block(pin: Seq<char>, pan: Seq<char>) -> Seq<u8> {
    spec_xor_bytes(pack_bcd(spec_pin_nibbles(pin)), pack_bcd(spec_pan_nibbles(pan)))
}

/// Packs nibbles two to a byte, high nibble first.
fn pack_nibbles(nib: &Vec<u8>) -> (r: Vec<u8>)
    requires
        nib@.len() % 2 == 0,
        forall|i: int| 0 <= i < nib@.len() ==> #[trigger] nib@[i] < 16,
    ensures
        r@ == pack_bcd(nib@),
        r@.len() == nib@.len() / 2,
{
    let mut r: Vec<u8> = Vec::new();
    let n = nib.len();
    let half = n / 2;
    let mut j: usize = 0;
    while j < half
        invariant
            j <= half,
            n == nib@.len(),
            2 * half <= n,
            half == nib@.len() / 2,
            nib@.len() % 2 == 0,
            forall|i: int| 0 <= i < nib@.len() ==> #[trigger] nib@[i] < 16,
            r@ =~= pack_bcd(nib@.take(2 * j as int)),
        decreases half - j,
    {
        r.push(nib[2 * j] * 16 + nib[2 * j + 1]);
        proof {
            let t = nib@.take(2 * (j + 1) as int);
            assert(t.take(t.len() - 2) =~= nib@.take(2 * j as int));
            assert(t[t.len() - 2] == nib@[2 * j as int]);
            assert(t[t.len() - 1] == nib@[2 * j as int + 1]);
        }
        j = j + 1;
    }
    proof {
        assert(nib@.take(nib@.len() as int) =~= nib@);
        lemma_pack_bcd_len_local(nib@);
    }
    r
}

/// Packing nibble pairs halves the length.
proof fn lemma_pack_bcd_len_local(ds: Seq<u8>)
    requires
        ds.len() % 2 == 0,
    ensures
        pack_bcd(ds).len() == ds.len() / 2,
    decreases ds.len(),
{
    if ds.len() >= 2 {
        lemma_pack_bcd_len_local(ds.take(ds.len() - 2));
    }
}

/// Pushes the digit values of `s[from..to]` onto `out`.
fn push_digit_vals(out: &mut Vec<u8>, s: &str, from: usize, to: usize)
    requires
        from <= to <= old(out)@.len() + s@.len(),
        to <= s@.len(),
        spec_all_digits(s@),
    ensures
        final(out)@ =~= old(out)@ + spec_digit_vals(s@.subrange(from as int, to as int)),
{
    let ghost out0 = out@;
    let mut i = from;
    while i < to
        invariant
            from <= i <= to <= s@.len(),
            spec_all_digits(s@),
            out@ =~= out0 + spec_digit_vals(s@.subrange(from as int, i as int)),
        decreases to - i,
    {
        let c = s.get_char(i);
        let v = c as u32;
        proof {
            assert(0x30 <= v <= 0x39);
        }
        out.push((v - 0x30) as u8);
        proof {
            assert(spec_digit_vals(s@.subrange(from as int, i + 1)) =~= spec_digit_vals(
                s@.subrange(from as int, i as int),
            ).push(((s@[i as int] as u32) - 0x30) as u8));
        }
        i = i + 1;
    }
}

/// The bytewise XOR of two equal-length vectors.
fn xor_bytes(a: &Vec<u8>, b: &Vec<u8>) -> (r: Vec<u8>)
    requires
        a@.len() == b@.len(),
    ensures
        r@ == spec_xor_bytes(a@, b@),
{
    let mut r: Vec<u8> = Vec::new();
    let mut i: usize = 0;
    while i < a.len()
        invariant
            i <= a@.len(),
            a@.len() == b@.len(),
            r@ =~= spec_xor_bytes(a@, b@).take(i as int),
        decreases a@.len() - i,
    {
        r.push(a[i] ^ b[i]);
        proof {
            assert(spec_xor_bytes(a@, b@).take(i + 1) =~= spec_xor_bytes(a@, b@).take(
                i as int,
            ).push(a@[i as int] ^ b@[i as int]));
        }
        i = i + 1;
    }
    proof {
        assert(spec_xor_bytes(a@, b@).take(a@.len() as int) =~= spec_xor_bytes(a@, b@));
    }
    r
}

/// Generates a PIN block: for format 0, the clear block (PIN field XOR PAN
/// field) enciphered under the 16-byte key given as 32 hexadecimal
/// characters. Formats other than 0 err.
pub fn generate_pin_block(fmt: &PinFormat, c_pin: &str, pan: &str, key: &str) -> (r: Result<
    Vec<u8>,
    PinError,
>)
    requires
        fmt is ISO0 ==> {
            &&& 4 <= c_pin@.len() <= 12
            &&& spec_all_digits(c_pin@)
            &&& pan@.len() >= 13
            &&& spec_all_digits(pan@)
            &&& spec_bytes_of_hex(key@) matches Some(k) && k.len() == 16
        },
    ensures
        r is Ok <==> fmt is ISO0,
        fmt is ISO0 ==> r->Ok_0@ == tdes_ede2_block(
            spec_bytes_of_hex(key@)->Some_0,
            spec_clear_pin_block(c_pin@, pan@),
        ) && r->Ok_0@.len() == 8,
{
    match fmt {
        PinFormat::ISO0 => {
            let pin_len = c_pin.unicode_len();
            let mut nib1: Vec<u8> = Vec::new();
            nib1.push(0);
            nib1.push(pin_len as u8);
            push_digit_vals(&mut nib1, c_pin, 0, pin_len);
            proof {
                assert(c_pin@.subrange(0, c_pin@.len() as int) =~= c_pin@);
            }
            while nib1.len() < 16
                invariant
                    nib1@.len() <= 16,
                    nib1@ =~= (seq![0u8, c_pin@.len() as u8] + spec_digit_vals(c_pin@)
                        + Seq::new((nib1@.len() - 2 - c_pin@.len()) as nat, |i: int| 0xfu8)),
                    nib1@.len() >= 2 + c_pin@.len(),
                decreases 16 - nib1.len(),
            {
                nib1.push(0xf);
                proof {
                    assert(Seq::new((nib1@.len() - 2 - c_pin@.len()) as nat, |i: int| 0xfu8)
                        =~= Seq::new((nib1@.len() - 3 - c_pin@.len()) as nat, |i: int| 0xfu8).push(
                        0xfu8,
                    ));
                }
            }
            proof {
                assert(nib1@ =~= spec_pin_nibbles(c_pin@));
                assert(forall|i: int| 0 <= i < nib1@.len() ==> #[trigger] nib1@[i] < 16) by {
                    assert(forall|i: int|
                        0 <= i < c_pin@.len() ==> #[trigger] spec_digit_vals(c_pin@)[i] < 16);
                }
            }
            let b1 = pack_nibbles(&nib1);
            let pan_len = pan.unicode_len();
            let mut nib2: Vec<u8> = Vec::new();
            nib2.push(0);
            nib2.push(0);
            nib2.push(0);
            nib2.push(0);
            push_digit_vals(&mut nib2, pan, pan_len - 13, pan_len - 1);
            proof {
                assert(nib2@ =~= spec_pan_nibbles(pan@));
                assert(forall|i: int| 0 <= i < nib2@.len() ==> #[trigger] nib2@[i] < 16) by {
                    let sub = pan@.subrange(pan@.len() - 13, pan@.len() - 1);
                    assert(forall|i: int|
                        0 <= i < sub.len() ==> #[trigger] spec_digit_vals(sub)[i] < 16);
                }
            }
            let b2 = pack_nibbles(&nib2);
            let clear = xor_bytes(&b1, &b2);
            let key_bytes = match bytes_of_hex_str(key) {
                Some(k) => k,
                None => {
                    proof {
                        assert(false);
                    }
                    Vec::new()
                },
            };
            proof {
                assert(spec_xor_bytes(b1@, b2@).len() == 8);
            }
            Ok(des_ede2_encrypt(&clear, &key_bytes))
        },
        _ => Err(PinError { msg: "unsupported pin block format".to_owned() }),
    }
}

} // verus!
