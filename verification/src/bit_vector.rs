//! A vector of bits packed into bytes, most significant bit first.

use vstd::prelude::*;

verus! {

/// A single bit.
#[derive(Debug, Clone, Copy, PartialEq, Eq, Structural)]
pub enum Bit {
    Zero,
    One,
}

impl Bit {
    /// Converts `0` or `1` into the corresponding bit; any other value is
    /// rejected.
    pub fn try_from(value: u8) -> (r: Result<Bit, &'static str>)
        ensures
            value == 0 ==> r == Ok::<Bit, &'static str>(Bit::Zero),
            value == 1 ==> r == Ok::<Bit, &'static str>(Bit::One),
            value >= 2 ==> r is Err,
    {
        match value {
            0 => Ok(Bit::Zero),
            1 => Ok(Bit::One),
            _ => Err("Bit can only accept 0 or 1!"),
        }
    }
}

/// True when bit `pos` of `byte` is set, counting from the most
/// significant bit (`pos` 0) down to the least significant (`pos` 7).
pub open spec fn packed_bit(byte: u8, pos: u8) -> bool {
    (byte >> ((7 - pos) as u8)) & 1 == 1
}

/// `bytes` is the packing of `bits`: bit `k` of the sequence lands in byte
/// `k / 8` at position `k % 8`, and the positions past the end stay clear.
pub open spec fn packs(bits: Seq<Bit>, bytes: Seq<u8>) -> bool {
    &&& bytes.len() == (bits.len() + 7) / 8
    &&& forall|i: int, p: u8|
        0 <= i < bytes.len() && p < 8 ==> #[trigger] packed_bit(bytes[i], p) == (8 * i + p
            < bits.len() && bits[8 * i + p] == Bit::One)
}

proof fn lemma_zero_byte(q: u8)
    requires
        q < 8,
    ensures
        !packed_bit(0, q),
{
    assert((0u8 >> ((7 - q) as u8)) & 1 != 1) by (bit_vector)
        requires
            q < 8,
    ;
}

proof fn lemma_set_bit(b: u8, p: u8, q: u8)
    requires
        p < 8,
        q < 8,
    ensures
        packed_bit(b | (0x80u8 >> p), q) == if p == q {
            true
        } else {
            packed_bit(b, q)
        },
{
    assert(((b | (0x80u8 >> p)) >> ((7 - q) as u8)) & 1 == if p == q {
        1u8
    } else {
        (b >> ((7 - q) as u8)) & 1
    }) by (bit_vector)
        requires
            p < 8,
            q < 8,
    ;
}

/// Packs the bits into bytes, eight per byte, most significant bit first;
/// the unused low positions of a trailing partial byte stay zero.
pub fn to_bytes(value: &Vec<Bit>) -> (bytes: Vec<u8>)
    ensures
        packs(value@, bytes@),
{
    let mut bytes: Vec<u8> = Vec::new();

    let mut k: usize = 0;
    while k < value.len()
        invariant
            k <= value@.len(),
            bytes@.len() == (k + 7) / 8,
            forall|i: int, p: u8|
                0 <= i < bytes@.len() && p < 8 ==> #[trigger] packed_bit(bytes@[i], p) == (8 * i
                    + p < k && value@[8 * i + p] == Bit::One),
        decreases value@.len() - k,
    {
        let byte_pos: usize = k % 8;
        if byte_pos == 0 {
            bytes.push(0);
            proof {
                assert forall|q: u8| q < 8 implies !packed_bit(0, q) by {
                    lemma_zero_byte(q);
                }
            }
        }

        let byte_index = k / 8;

        match value[k] {
            Bit::One => {
                let old_byte = bytes[byte_index];
                let new_byte = old_byte | (0b1000_0000u8 >> byte_pos as u8);
                bytes.set(byte_index, new_byte);
                proof {
                    assert forall|q: u8| q < 8 implies packed_bit(new_byte, q) == if q
                        == byte_pos as u8 {
                        true
                    } else {
                        packed_bit(old_byte, q)
                    } by {
                        lemma_set_bit(old_byte, byte_pos as u8, q);
                    }
                    assert(8 * (k as int / 8) + (k as int % 8) == k as int);
                }
            },
            _ => {
                proof {
                    assert(8 * (k as int / 8) + (k as int % 8) == k as int);
                }
            },
        }

        k = k + 1;
    }

    bytes
}

} // verus!
