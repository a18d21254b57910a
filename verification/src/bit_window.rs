//! The bits of one byte, handed out one at a time from the most significant
//! down.

use crate::bit::Bit;
use vstd::prelude::*;
use vstd::std_specs::convert::FromSpec;

verus! {

/// The mask that selects the first bit of a newly loaded byte.
pub const NEW_BYTE_MASK: u8 = 0b10000000;

/// The bit of `byte` that `mask` selects.
pub open spec fn bit_under(byte: u8, mask: u8) -> Bit {
    Bit::from_spec(byte & mask > 0)
}

/// The bits that a window over `byte` hands out from `mask` on: the bit under
/// the mask, then those under the mask moved right, until the mask is used up.
pub open spec fn bits_from(byte: u8, mask: u8) -> Seq<Bit>
    decreases mask,
{
    if mask == 0 {
        Seq::empty()
    } else {
        seq![bit_under(byte, mask)] + bits_from(byte, mask / 2)
    }
}

/// The eight bits of `byte`, most significant first.
pub open spec fn bits_of(byte: u8) -> Seq<Bit> {
    Seq::new(8, |i: int| Bit::from_spec((byte >> ((7 - i) as u8)) & 1 == 1))
}

/// A window over a whole byte hands out its eight bits, most significant
/// first.
pub proof fn lemma_bits_from_new_byte(byte: u8)
    ensures
        bits_from(byte, NEW_BYTE_MASK) == bits_of(byte),
{
    reveal_with_fuel(bits_from, 9);
    assert((byte & 0x80 > 0) == ((byte >> 7u8) & 1 == 1)) by (bit_vector);
    assert((byte & 0x40 > 0) == ((byte >> 6u8) & 1 == 1)) by (bit_vector);
    assert((byte & 0x20 > 0) == ((byte >> 5u8) & 1 == 1)) by (bit_vector);
    assert((byte & 0x10 > 0) == ((byte >> 4u8) & 1 == 1)) by (bit_vector);
    assert((byte & 0x08 > 0) == ((byte >> 3u8) & 1 == 1)) by (bit_vector);
    assert((byte & 0x04 > 0) == ((byte >> 2u8) & 1 == 1)) by (bit_vector);
    assert((byte & 0x02 > 0) == ((byte >> 1u8) & 1 == 1)) by (bit_vector);
    assert((byte & 0x01 > 0) == ((byte >> 0u8) & 1 == 1)) by (bit_vector);
}

/// The byte being read and the mask of the bit that comes next. Its view is
/// the sequence of bits still to come from the byte.
pub struct BitWindow {
    byte: u8,
    mask: u8,
}

impl View for BitWindow {
    type V = Seq<Bit>;

    closed spec fn view(&self) -> Seq<Bit> {
        bits_from(self.byte, self.mask)
    }
}

impl BitWindow {
    /// A window with no bit left: the next bit needs a new byte.
    pub fn new() -> (window: Self)
        ensures
            window@ == Seq::<Bit>::empty(),
    {
        BitWindow { byte: 0, mask: 0 }
    }

    /// Whether every bit of the byte has been handed out.
    pub fn is_drained(&self) -> (drained: bool)
        ensures
            drained == (self@.len() == 0),
    {
        self.mask == 0
    }

    /// Starts on a new byte: its eight bits are to come, whatever was left of
    /// the byte before.
    pub fn next_byte(&mut self, byte: u8)
        ensures
            final(self)@ == bits_of(byte),
    {
        proof {
            lemma_bits_from_new_byte(byte);
        }
        self.byte = byte;
        self.mask = NEW_BYTE_MASK;
    }

    /// Hands out the next bit and moves on to the one after it. A drained
    /// window stays drained and gives `ZERO`.
    pub fn extract_bit(&mut self) -> (bit: Bit)
        ensures
            old(self)@.len() > 0 ==> bit == old(self)@[0] && final(self)@ == old(self)@.skip(1),
            old(self)@.len() == 0 ==> bit == Bit::ZERO && final(self)@ == old(self)@,
    {
        let byte = self.byte;
        let mask = self.mask;
        proof {
            assert(mask >> 1 == mask / 2) by (bit_vector);
            assert(mask == 0 ==> byte & mask == 0) by (bit_vector);
        }
        let bit = (self.byte & self.mask > 0).into();
        self.mask >>= 1;
        bit
    }
}

} // verus!
