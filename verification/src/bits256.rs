//! A pack of 256 bits.

use vstd::prelude::*;
use crate::layout::Storable;

verus! {

/// A bit position within a pack of 256 bits.
pub type Index256 = u8;

/// Bit `pos` of `byte`, for `pos` below 8.
pub open spec fn byte_bit(byte: u8, pos: u8) -> bool {
    (byte >> pos) & 1 == 1
}

proof fn lemma_set_bit(byte: u8, pos: u8, other: u8)
    requires
        pos < 8,
        other < 8,
    ensures
        byte_bit(byte | (1u8 << pos), other) == (other == pos || byte_bit(byte, other)),
{
    assert(((byte | (1u8 << pos)) >> other) & 1 == 1 <==> (other == pos || (byte >> other) & 1
        == 1)) by (bit_vector)
        requires
            pos < 8,
            other < 8,
    ;
}

proof fn lemma_reset_bit(byte: u8, pos: u8, other: u8)
    requires
        pos < 8,
        other < 8,
    ensures
        byte_bit(byte & !(1u8 << pos), other) == (other != pos && byte_bit(byte, other)),
{
    assert(((byte & !(1u8 << pos)) >> other) & 1 == 1 <==> (other != pos && (byte >> other) & 1
        == 1)) by (bit_vector)
        requires
            pos < 8,
            other < 8,
    ;
}

proof fn lemma_zero_byte(other: u8)
    requires
        other < 8,
    ensures
        !byte_bit(0u8, other),
{
    assert(!((0u8 >> other) & 1 == 1)) by (bit_vector)
        requires
            other < 8,
    ;
}

/// A pack of 256 bits, eight to a byte, the lowest bit of a byte first.
///
/// Its view is the sequence of its 256 bits.
#[derive(Clone, Copy, Debug, PartialEq, Eq)]
pub struct Bits256 {
    bytes: [u8; 32],
}

impl View for Bits256 {
    type V = Seq<bool>;

    closed spec fn view(&self) -> Seq<bool> {
        Seq::new(256, |i: int| byte_bit(self.bytes@[i / 8], (i % 8) as u8))
    }
}

impl Bits256 {
    /// The 32 bytes of the pack.
    pub closed spec fn spec_bytes(&self) -> Seq<u8> {
        self.bytes@
    }

    /// A pack has 256 bits, in 32 bytes that determine it.
    pub proof fn lemma_shape(&self)
        ensures
            self@.len() == 256,
            self.spec_bytes().len() == 32,
            forall|i: int|
                0 <= i < 256 ==> self@[i] == byte_bit(
                    #[trigger] self.spec_bytes()[i / 8],
                    (i % 8) as u8,
                ),
    {
    }

    /// Packs with the same bytes are the same pack.
    pub proof fn lemma_bytes_injective(a: Bits256, b: Bits256)
        requires
            a.spec_bytes() == b.spec_bytes(),
        ensures
            a == b,
    {
        assert(a.bytes =~= b.bytes);
    }

    /// A pack with every bit cleared.
    pub fn new() -> (pack: Bits256)
        ensures
            pack@ == Seq::new(256, |i: int| false),
    {
        let pack = Bits256 { bytes: [0u8;32] };
        proof {
            assert forall|i: int| 0 <= i < 256 implies !pack@[i] by {
                lemma_zero_byte((i % 8) as u8);
            }
            assert(pack@ =~= Seq::new(256, |i: int| false));
        }
        pack
    }

    /// The bit at `at`.
    pub fn get(&self, at: Index256) -> (bit: bool)
        ensures
            bit == self@[at as int],
    {
        let byte: u8 = self.bytes[(at / 8) as usize];
        let pos: u8 = at % 8;
        (byte >> pos) & 1 == 1
    }

    /// Sets the bit at `at`.
    pub fn set(&mut self, at: Index256)
        ensures
            final(self)@ == old(self)@.update(at as int, true),
    {
        let index: usize = (at / 8) as usize;
        let pos: u8 = at % 8;
        let byte: u8 = self.bytes[index];
        self.bytes[index] = byte | (1u8 << pos);
        proof {
            assert forall|i: int| 0 <= i < 256 implies self@[i] == old(self)@.update(
                at as int,
                true,
            )[i] by {
                if i / 8 == index as int {
                    lemma_set_bit(byte, pos, (i % 8) as u8);
                }
            }
            assert(self@ =~= old(self)@.update(at as int, true));
        }
    }

    /// Clears the bit at `at`.
    pub fn reset(&mut self, at: Index256)
        ensures
            final(self)@ == old(self)@.update(at as int, false),
    {
        let index: usize = (at / 8) as usize;
        let pos: u8 = at % 8;
        let byte: u8 = self.bytes[index];
        self.bytes[index] = byte & !(1u8 << pos);
        proof {
            assert forall|i: int| 0 <= i < 256 implies self@[i] == old(self)@.update(
                at as int,
                false,
            )[i] by {
                if i / 8 == index as int {
                    lemma_reset_bit(byte, pos, (i % 8) as u8);
                }
            }
            assert(self@ =~= old(self)@.update(at as int, false));
        }
    }

    /// Sets the bit at `at` to `value`.
    pub fn set_to(&mut self, at: Index256, value: bool)
        ensures
            final(self)@ == old(self)@.update(at as int, value),
    {
        if value {
            self.set(at)
        } else {
            self.reset(at)
        }
    }

    /// Turns the bit at `at` over.
    pub fn flip(&mut self, at: Index256)
        ensures
            final(self)@ == old(self)@.update(at as int, !old(self)@[at as int]),
    {
        let value = self.get(at);
        self.set_to(at, !value)
    }
}

impl Default for Bits256 {
    fn default() -> (pack: Bits256)
        ensures
            pack@ == Seq::new(256, |i: int| false),
    {
        Bits256::new()
    }
}

impl Storable for Bits256 {
    open spec fn spec_footprint() -> nat {
        1
    }

    /// The 32 bytes of the pack.
    open spec fn encoding(&self) -> Seq<u8> {
        self.spec_bytes()
    }

    /// The pack with the given 32 bytes; no other length stands for a pack.
    open spec fn decoding(bytes: Seq<u8>) -> Option<Bits256> {
        if exists|pack: Bits256| pack.spec_bytes() == bytes {
            Some(choose|pack: Bits256| pack.spec_bytes() == bytes)
        } else {
            None
        }
    }

    proof fn lemma_round_trip(&self) {
        let bytes = self.encoding();
        assert(self.spec_bytes() == bytes);
        let chosen = choose|pack: Bits256| pack.spec_bytes() == bytes;
        Bits256::lemma_bytes_injective(chosen, *self);
    }

    proof fn lemma_footprint() {
    }

    fn footprint() -> (cells: u64) {
        1
    }

    fn encode(&self) -> (bytes: Vec<u8>) {
        let mut bytes: Vec<u8> = Vec::new();
        let mut i: usize = 0;
        while i < 32
            invariant
                i <= 32,
                bytes@ == self.bytes@.take(i as int),
            decreases 32 - i,
        {
            bytes.push(self.bytes[i]);
            proof {
                assert(self.bytes@.take(i + 1) =~= self.bytes@.take(i as int).push(
                    self.bytes@[i as int],
                ));
            }
            i += 1;
        }
        proof {
            assert(self.bytes@.take(32) =~= self.bytes@);
        }
        bytes
    }

    fn decode(bytes: &Vec<u8>) -> (value: Option<Bits256>) {
        if bytes.len() != 32 {
            proof {
                assert forall|pack: Bits256| pack.spec_bytes() != bytes@ by {
                    pack.lemma_shape();
                }
            }
            return None;
        }
        let mut pack = Bits256 { bytes: [0u8;32] };
        let mut i: usize = 0;
        while i < 32
            invariant
                i <= 32,
                bytes@.len() == 32,
                forall|j: int| 0 <= j < i ==> pack.bytes@[j] == bytes@[j],
            decreases 32 - i,
        {
            pack.bytes[i] = bytes[i];
            i += 1;
        }
        proof {
            assert(pack.spec_bytes() =~= bytes@);
            let chosen = choose|p: Bits256| p.spec_bytes() == bytes@;
            Bits256::lemma_bytes_injective(chosen, pack);
        }
        Some(pack)
    }
}

} // verus!
