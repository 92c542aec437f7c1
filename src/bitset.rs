use vstd::prelude::*;

verus! {

/// Number of bytes held by a `BitField`.
pub const BIT_FIELD_BYTES: usize = 2048;

/// A fixed block of 2048 bytes addressed bit by bit, most significant bit first.
pub struct BitField(pub(crate) [u8; 2048]);

/// The bit of `b` at `offset` (0 is the most significant bit).
pub open spec fn byte_bit(b: u8, offset: u32) -> bool {
    b & (1u8 << (7 - offset) as u8) != 0
}

impl BitField {
    /// The bytes of the field.
    pub closed spec fn bytes(&self) -> Seq<u8> {
        self.0@
    }

    /// The bit at `index`: bit `7 - index % 8` of byte `index / 8`.
    pub open spec fn bit(&self, index: u32) -> bool {
        byte_bit(self.bytes()[(index / 8) as int], index % 8)
    }

    /// A field whose every byte is `init_value`.
    pub fn new(init_value: u8) -> (r: Self)
        ensures
            r.bytes().len() == BIT_FIELD_BYTES,
            forall|i: int| 0 <= i < BIT_FIELD_BYTES ==> r.bytes()[i] == init_value,
    {
        BitField([init_value; 2048])
    }

    /// Reads the bit at `index`.
    pub fn has(&self, index: u32) -> (r: bool)
        requires
            self.bytes().len() == BIT_FIELD_BYTES,
            index < 8 * BIT_FIELD_BYTES,
        ensures
            r == self.bit(index),
    {
        assert(index >> 3u32 == index / 8) by (bit_vector);
        let byte_index = index >> 3;
        let offset = index % 8;
        let mask: u8 = 1u8 << (7 - offset) as u8;
        self.0[byte_index as usize] & mask > 0
    }

    /// Sets the bit at `index` and leaves every other bit as it was.
    pub fn set(&mut self, index: u32)
        requires
            old(self).bytes().len() == BIT_FIELD_BYTES,
            index < 8 * BIT_FIELD_BYTES,
        ensures
            final(self).bytes().len() == BIT_FIELD_BYTES,
            final(self).bit(index),
            forall|k: u32| k < 8 * BIT_FIELD_BYTES && k != index ==> final(self).bit(k) == old(self).bit(k),
    {
        assert(index >> 3u32 == index / 8) by (bit_vector);
        let byte_index = index >> 3;
        let offset = index % 8;
        let mask: u8 = 1u8 << (7 - offset) as u8;
        let old_byte = self.0[byte_index as usize];
        let new_byte = old_byte | mask;
        self.0[byte_index as usize] = new_byte;
        proof {
            assert(byte_bit(new_byte, offset)) by (bit_vector)
                requires new_byte == old_byte | mask, mask == 1u8 << (7 - offset) as u8, offset < 8;
            assert forall|k: u32| k < 8 * BIT_FIELD_BYTES && k != index implies self.bit(k) == old(self).bit(k) by {
                if k / 8 == index / 8 {
                    let o2 = k % 8;
                    assert(o2 != offset);
                    assert(byte_bit(new_byte, o2) == byte_bit(old_byte, o2)) by (bit_vector)
                        requires new_byte == old_byte | mask, mask == 1u8 << (7 - offset) as u8,
                            offset < 8, o2 < 8, o2 != offset;
                }
            }
        }
    }
}

} // verus!
