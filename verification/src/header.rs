//! The file's header, its constants and the encoding of numbers in the file.

use vstd::prelude::*;

verus! {

/// The 16 bytes that every table file starts with: `rust-persist-01\n`.
pub const INDEX_HEADER: [u8; 16] = [
    114, 117, 115, 116, 45, 112, 101, 114, 115, 105, 115, 116, 45, 48, 49, 10,
];

/// Number of slots of a new table.
pub const INITIAL_INDEX_CAPACITY: usize = 128;

/// Size of the data region of a new table.
pub const INITIAL_DATA_SIZE: usize = 0;

/// Size of the header in the file.
pub const HEADER_SIZE: u64 = 36;

/// Size of a slot in the file.
pub const ENTRY_SIZE: u64 = 24;

/// Whether bit `bit` of `b` is set.
pub open spec fn bit_is_set(b: u8, bit: u8) -> bool {
    b & (1u8 << bit) != 0
}

/// `b` with bit `bit` set to `val`.
pub open spec fn with_bit(b: u8, bit: u8, val: bool) -> u8 {
    (b & !(1u8 << bit)) | (if val {
        1u8 << bit
    } else {
        0u8
    })
}

/// `x` with its four bytes in the opposite order.
pub open spec fn swap_u32(x: u32) -> u32 {
    ((x & 0xff) << 24) | ((x & 0xff00) << 8) | ((x >> 8) & 0xff00) | (x >> 24)
}

pub proof fn lemma_with_bit(b: u8, bit: u8, other: u8, val: bool)
    requires
        bit < 8,
        other < 8,
    ensures
        bit_is_set(with_bit(b, bit, val), bit) == val,
        other != bit ==> bit_is_set(with_bit(b, bit, val), other) == bit_is_set(b, other),
{
    if val {
        assert(bit < 8 ==> ((b & !(1u8 << bit)) | (1u8 << bit)) & (1u8 << bit) != 0)
            by (bit_vector);
        assert(bit < 8 && other < 8 && other != bit ==> (((b & !(1u8 << bit)) | (1u8 << bit)) & (1u8
            << other) != 0) == (b & (1u8 << other) != 0)) by (bit_vector);
    } else {
        assert(bit < 8 ==> ((b & !(1u8 << bit)) | 0u8) & (1u8 << bit) == 0) by (bit_vector);
        assert(bit < 8 && other < 8 && other != bit ==> (((b & !(1u8 << bit)) | 0u8) & (1u8
            << other) != 0) == (b & (1u8 << other) != 0)) by (bit_vector);
    }
}

/// The fixed part at the start of the file.
#[derive(Clone, Copy, Debug)]
pub struct Header {
    /// The magic bytes.
    pub header: [u8; 16],
    /// 128 flag bits. Bit 0 of byte 0 is the dirty flag, bit 1 of byte 0
    /// says that the file was written on a big-endian machine.
    pub flags: [u8; 16],
    /// Number of slots of the index.
    pub index_capacity: u32,
}

impl Header {
    /// Bit `bit` of flag byte `byte`.
    pub open spec fn flag(&self, byte: int, bit: int) -> bool {
        bit_is_set(self.flags@[byte], bit as u8)
    }

    /// Whether the dirty flag is set.
    pub open spec fn dirty(&self) -> bool {
        self.flag(0, 0)
    }

    /// Whether the file says it was written on a big-endian machine.
    pub open spec fn big_endian(&self) -> bool {
        self.flag(0, 1)
    }

    pub fn set_flag(&mut self, byte: usize, bit: usize, val: bool)
        requires
            byte < 16,
            bit < 8,
        ensures
            final(self).header == old(self).header,
            final(self).index_capacity == old(self).index_capacity,
            final(self).flags@ == old(self).flags@.update(
                byte as int,
                with_bit(old(self).flags@[byte as int], bit as u8, val),
            ),
            final(self).flag(byte as int, bit as int) == val,
            forall|b: int, i: int|
                0 <= b < 16 && 0 <= i < 8 && !(b == byte && i == bit) ==> #[trigger] final(self).flag(b, i) == old(self).flag(b, i),
    {
        let mask = 1u8 << (bit as u8);
        let current = self.flags[byte];
        let ghost before = self.flags@;
        self.flags[byte] = (current & !mask) | if val {
            mask
        } else {
            0
        };
        proof {
            assert forall|b: int, i: int| 0 <= b < 16 && 0 <= i < 8 implies #[trigger] self.flag(
                b,
                i,
            ) == (if b == byte && i == bit {
                val
            } else {
                bit_is_set(before[b], i as u8)
            }) by {
                lemma_with_bit(current, bit as u8, i as u8, val);
            }
        }
    }

    pub fn get_flag(&self, byte: usize, bit: usize) -> (r: bool)
        requires
            byte < 16,
            bit < 8,
        ensures
            r == self.flag(byte as int, bit as int),
    {
        let mask = 1u8 << (bit as u8);
        self.flags[byte] & mask != 0
    }

    /// Whether a change of the file's geometry was under way when the file
    /// was last written.
    pub fn is_dirty(&self) -> (r: bool)
        ensures
            r == self.dirty(),
    {
        self.get_flag(0, 0)
    }

    pub fn set_dirty(&mut self, dirty: bool)
        ensures
            final(self).dirty() == dirty,
            final(self).big_endian() == old(self).big_endian(),
            final(self).header == old(self).header,
            final(self).index_capacity == old(self).index_capacity,
            final(self).flags@ == old(self).flags@.update(
                0,
                with_bit(old(self).flags@[0], 0, dirty),
            ),
            forall|b: int, i: int|
                0 <= b < 16 && 0 <= i < 8 && !(b == 0 && i == 0) ==> #[trigger] final(self).flag(
                    b,
                    i,
                ) == old(self).flag(b, i),
    {
        self.set_flag(0, 0, dirty)
    }

    /// Turns the byte order of the capacity round.
    pub fn fix_endianness(&mut self)
        ensures
            final(self).index_capacity == swap_u32(old(self).index_capacity),
            final(self).header == old(self).header,
            final(self).flags == old(self).flags,
    {
        let x = self.index_capacity;
        self.index_capacity = ((x & 0xff) << 24) | ((x & 0xff00) << 8) | ((x >> 8) & 0xff00) | (x
            >> 24);
    }

    /// Whether the file's byte order is the given one.
    pub fn has_endianness(&self, big: bool) -> (r: bool)
        ensures
            r == (self.big_endian() == big),
    {
        self.get_flag(0, 1) == big
    }

    /// Records the given byte order as the file's.
    pub fn set_endianness(&mut self, big: bool)
        ensures
            final(self).big_endian() == big,
            final(self).dirty() == old(self).dirty(),
            final(self).header == old(self).header,
            final(self).index_capacity == old(self).index_capacity,
            final(self).flags@ == old(self).flags@.update(0, with_bit(old(self).flags@[0], 1, big)),
            forall|b: int, i: int|
                0 <= b < 16 && 0 <= i < 8 && !(b == 0 && i == 1) ==> #[trigger] final(self).flag(
                    b,
                    i,
                ) == old(self).flag(b, i),
    {
        self.set_flag(0, 1, big)
    }

    /// Whether the file's byte order is this machine's. What comes back
    /// depends on the machine: `has_endianness` says it for a given order.
    pub fn has_correct_endianness(&self) -> (r: bool) {
        self.has_endianness(is_be())
    }

    /// Records this machine's byte order as the file's.
    pub fn set_correct_endianness(&mut self)
        ensures
            final(self).dirty() == old(self).dirty(),
            final(self).header == old(self).header,
            final(self).index_capacity == old(self).index_capacity,
            forall|b: int, i: int|
                0 <= b < 16 && 0 <= i < 8 && !(b == 0 && i == 1) ==> #[trigger] final(self).flag(
                    b,
                    i,
                ) == old(self).flag(b, i),
    {
        self.set_endianness(is_be())
    }
}

/// Whether this machine stores the high byte of a number first.
pub fn is_be() -> bool {
    to_big_endian(1001) == 1001
}

/// `u16::to_be`: the number whose bytes in this machine's memory are the
/// big-endian bytes of `x`. What comes back depends on the machine.
#[verifier::external_body]
fn to_big_endian(x: u16) -> u16 {
    x.to_be()
}

/// Length of a file with the given number of slots and bytes of data.
pub open spec fn total_size_spec(index_capacity: usize, data_size: u64) -> int {
    HEADER_SIZE + index_capacity * ENTRY_SIZE + data_size
}

/// Length of a file with the given number of slots and bytes of data.
pub fn total_size(index_capacity: usize, data_size: u64) -> (r: u64)
    requires
        total_size_spec(index_capacity, data_size) <= u64::MAX,
    ensures
        r == total_size_spec(index_capacity, data_size),
{
    HEADER_SIZE + index_capacity as u64 * ENTRY_SIZE + data_size
}


/// The number whose low byte is `b0` and whose high byte is `b1`.
pub open spec fn u16_le(b0: u8, b1: u8) -> u16 {
    (b0 as u16) | ((b1 as u16) << 8)
}

/// The number of four bytes, the low byte first.
pub open spec fn u32_le(b0: u8, b1: u8, b2: u8, b3: u8) -> u32 {
    (b0 as u32) | ((b1 as u32) << 8) | ((b2 as u32) << 16) | ((b3 as u32) << 24)
}

/// The number of eight bytes, the low byte first.
pub open spec fn u64_le(b0: u8, b1: u8, b2: u8, b3: u8, b4: u8, b5: u8, b6: u8, b7: u8) -> u64 {
    (b0 as u64) | ((b1 as u64) << 8) | ((b2 as u64) << 16) | ((b3 as u64) << 24) | ((b4 as u64)
        << 32) | ((b5 as u64) << 40) | ((b6 as u64) << 48) | ((b7 as u64) << 56)
}

/// The 16-bit number stored in `b` at `off`, in the given byte order.
pub open spec fn u16_at(b: Seq<u8>, off: int, big: bool) -> u16 {
    if big {
        u16_le(b[off + 1], b[off])
    } else {
        u16_le(b[off], b[off + 1])
    }
}

/// The 32-bit number stored in `b` at `off`, in the given byte order.
pub open spec fn u32_at(b: Seq<u8>, off: int, big: bool) -> u32 {
    if big {
        u32_le(b[off + 3], b[off + 2], b[off + 1], b[off])
    } else {
        u32_le(b[off], b[off + 1], b[off + 2], b[off + 3])
    }
}

/// The 64-bit number stored in `b` at `off`, in the given byte order.
pub open spec fn u64_at(b: Seq<u8>, off: int, big: bool) -> u64 {
    if big {
        u64_le(
            b[off + 7],
            b[off + 6],
            b[off + 5],
            b[off + 4],
            b[off + 3],
            b[off + 2],
            b[off + 1],
            b[off],
        )
    } else {
        u64_le(
            b[off],
            b[off + 1],
            b[off + 2],
            b[off + 3],
            b[off + 4],
            b[off + 5],
            b[off + 6],
            b[off + 7],
        )
    }
}

/// Byte `i` of `x`, counted from the low end.
pub open spec fn byte_of(x: u64, i: u64) -> u8 {
    ((x >> (8 * i)) & 0xff) as u8
}

/// The two bytes of `x` in the given byte order.
pub open spec fn u16_bytes(x: u16, big: bool) -> Seq<u8> {
    if big {
        seq![byte_of(x as u64, 1), byte_of(x as u64, 0)]
    } else {
        seq![byte_of(x as u64, 0), byte_of(x as u64, 1)]
    }
}

/// The four bytes of `x` in the given byte order.
pub open spec fn u32_bytes(x: u32, big: bool) -> Seq<u8> {
    if big {
        seq![byte_of(x as u64, 3), byte_of(x as u64, 2), byte_of(x as u64, 1), byte_of(x as u64, 0)]
    } else {
        seq![byte_of(x as u64, 0), byte_of(x as u64, 1), byte_of(x as u64, 2), byte_of(x as u64, 3)]
    }
}

/// The eight bytes of `x` in the given byte order.
pub open spec fn u64_bytes(x: u64, big: bool) -> Seq<u8> {
    if big {
        seq![
            byte_of(x, 7),
            byte_of(x, 6),
            byte_of(x, 5),
            byte_of(x, 4),
            byte_of(x, 3),
            byte_of(x, 2),
            byte_of(x, 1),
            byte_of(x, 0),
        ]
    } else {
        seq![
            byte_of(x, 0),
            byte_of(x, 1),
            byte_of(x, 2),
            byte_of(x, 3),
            byte_of(x, 4),
            byte_of(x, 5),
            byte_of(x, 6),
            byte_of(x, 7),
        ]
    }
}

/// `x` with its two bytes in the opposite order.
pub open spec fn swap_u16(x: u16) -> u16 {
    ((x & 0xff) << 8) | (x >> 8)
}

/// `x` with its eight bytes in the opposite order.
pub open spec fn swap_u64(x: u64) -> u64 {
    ((x & 0xff) << 56) | ((x & 0xff00) << 40) | ((x & 0xff_0000) << 24) | ((x & 0xff00_0000) << 8)
        | ((x >> 8) & 0xff00_0000) | ((x >> 24) & 0xff_0000) | ((x >> 40) & 0xff00) | (x >> 56)
}

/// A number read from its own bytes is the number.
pub proof fn lemma_u16_round_trip(x: u16, big: bool)
    ensures
        u16_bytes(x, big).len() == 2,
        u16_at(u16_bytes(x, big), 0, big) == x,
{
    assert(u16_le(byte_of(x as u64, 0), byte_of(x as u64, 1)) == x) by (bit_vector);
}

pub proof fn lemma_u32_round_trip(x: u32, big: bool)
    ensures
        u32_bytes(x, big).len() == 4,
        u32_at(u32_bytes(x, big), 0, big) == x,
{
    assert(u32_le(
        byte_of(x as u64, 0),
        byte_of(x as u64, 1),
        byte_of(x as u64, 2),
        byte_of(x as u64, 3),
    ) == x) by (bit_vector);
}

pub proof fn lemma_u64_round_trip(x: u64, big: bool)
    ensures
        u64_bytes(x, big).len() == 8,
        u64_at(u64_bytes(x, big), 0, big) == x,
{
    assert(u64_le(
        byte_of(x, 0),
        byte_of(x, 1),
        byte_of(x, 2),
        byte_of(x, 3),
        byte_of(x, 4),
        byte_of(x, 5),
        byte_of(x, 6),
        byte_of(x, 7),
    ) == x) by (bit_vector);
}

/// Turning the bytes of a number round gives the number that the bytes
/// stand for in the other byte order.
pub proof fn lemma_swap_reads(b: Seq<u8>, off: int, big: bool)
    ensures
        swap_u16(u16_at(b, off, big)) == u16_at(b, off, !big),
        swap_u32(u32_at(b, off, big)) == u32_at(b, off, !big),
        swap_u64(u64_at(b, off, big)) == u64_at(b, off, !big),
{
    let b0 = b[off];
    let b1 = b[off + 1];
    let b2 = b[off + 2];
    let b3 = b[off + 3];
    let b4 = b[off + 4];
    let b5 = b[off + 5];
    let b6 = b[off + 6];
    let b7 = b[off + 7];
    assert(swap_u16(u16_le(b0, b1)) == u16_le(b1, b0)) by (bit_vector);
    assert(swap_u16(u16_le(b1, b0)) == u16_le(b0, b1)) by (bit_vector);
    assert(swap_u32(u32_le(b0, b1, b2, b3)) == u32_le(b3, b2, b1, b0)) by (bit_vector);
    assert(swap_u32(u32_le(b3, b2, b1, b0)) == u32_le(b0, b1, b2, b3)) by (bit_vector);
    assert(swap_u64(u64_le(b0, b1, b2, b3, b4, b5, b6, b7)) == u64_le(
        b7,
        b6,
        b5,
        b4,
        b3,
        b2,
        b1,
        b0,
    )) by (bit_vector);
    assert(swap_u64(u64_le(b7, b6, b5, b4, b3, b2, b1, b0)) == u64_le(
        b0,
        b1,
        b2,
        b3,
        b4,
        b5,
        b6,
        b7,
    )) by (bit_vector);
}

/// Reads a 16-bit number in the given byte order.
pub fn read_u16(b: &[u8], off: usize, big: bool) -> (x: u16)
    requires
        off + 2 <= b@.len(),
    ensures
        x == u16_at(b@, off as int, big),
{
    let b0 = b[off];
    let b1 = b[off + 1];
    if big {
        (b1 as u16) | ((b0 as u16) << 8)
    } else {
        (b0 as u16) | ((b1 as u16) << 8)
    }
}

/// Reads a 32-bit number in the given byte order.
pub fn read_u32(b: &[u8], off: usize, big: bool) -> (x: u32)
    requires
        off + 4 <= b@.len(),
    ensures
        x == u32_at(b@, off as int, big),
{
    let b0 = b[off];
    let b1 = b[off + 1];
    let b2 = b[off + 2];
    let b3 = b[off + 3];
    if big {
        (b3 as u32) | ((b2 as u32) << 8) | ((b1 as u32) << 16) | ((b0 as u32) << 24)
    } else {
        (b0 as u32) | ((b1 as u32) << 8) | ((b2 as u32) << 16) | ((b3 as u32) << 24)
    }
}

/// Reads a 64-bit number in the given byte order.
pub fn read_u64(b: &[u8], off: usize, big: bool) -> (x: u64)
    requires
        off + 8 <= b@.len(),
    ensures
        x == u64_at(b@, off as int, big),
{
    let b0 = b[off];
    let b1 = b[off + 1];
    let b2 = b[off + 2];
    let b3 = b[off + 3];
    let b4 = b[off + 4];
    let b5 = b[off + 5];
    let b6 = b[off + 6];
    let b7 = b[off + 7];
    if big {
        (b7 as u64) | ((b6 as u64) << 8) | ((b5 as u64) << 16) | ((b4 as u64) << 24) | ((b3 as u64)
            << 32) | ((b2 as u64) << 40) | ((b1 as u64) << 48) | ((b0 as u64) << 56)
    } else {
        (b0 as u64) | ((b1 as u64) << 8) | ((b2 as u64) << 16) | ((b3 as u64) << 24) | ((b4 as u64)
            << 32) | ((b5 as u64) << 40) | ((b6 as u64) << 48) | ((b7 as u64) << 56)
    }
}

/// Byte `i` of `x`, counted from the low end.
pub fn get_byte(x: u64, i: u64) -> (r: u8)
    requires
        i < 8,
    ensures
        r == byte_of(x, i),
{
    let v = (x >> (8 * i)) & 0xff;
    assert(((x >> (8 * i)) & 0xff) < 256) by (bit_vector);
    v as u8
}

/// Appends the bytes of a number of `width` bytes in the given byte order.
pub fn write_number(out: &mut Vec<u8>, x: u64, width: u64, big: bool)
    requires
        1 <= width <= 8,
    ensures
        final(out)@.len() == old(out)@.len() + width,
        final(out)@.subrange(0, old(out)@.len() as int) == old(out)@,
        forall|i: int|
            0 <= i < width ==> #[trigger] final(out)@[old(out)@.len() + i] == byte_of(
                x,
                (if big {
                    width - 1 - i
                } else {
                    i
                }) as u64,
            ),
{
    let ghost before = out@;
    let mut i: u64 = 0;
    while i < width
        invariant
            i <= width <= 8,
            out@.len() == before.len() + i,
            out@.subrange(0, before.len() as int) == before,
            forall|j: int|
                0 <= j < i ==> #[trigger] out@[before.len() + j] == byte_of(
                    x,
                    (if big {
                        width - 1 - j
                    } else {
                        j
                    }) as u64,
                ),
        decreases width - i,
    {
        let ghost current = out@;
        let which = if big { width - 1 - i } else { i };
        out.push(get_byte(x, which));
        proof {
            assert(out@.subrange(0, before.len() as int) =~= current.subrange(
                0,
                before.len() as int,
            ));
        }
        i += 1;
    }
}

} // verus!
