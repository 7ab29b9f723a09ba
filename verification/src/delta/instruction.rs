//! Delta instructions and their byte-exact encoding.

use super::buffer::{as_slice, bytes_view};
use bytes::Bytes;
use std::ops::Range;
use vstd::prelude::*;

verus! {

/// The most bytes that one data instruction can carry: its length has to fit
/// in seven bits.
pub const MAX_DATA_BYTES: usize = 127;

/// The most bytes that one copy instruction can copy: its size is written in
/// at most three bytes.
pub const MAX_COPY_BYTES: u32 = 0xff_ffff;

/// The copy size that is written with no size byte at all.
pub const COPY_SPECIAL_SIZE: u32 = 0x1_0000;

/// Why a delta could not be built.
#[derive(Clone, Copy, Debug, PartialEq, Eq, Structural)]
pub enum DeltaError {
    /// A data instruction was asked to carry no bytes, or more than
    /// `MAX_DATA_BYTES`.
    InvalidDataSize { len: usize },
    /// A copy instruction was asked to copy an empty range.
    EmptyCopyRange { start: u32, end: u32 },
    /// A copy instruction was asked to copy more than `MAX_COPY_BYTES`.
    InvalidCopySize { size: u32 },
    /// A change starts before the position that earlier changes have
    /// already covered.
    InvalidProcessedRange { start: u32, end: u32 },
    /// The changes cover more of the base object than it holds.
    ProcessedBeyondBase { processed_till: u32, base_len: u32 },
    /// An object is too large to be diffed or addressed by a delta.
    ObjectTooLarge { len: usize },
}

/// One step in rebuilding a new object from a base object.
#[derive(Clone, Hash, Eq, PartialEq)]
pub enum DeltaInstruction {
    /// Emit these bytes, taken from the new object.
    Data(Bytes),
    /// Emit `size` bytes of the base object, starting at `base_offset`.
    Copy { base_offset: u32, size: u32 },
}

/// What an instruction says, as a mathematical value.
pub enum Instruction {
    Data(Seq<u8>),
    Copy { base_offset: u32, size: u32 },
}

impl View for DeltaInstruction {
    type V = Instruction;

    open spec fn view(&self) -> Instruction {
        match self {
            DeltaInstruction::Data(bytes) => Instruction::Data(bytes_view(*bytes)),
            DeltaInstruction::Copy { base_offset, size } => Instruction::Copy {
                base_offset: *base_offset,
                size: *size,
            },
        }
    }
}

/// The byte `index` of `value`, counted from the least significant.
pub open spec fn le_byte(value: u32, index: nat) -> u8 {
    if index == 0 {
        (value % 256) as u8
    } else if index == 1 {
        (value / 0x100 % 256) as u8
    } else if index == 2 {
        (value / 0x1_0000 % 256) as u8
    } else {
        (value / 0x100_0000 % 256) as u8
    }
}

/// The byte itself where it is not zero, and nothing where it is.
#[verifier::opaque]
pub open spec fn unless_zero(byte: u8) -> Seq<u8> {
    if byte == 0 {
        Seq::empty()
    } else {
        seq![byte]
    }
}

/// `bit` where the byte is not zero, 0 where it is.
pub open spec fn flag(byte: u8, bit: int) -> int {
    if byte == 0 {
        0
    } else {
        bit
    }
}

/// The size as it is written: `COPY_SPECIAL_SIZE` is written as 0.
pub open spec fn written_size(size: u32) -> u32 {
    if size == COPY_SPECIAL_SIZE {
        0
    } else {
        size
    }
}

/// The first byte of an encoded copy instruction: the high bit, then one bit
/// for each offset byte and size byte that follows.
pub open spec fn command_byte(base_offset: u32, size: u32) -> u8 {
    let s = written_size(size);
    (128 + flag(le_byte(base_offset, 0), 1) + flag(le_byte(base_offset, 1), 2) + flag(
        le_byte(base_offset, 2),
        4,
    ) + flag(le_byte(base_offset, 3), 8) + flag(le_byte(s, 0), 16) + flag(le_byte(s, 1), 32)
        + flag(le_byte(s, 2), 64)) as u8
}

/// The offset bytes of an encoded copy instruction.
pub open spec fn offset_bytes(base_offset: u32) -> Seq<u8> {
    unless_zero(le_byte(base_offset, 0)) + unless_zero(le_byte(base_offset, 1)) + unless_zero(
        le_byte(base_offset, 2),
    ) + unless_zero(le_byte(base_offset, 3))
}

/// The size bytes of an encoded copy instruction.
pub open spec fn size_bytes(size: u32) -> Seq<u8> {
    let s = written_size(size);
    unless_zero(le_byte(s, 0)) + unless_zero(le_byte(s, 1)) + unless_zero(le_byte(s, 2))
}

impl Instruction {
    /// The construction invariant: data of 1 to 127 bytes, a copy of 1 to
    /// `MAX_COPY_BYTES` bytes.
    pub open spec fn wf(self) -> bool {
        match self {
            Instruction::Data(bytes) => 1 <= bytes.len() <= MAX_DATA_BYTES,
            Instruction::Copy { base_offset, size } => 1 <= size <= MAX_COPY_BYTES,
        }
    }

    /// Whether the instruction reads only bytes that a base object of
    /// `base_len` bytes has.
    pub open spec fn within(self, base_len: nat) -> bool {
        match self {
            Instruction::Data(bytes) => true,
            Instruction::Copy { base_offset, size } => base_offset + size <= base_len,
        }
    }

    /// The bytes that the instruction emits when it is applied to `base`.
    pub open spec fn output(self, base: Seq<u8>) -> Seq<u8> {
        match self {
            Instruction::Data(bytes) => bytes,
            Instruction::Copy { base_offset, size } => base.subrange(
                base_offset as int,
                base_offset + size,
            ),
        }
    }

    /// The bytes that encode the instruction.
    pub open spec fn encoding(self) -> Seq<u8> {
        match self {
            Instruction::Data(bytes) => seq![bytes.len() as u8] + bytes,
            Instruction::Copy { base_offset, size } => seq![command_byte(base_offset, size)]
                + offset_bytes(base_offset) + size_bytes(size),
        }
    }
}

impl DeltaInstruction {
    /// A data instruction that carries `data`, which has to hold 1 to
    /// `MAX_DATA_BYTES` bytes.
    pub fn from_data(data: Bytes) -> (r: Result<Self, DeltaError>)
        ensures
            1 <= bytes_view(data).len() <= MAX_DATA_BYTES ==> r == Ok::<Self, DeltaError>(
                DeltaInstruction::Data(data),
            ),
            !(1 <= bytes_view(data).len() <= MAX_DATA_BYTES) ==> r == Err::<Self, DeltaError>(
                DeltaError::InvalidDataSize { len: bytes_view(data).len() as usize },
            ),
            r is Ok ==> r.unwrap()@.wf(),
    {
        let len: usize = data.len();
        if len == 0 || len > MAX_DATA_BYTES {
            return Err(DeltaError::InvalidDataSize { len });
        }
        Ok(DeltaInstruction::Data(data))
    }

    /// A copy instruction for the bytes of the base object in `byte_range`,
    /// which has to hold 1 to `MAX_COPY_BYTES` positions.
    pub fn from_copy(byte_range: Range<u32>) -> (r: Result<Self, DeltaError>)
        ensures
            byte_range.start >= byte_range.end ==> r == Err::<Self, DeltaError>(
                DeltaError::EmptyCopyRange { start: byte_range.start, end: byte_range.end },
            ),
            byte_range.start < byte_range.end && byte_range.end - byte_range.start
                > MAX_COPY_BYTES ==> r == Err::<Self, DeltaError>(
                DeltaError::InvalidCopySize { size: (byte_range.end - byte_range.start) as u32 },
            ),
            byte_range.start < byte_range.end && byte_range.end - byte_range.start
                <= MAX_COPY_BYTES ==> r == Ok::<Self, DeltaError>(
                DeltaInstruction::Copy {
                    base_offset: byte_range.start,
                    size: (byte_range.end - byte_range.start) as u32,
                },
            ),
            r is Ok ==> r.unwrap()@.wf(),
    {
        if byte_range.start >= byte_range.end {
            return Err(
                DeltaError::EmptyCopyRange { start: byte_range.start, end: byte_range.end },
            );
        }
        let size: u32 = byte_range.end - byte_range.start;
        if size > MAX_COPY_BYTES {
            return Err(DeltaError::InvalidCopySize { size });
        }
        Ok(DeltaInstruction::Copy { base_offset: byte_range.start, size })
    }

    /// Whether the instruction satisfies the construction invariant.
    pub fn is_valid(&self) -> (valid: bool)
        ensures
            valid == self@.wf(),
    {
        match self {
            DeltaInstruction::Data(bytes) => 1 <= bytes.len() && bytes.len() <= MAX_DATA_BYTES,
            DeltaInstruction::Copy { base_offset, size } => 1 <= *size && *size <= MAX_COPY_BYTES,
        }
    }

    /// Appends the encoding of the instruction to `out`.
    pub fn write(&self, out: &mut Vec<u8>)
        requires
            self@.wf(),
        ensures
            final(out)@ == old(out)@ + self@.encoding(),
    {
        match self {
            DeltaInstruction::Data(bytes) => {
                let length: u8 = bytes.len() as u8;
                out.push(length);
                out.extend_from_slice(as_slice(bytes));
                assert(out@ =~= old(out)@ + self@.encoding());
            },
            DeltaInstruction::Copy { base_offset, size } => {
                let written: u32 = if *size == COPY_SPECIAL_SIZE {
                    0
                } else {
                    *size
                };
                let o0: u8 = (*base_offset % 256) as u8;
                let o1: u8 = (*base_offset / 0x100 % 256) as u8;
                let o2: u8 = (*base_offset / 0x1_0000 % 256) as u8;
                let o3: u8 = (*base_offset / 0x100_0000 % 256) as u8;
                let s0: u8 = (written % 256) as u8;
                let s1: u8 = (written / 0x100 % 256) as u8;
                let s2: u8 = (written / 0x1_0000 % 256) as u8;
                let command: u8 = 128 + flag_bit(o0, 1) + flag_bit(o1, 2) + flag_bit(o2, 4)
                    + flag_bit(o3, 8) + flag_bit(s0, 16) + flag_bit(s1, 32) + flag_bit(s2, 64);
                let mut offsets: Vec<u8> = Vec::new();
                push_unless_zero(&mut offsets, o0);
                assert(offsets@ =~= unless_zero(o0));
                push_unless_zero(&mut offsets, o1);
                push_unless_zero(&mut offsets, o2);
                push_unless_zero(&mut offsets, o3);
                let mut sizes: Vec<u8> = Vec::new();
                push_unless_zero(&mut sizes, s0);
                assert(sizes@ =~= unless_zero(s0));
                push_unless_zero(&mut sizes, s1);
                push_unless_zero(&mut sizes, s2);
                assert(offsets@ == offset_bytes(*base_offset));
                assert(sizes@ == size_bytes(*size));
                out.push(command);
                out.append(&mut offsets);
                out.append(&mut sizes);
                assert(out@ =~= old(out)@ + (seq![command] + offset_bytes(*base_offset)
                    + size_bytes(*size)));
            },
        }
    }
}

/// `bit` where `byte` is not zero, 0 where it is.
fn flag_bit(byte: u8, bit: u8) -> (set: u8)
    ensures
        set == flag(byte, bit as int),
{
    if byte != 0 {
        bit
    } else {
        0
    }
}

/// Appends `byte` to `buffer` unless it is zero.
fn push_unless_zero(buffer: &mut Vec<u8>, byte: u8)
    ensures
        final(buffer)@ == old(buffer)@ + unless_zero(byte),
{
    if byte != 0 {
        buffer.push(byte);
    }
    proof {
        reveal(unless_zero);
    }
    assert(buffer@ =~= old(buffer)@ + unless_zero(byte));
}

} // verus!
