//! Reading an encoded instruction stream back, and applying it to a base
//! object.

use super::instruction::{
    command_byte, flag, le_byte, unless_zero, written_size, Instruction, COPY_SPECIAL_SIZE, MAX_COPY_BYTES,
};
use vstd::prelude::*;
use vstd::slice::slice_subrange;

verus! {

/// Whether `command` has the flag `bit`, a power of two, set.
pub open spec fn has_bit(command: u8, bit: int) -> bool {
    (command as int / bit) % 2 == 1
}

/// The value of an optional field byte expected at `at`: the byte there
/// where the field is present, 0 where it is absent.
#[verifier::opaque]
pub open spec fn field_byte(bytes: Seq<u8>, at: int, present: bool) -> int {
    if present && 0 <= at < bytes.len() {
        bytes[at] as int
    } else {
        0
    }
}

/// The position after an optional field byte at `at`.
#[verifier::opaque]
pub open spec fn after_field(at: int, present: bool) -> int {
    if present {
        at + 1
    } else {
        at
    }
}

/// A decoded copy size: an absent size stands for `COPY_SPECIAL_SIZE`.
pub open spec fn read_size_field(size: int) -> int {
    if size == 0 {
        COPY_SPECIAL_SIZE as int
    } else {
        size
    }
}

/// The copy instruction at the front of `bytes`, whose first byte is a
/// command byte, and the number of bytes it occupies.
#[verifier::opaque]
pub open spec fn decode_copy(bytes: Seq<u8>) -> Option<(Instruction, nat)> {
    let c = bytes[0];
    let p1 = after_field(1, has_bit(c, 1));
    let p2 = after_field(p1, has_bit(c, 2));
    let p3 = after_field(p2, has_bit(c, 4));
    let p4 = after_field(p3, has_bit(c, 8));
    let p5 = after_field(p4, has_bit(c, 16));
    let p6 = after_field(p5, has_bit(c, 32));
    let p7 = after_field(p6, has_bit(c, 64));
    let offset = field_byte(bytes, 1, has_bit(c, 1)) + 0x100 * field_byte(
        bytes,
        p1,
        has_bit(c, 2),
    ) + 0x1_0000 * field_byte(bytes, p2, has_bit(c, 4)) + 0x100_0000 * field_byte(
        bytes,
        p3,
        has_bit(c, 8),
    );
    let size = field_byte(bytes, p4, has_bit(c, 16)) + 0x100 * field_byte(
        bytes,
        p5,
        has_bit(c, 32),
    ) + 0x1_0000 * field_byte(bytes, p6, has_bit(c, 64));
    if p7 > bytes.len() {
        None
    } else {
        Some(
            (
                Instruction::Copy {
                    base_offset: offset as u32,
                    size: read_size_field(size) as u32,
                },
                p7 as nat,
            ),
        )
    }
}

/// The instruction at the front of `bytes` and the number of bytes it
/// occupies, or `None` where the front of `bytes` is no whole instruction.
pub open spec fn decode_instruction(bytes: Seq<u8>) -> Option<(Instruction, nat)> {
    if bytes.len() == 0 {
        None
    } else if bytes[0] >= 128 {
        decode_copy(bytes)
    } else if bytes[0] == 0 || 1 + bytes[0] > bytes.len() {
        None
    } else {
        Some((Instruction::Data(bytes.subrange(1, 1 + bytes[0])), (1 + bytes[0]) as nat))
    }
}

/// The instructions that `bytes` encodes, or `None` where `bytes` is not a
/// sequence of whole instructions.
pub open spec fn decode_program(bytes: Seq<u8>) -> Option<Seq<Instruction>>
    decreases bytes.len(),
{
    if bytes.len() == 0 {
        Some(Seq::empty())
    } else {
        match decode_instruction(bytes) {
            Some((first, used)) => if 0 < used <= bytes.len() {
                match decode_program(bytes.skip(used as int)) {
                    Some(rest) => Some(seq![first] + rest),
                    None => None,
                }
            } else {
                None
            },
            None => None,
        }
    }
}

/// The encodings of the instructions of `program`, one after the other.
pub open spec fn encode_program(program: Seq<Instruction>) -> Seq<u8>
    decreases program.len(),
{
    if program.len() == 0 {
        Seq::empty()
    } else {
        encode_program(program.drop_last()) + program.last().encoding()
    }
}

/// The bytes that the instructions of `program` emit, one after the other,
/// when they are applied to `base`.
pub open spec fn outputs(base: Seq<u8>, program: Seq<Instruction>) -> Seq<u8>
    decreases program.len(),
{
    if program.len() == 0 {
        Seq::empty()
    } else {
        outputs(base, program.drop_last()) + program.last().output(base)
    }
}

/// Whether every instruction of `program` satisfies the construction
/// invariant.
pub open spec fn all_wf(program: Seq<Instruction>) -> bool {
    forall|i: int| 0 <= i < program.len() ==> (#[trigger] program[i]).wf()
}

/// Whether every instruction of `program` reads only bytes that a base
/// object of `base_len` bytes has.
pub open spec fn all_within(program: Seq<Instruction>, base_len: nat) -> bool {
    forall|i: int| 0 <= i < program.len() ==> (#[trigger] program[i]).within(base_len)
}

/// The object that the encoded instruction stream `delta` rebuilds from
/// `base`, or `None` where `delta` is not a sequence of whole instructions or
/// one of them reads past the end of `base`.
pub open spec fn apply_delta(base: Seq<u8>, delta: Seq<u8>) -> Option<Seq<u8>> {
    match decode_program(delta) {
        Some(program) => if all_within(program, base.len()) {
            Some(outputs(base, program))
        } else {
            None
        },
        None => None,
    }
}

/// The command byte of a copy instruction has the high bit set, and a flag
/// bit set exactly where the byte it announces is not zero.
pub proof fn lemma_command_bits(base_offset: u32, size: u32)
    ensures
        command_byte(base_offset, size) >= 128,
        has_bit(command_byte(base_offset, size), 1) == (le_byte(base_offset, 0) != 0),
        has_bit(command_byte(base_offset, size), 2) == (le_byte(base_offset, 1) != 0),
        has_bit(command_byte(base_offset, size), 4) == (le_byte(base_offset, 2) != 0),
        has_bit(command_byte(base_offset, size), 8) == (le_byte(base_offset, 3) != 0),
        has_bit(command_byte(base_offset, size), 16) == (le_byte(written_size(size), 0) != 0),
        has_bit(command_byte(base_offset, size), 32) == (le_byte(written_size(size), 1) != 0),
        has_bit(command_byte(base_offset, size), 64) == (le_byte(written_size(size), 2) != 0),
{
    let s = written_size(size);
    let f0 = flag(le_byte(base_offset, 0), 1) as u8;
    let f1 = flag(le_byte(base_offset, 1), 2) as u8;
    let f2 = flag(le_byte(base_offset, 2), 4) as u8;
    let f3 = flag(le_byte(base_offset, 3), 8) as u8;
    let f4 = flag(le_byte(s, 0), 16) as u8;
    let f5 = flag(le_byte(s, 1), 32) as u8;
    let f6 = flag(le_byte(s, 2), 64) as u8;
    lemma_flag_sum(f0, f1, f2, f3, f4, f5, f6);
}

/// Reading an optional field byte that was written with `unless_zero`.
proof fn lemma_read_field(before: Seq<u8>, byte: u8, after: Seq<u8>, present: bool)
    requires
        present == (byte != 0),
    ensures
        field_byte(before + unless_zero(byte) + after, before.len() as int, present) == byte,
        after_field(before.len() as int, present) == (before + unless_zero(byte)).len(),
{
    reveal(unless_zero);
    reveal(field_byte);
    reveal(after_field);
}

/// The four bytes of a value put it together again.
proof fn lemma_le_bytes(value: u32)
    ensures
        le_byte(value, 0) + 0x100 * le_byte(value, 1) + 0x1_0000 * le_byte(value, 2) + 0x100_0000
            * le_byte(value, 3) == value,
        value <= MAX_COPY_BYTES ==> le_byte(value, 3) == 0,
{
}

/// The encoding of the copy instruction with these fields.
spec fn copy_encoding(base_offset: u32, size: u32) -> Seq<u8> {
    (Instruction::Copy { base_offset, size }).encoding()
}

/// Sequence concatenation associates.
proof fn lemma_concat_assoc(a: Seq<u8>, b: Seq<u8>, c: Seq<u8>)
    ensures
        (a + b) + c == a + (b + c),
{
    assert((a + b) + c =~= a + (b + c));
}

/// The parts of an encoded copy instruction that precede each of its
/// optional bytes, from the command byte on.
spec fn copy_prefix(base_offset: u32, size: u32, fields: nat) -> Seq<u8>
    decreases fields,
{
    if fields == 0 {
        seq![command_byte(base_offset, size)]
    } else {
        copy_prefix(base_offset, size, (fields - 1) as nat) + copy_field(
            base_offset,
            size,
            (fields - 1) as nat,
        )
    }
}

/// The optional byte `index` of an encoded copy instruction: four offset
/// bytes, then three size bytes.
spec fn copy_field_byte(base_offset: u32, size: u32, index: nat) -> u8 {
    if index < 4 {
        le_byte(base_offset, index)
    } else {
        le_byte(written_size(size), (index - 4) as nat)
    }
}

spec fn copy_field(base_offset: u32, size: u32, index: nat) -> Seq<u8> {
    unless_zero(copy_field_byte(base_offset, size, index))
}

/// What follows the optional byte `index` in an encoded copy instruction
/// that `rest` follows.
spec fn copy_suffix(base_offset: u32, size: u32, rest: Seq<u8>, index: nat) -> Seq<u8>
    decreases 7 - index,
{
    if index >= 6 {
        rest
    } else {
        copy_field(base_offset, size, index + 1) + copy_suffix(
            base_offset,
            size,
            rest,
            index + 1,
        )
    }
}

/// An encoded copy instruction, followed by `rest`, splits at each of its
/// optional bytes into what precedes the byte, the byte, and what follows.
proof fn lemma_copy_layout(base_offset: u32, size: u32, rest: Seq<u8>, index: nat)
    requires
        index <= 6,
    ensures
        copy_encoding(base_offset, size) + rest == copy_prefix(
            base_offset,
            size,
            index,
        ) + copy_field(base_offset, size, index) + copy_suffix(base_offset, size, rest, index),
        copy_encoding(base_offset, size) == copy_prefix(base_offset, size, 7),
    decreases 6 - index,
{
    let x = Instruction::Copy { base_offset, size };
    if index == 6 {
        reveal_with_fuel(copy_prefix, 8);
        assert(x.encoding() =~= copy_prefix(base_offset, size, 7));
    } else {
        lemma_copy_layout(base_offset, size, rest, index + 1);
        lemma_concat_assoc(
            copy_prefix(base_offset, size, index) + copy_field(base_offset, size, index),
            copy_field(base_offset, size, index + 1),
            copy_suffix(base_offset, size, rest, index + 1),
        );
    }
}

/// One step of reading an encoded copy instruction back: the optional byte
/// `index` is read as it was written, and reading goes on behind it.
proof fn lemma_copy_field(base_offset: u32, size: u32, rest: Seq<u8>, index: nat, present: bool)
    requires
        index <= 6,
        present == (copy_field_byte(base_offset, size, index) != 0),
    ensures
        field_byte(
            copy_encoding(base_offset, size) + rest,
            copy_prefix(base_offset, size, index).len() as int,
            present,
        ) == copy_field_byte(base_offset, size, index),
        after_field(copy_prefix(base_offset, size, index).len() as int, present) == copy_prefix(
            base_offset,
            size,
            index + 1,
        ).len(),
{
    lemma_copy_layout(base_offset, size, rest, index);
    lemma_read_field(
        copy_prefix(base_offset, size, index),
        copy_field_byte(base_offset, size, index),
        copy_suffix(base_offset, size, rest, index),
        present,
    );
}

/// Decoding the encoding of a copy instruction, whatever follows it, gives
/// the instruction back and consumes exactly the encoding.
proof fn lemma_copy_round_trip(base_offset: u32, size: u32, rest: Seq<u8>)
    requires
        1 <= size <= MAX_COPY_BYTES,
    ensures
        decode_instruction(copy_encoding(base_offset, size) + rest) == Some(
            (
                Instruction::Copy { base_offset, size },
                copy_encoding(base_offset, size).len(),
            ),
        ),
{
    let x = Instruction::Copy { base_offset, size };
    let c = command_byte(base_offset, size);
    let s = written_size(size);
    let all = x.encoding() + rest;
    reveal(decode_copy);
    lemma_command_bits(base_offset, size);
    lemma_le_bytes(base_offset);
    lemma_le_bytes(s);
    lemma_copy_field(base_offset, size, rest, 0, has_bit(c, 1));
    lemma_copy_field(base_offset, size, rest, 1, has_bit(c, 2));
    lemma_copy_field(base_offset, size, rest, 2, has_bit(c, 4));
    lemma_copy_field(base_offset, size, rest, 3, has_bit(c, 8));
    lemma_copy_field(base_offset, size, rest, 4, has_bit(c, 16));
    lemma_copy_field(base_offset, size, rest, 5, has_bit(c, 32));
    lemma_copy_field(base_offset, size, rest, 6, has_bit(c, 64));
    lemma_copy_layout(base_offset, size, rest, 6);
    assert(all[0] == c);
    assert(copy_prefix(base_offset, size, 0).len() == 1);
    assert(copy_prefix(base_offset, size, 7).len() <= all.len());
    assert(read_size_field(s as int) == size);
}

/// Decoding the encoding of an instruction, whatever follows it, gives the
/// instruction back and consumes exactly the encoding.
pub proof fn lemma_instruction_round_trip(instruction: Instruction, rest: Seq<u8>)
    requires
        instruction.wf(),
    ensures
        decode_instruction(instruction.encoding() + rest) == Some(
            (instruction, instruction.encoding().len()),
        ),
        instruction.encoding().len() >= 1,
{
    match instruction {
        Instruction::Data(bytes) => {
            let all = instruction.encoding() + rest;
            assert(all[0] == bytes.len());
            assert(all.subrange(1, 1 + bytes.len() as int) =~= bytes);
        },
        Instruction::Copy { base_offset, size } => {
            lemma_copy_round_trip(base_offset, size, rest);
        },
    }
}

/// The encoding of a program starts with the encoding of its first
/// instruction.
pub proof fn lemma_encode_prepend(first: Instruction, rest: Seq<Instruction>)
    ensures
        encode_program(seq![first] + rest) == first.encoding() + encode_program(rest),
    decreases rest.len(),
{
    let whole = seq![first] + rest;
    if rest.len() == 0 {
        assert(whole.drop_last() =~= Seq::<Instruction>::empty());
        assert(whole.last() == first);
        assert(encode_program(whole.drop_last()) =~= Seq::<u8>::empty());
        assert(encode_program(rest) =~= Seq::<u8>::empty());
        assert(encode_program(whole) =~= first.encoding());
        assert(first.encoding() + encode_program(rest) =~= first.encoding());
    } else {
        lemma_encode_prepend(first, rest.drop_last());
        assert(whole.drop_last() =~= seq![first] + rest.drop_last());
        assert(whole.last() == rest.last());
        assert(encode_program(whole) =~= first.encoding() + encode_program(rest));
    }
}

/// Decoding the encoding of a program gives the program back.
pub proof fn lemma_program_round_trip(program: Seq<Instruction>)
    requires
        all_wf(program),
    ensures
        decode_program(encode_program(program)) == Some(program),
    decreases program.len(),
{
    if program.len() == 0 {
    } else {
        let first = program[0];
        let rest = program.skip(1);
        assert(program =~= seq![first] + rest);
        assert(first.wf());
        assert(all_wf(rest)) by {
            assert forall|i: int| 0 <= i < rest.len() implies (#[trigger] rest[i]).wf() by {
                assert(rest[i] == program[i + 1]);
            }
        }
        lemma_encode_prepend(first, rest);
        lemma_instruction_round_trip(first, encode_program(rest));
        lemma_program_round_trip(rest);
        let bytes = encode_program(program);
        let used = first.encoding().len();
        assert(bytes.skip(used as int) =~= encode_program(rest));
    }
}

/// Applying the encoding of a program whose instructions satisfy the
/// construction invariant and stay within the base object emits what its
/// instructions emit.
pub proof fn lemma_apply_encoded(base: Seq<u8>, program: Seq<Instruction>)
    requires
        all_wf(program),
        all_within(program, base.len()),
    ensures
        apply_delta(base, encode_program(program)) == Some(outputs(base, program)),
{
    lemma_program_round_trip(program);
}

/// The position after an optional field byte is the position of the byte, or
/// the one behind it.
proof fn lemma_after_field_bounds(at: int, present: bool)
    ensures
        at <= after_field(at, present) <= at + 1,
        present ==> after_field(at, present) == at + 1,
{
    reveal(after_field);
}

/// Whether `command` has the flag `bit` set.
fn flag_set(command: u8, bit: u8) -> (set: bool)
    requires
        bit > 0,
    ensures
        set == has_bit(command, bit as int),
{
    (command / bit) % 2 == 1
}

/// Reads the optional field byte of the instruction that starts at `start`,
/// expected at `at`. Returns its value and the position behind it, or `None`
/// where the byte is announced and `data` ends before it.
fn take_field(data: &[u8], start: usize, at: usize, present: bool) -> (r: Option<(u8, usize)>)
    requires
        start <= at <= data@.len(),
    ensures
        match r {
            Some((byte, next)) => {
                &&& byte == field_byte(data@.skip(start as int), at - start, present)
                &&& next - start == after_field(at - start, present)
                &&& at <= next <= data@.len()
            },
            None => present && at == data@.len(),
        },
{
    proof {
        reveal(field_byte);
        reveal(after_field);
    }
    if !present {
        Some((0, at))
    } else if at < data.len() {
        Some((data[at], at + 1))
    } else {
        None
    }
}

/// The fields of the copy instruction at `start`, where a command byte
/// stands, and the position behind the instruction.
fn read_copy(data: &[u8], start: usize) -> (r: Option<(u32, u32, usize)>)
    requires
        start < data@.len(),
    ensures
        match decode_copy(data@.skip(start as int)) {
            Some((instruction, used)) => r matches Some((base_offset, size, next)) && instruction
                == (Instruction::Copy { base_offset, size }) && next == start + used,
            None => r.is_none(),
        },
        r matches Some((_, _, next)) ==> start < next <= data@.len(),
{
    let ghost bytes = data@.skip(start as int);
    let command: u8 = data[start];
    proof {
        reveal(decode_copy);
    }
    let ghost p1 = after_field(1, has_bit(command, 1));
    let ghost p2 = after_field(p1, has_bit(command, 2));
    let ghost p3 = after_field(p2, has_bit(command, 4));
    let ghost p4 = after_field(p3, has_bit(command, 8));
    let ghost p5 = after_field(p4, has_bit(command, 16));
    let ghost p6 = after_field(p5, has_bit(command, 32));
    let ghost p7 = after_field(p6, has_bit(command, 64));
    proof {
        assert(bytes[0] == command);
        lemma_after_field_bounds(1, has_bit(command, 1));
        lemma_after_field_bounds(p1, has_bit(command, 2));
        lemma_after_field_bounds(p2, has_bit(command, 4));
        lemma_after_field_bounds(p3, has_bit(command, 8));
        lemma_after_field_bounds(p4, has_bit(command, 16));
        lemma_after_field_bounds(p5, has_bit(command, 32));
        lemma_after_field_bounds(p6, has_bit(command, 64));
    }
    let (o0, at) = match take_field(data, start, start + 1, flag_set(command, 1)) {
        Some(field) => field,
        None => { return None; },
    };
    let (o1, at) = match take_field(data, start, at, flag_set(command, 2)) {
        Some(field) => field,
        None => { return None; },
    };
    let (o2, at) = match take_field(data, start, at, flag_set(command, 4)) {
        Some(field) => field,
        None => { return None; },
    };
    let (o3, at) = match take_field(data, start, at, flag_set(command, 8)) {
        Some(field) => field,
        None => { return None; },
    };
    let (s0, at) = match take_field(data, start, at, flag_set(command, 16)) {
        Some(field) => field,
        None => { return None; },
    };
    let (s1, at) = match take_field(data, start, at, flag_set(command, 32)) {
        Some(field) => field,
        None => { return None; },
    };
    let (s2, at) = match take_field(data, start, at, flag_set(command, 64)) {
        Some(field) => field,
        None => { return None; },
    };
    let base_offset: u32 = o0 as u32 + 0x100 * (o1 as u32) + 0x1_0000 * (o2 as u32) + 0x100_0000
        * (o3 as u32);
    let written: u32 = s0 as u32 + 0x100 * (s1 as u32) + 0x1_0000 * (s2 as u32);
    let size: u32 = if written == 0 {
        COPY_SPECIAL_SIZE
    } else {
        written
    };
    Some((base_offset, size, at))
}

/// What a stream decodes to, given the instructions `done` at its front and
/// what the rest of it decodes to.
spec fn continued(done: Seq<Instruction>, rest: Option<Seq<Instruction>>) -> Option<
    Seq<Instruction>,
> {
    match rest {
        Some(program) => Some(done + program),
        None => None,
    }
}

/// Rebuilds an object from `base` by the encoded instruction stream `delta`.
/// The result is `None` where `delta` is not a sequence of whole
/// instructions, or where one of them reads past the end of `base`.
pub fn apply(base: &[u8], delta: &[u8]) -> (r: Option<Vec<u8>>)
    ensures
        match apply_delta(base@, delta@) {
            Some(object) => r matches Some(rebuilt) && rebuilt@ == object,
            None => r.is_none(),
        },
{
    let mut target: Vec<u8> = Vec::new();
    let mut i: usize = 0;
    let ghost mut done: Seq<Instruction> = Seq::empty();
    proof {
        assert(delta@.skip(0) =~= delta@);
        assert(continued(done, decode_program(delta@)) == decode_program(delta@)) by {
            if decode_program(delta@).is_some() {
                assert(done + decode_program(delta@).unwrap() =~= decode_program(
                    delta@,
                ).unwrap());
            }
        }
    }
    while i < delta.len()
        invariant
            i <= delta@.len(),
            target@ == outputs(base@, done),
            all_within(done, base@.len()),
            decode_program(delta@) == continued(done, decode_program(delta@.skip(i as int))),
        decreases delta@.len() - i,
    {
        let ghost tail = delta@.skip(i as int);
        let command: u8 = delta[i];
        proof {
            assert(tail[0] == command);
        }
        let ghost instruction: Instruction;
        let next: usize;
        if command >= 128 {
            match read_copy(delta, i) {
                None => {
                    return None;
                },
                Some((base_offset, size, behind)) => {
                    proof {
                        instruction = Instruction::Copy { base_offset, size };
                    }
                    if base_offset as u64 + size as u64 > base.len() as u64 {
                        proof {
                            lemma_not_within(done, instruction, decode_program(
                                tail.skip(behind - i),
                            ), base@.len());
                        }
                        return None;
                    }
                    let from: usize = base_offset as usize;
                    let to: usize = (base_offset as u64 + size as u64) as usize;
                    target.extend_from_slice(slice_subrange(base, from, to));
                    next = behind;
                },
            }
        } else if command == 0 {
            return None;
        } else {
            let size: usize = command as usize;
            if size > delta.len() - (i + 1) {
                return None;
            }
            proof {
                instruction = Instruction::Data(tail.subrange(1, 1 + size));
                assert(tail.subrange(1, 1 + size) =~= delta@.subrange(i + 1, i + 1 + size));
            }
            target.extend_from_slice(slice_subrange(delta, i + 1, i + 1 + size));
            next = i + 1 + size;
        }
        proof {
            assert(decode_instruction(tail) == Some((instruction, (next - i) as nat)));
            assert(tail.skip(next - i) =~= delta@.skip(next as int));
            let longer = done.push(instruction);
            assert(longer.drop_last() =~= done);
            assert(target@ == outputs(base@, longer));
            let rest = decode_program(delta@.skip(next as int));
            if rest.is_some() {
                assert(done + (seq![instruction] + rest.unwrap()) =~= longer + rest.unwrap());
            }
            done = longer;
        }
        i = next;
    }
    proof {
        assert(done + Seq::<Instruction>::empty() =~= done);
    }
    Some(target)
}

/// A program that continues `done` with an instruction that reads past the
/// end of the base object does not stay within it.
proof fn lemma_not_within(
    done: Seq<Instruction>,
    instruction: Instruction,
    rest: Option<Seq<Instruction>>,
    base_len: nat,
)
    requires
        !instruction.within(base_len),
    ensures
        rest.is_some() ==> !all_within(done + (seq![instruction] + rest.unwrap()), base_len),
{
    if rest.is_some() {
        let program = done + (seq![instruction] + rest.unwrap());
        assert(program[done.len() as int] == instruction);
    }
}

/// In a sum of distinct powers of two each power can be read back.
proof fn lemma_flag_sum(f0: u8, f1: u8, f2: u8, f3: u8, f4: u8, f5: u8, f6: u8)
    by (bit_vector)
    requires
        f0 == 0 || f0 == 1,
        f1 == 0 || f1 == 2,
        f2 == 0 || f2 == 4,
        f3 == 0 || f3 == 8,
        f4 == 0 || f4 == 16,
        f5 == 0 || f5 == 32,
        f6 == 0 || f6 == 64,
    ensures
        128 <= 128 + f0 + f1 + f2 + f3 + f4 + f5 + f6 < 256,
        ((128 + f0 + f1 + f2 + f3 + f4 + f5 + f6) / 1) % 2 == 1 <==> f0 != 0,
        ((128 + f0 + f1 + f2 + f3 + f4 + f5 + f6) / 2) % 2 == 1 <==> f1 != 0,
        ((128 + f0 + f1 + f2 + f3 + f4 + f5 + f6) / 4) % 2 == 1 <==> f2 != 0,
        ((128 + f0 + f1 + f2 + f3 + f4 + f5 + f6) / 8) % 2 == 1 <==> f3 != 0,
        ((128 + f0 + f1 + f2 + f3 + f4 + f5 + f6) / 16) % 2 == 1 <==> f4 != 0,
        ((128 + f0 + f1 + f2 + f3 + f4 + f5 + f6) / 32) % 2 == 1 <==> f5 != 0,
        ((128 + f0 + f1 + f2 + f3 + f4 + f5 + f6) / 64) % 2 == 1 <==> f6 != 0,
{
}

} // verus!
