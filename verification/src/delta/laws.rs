//! What holds of every delta that is built from an edit script.

use super::decoder::{
    all_wf, all_within, apply_delta, encode_program, has_bit, lemma_apply_encoded,
    lemma_command_bits, outputs,
};
use super::diff_engine::{edits_from, is_edit_script, ChangeEvent};
use super::generator::{
    after_change, after_changes, copy_chunks, data_chunks, delta_of_changes, finished,
    initial_state, DeltaView,
};
use super::instruction::{
    command_byte, offset_bytes, size_bytes, unless_zero, DeltaError, Instruction, COPY_SPECIAL_SIZE, MAX_COPY_BYTES, MAX_DATA_BYTES,
};
use super::size_codec::{decode_size, encode_size, lemma_size_round_trip};
use vstd::prelude::*;

verus! {

/// What two programs emit one after the other is what their concatenation
/// emits.
pub proof fn lemma_outputs_concat(base: Seq<u8>, first: Seq<Instruction>, second: Seq<Instruction>)
    ensures
        outputs(base, first + second) == outputs(base, first) + outputs(base, second),
    decreases second.len(),
{
    if second.len() == 0 {
        assert(first + second =~= first);
        assert(outputs(base, first) + outputs(base, second) =~= outputs(base, first));
    } else {
        lemma_outputs_concat(base, first, second.drop_last());
        assert((first + second).drop_last() =~= first + second.drop_last());
        assert((first + second).last() == second.last());
        assert(outputs(base, first + second) =~= outputs(base, first) + outputs(base, second));
    }
}

/// What a single instruction emits.
proof fn lemma_outputs_single(base: Seq<u8>, instruction: Instruction)
    ensures
        outputs(base, seq![instruction]) == instruction.output(base),
{
    let program = seq![instruction];
    assert(program.drop_last() =~= Seq::<Instruction>::empty());
    assert(outputs(base, program.drop_last()) =~= Seq::<u8>::empty());
    assert(outputs(base, program) =~= instruction.output(base));
}

/// The copy instructions for a range of the base object satisfy the
/// construction invariant, stay within the base object and emit the bytes of
/// the range.
pub proof fn lemma_copy_chunks(base: Seq<u8>, from: int, to: int)
    requires
        0 <= from <= to <= base.len() <= u32::MAX,
    ensures
        all_wf(copy_chunks(from, to)),
        all_within(copy_chunks(from, to), base.len()),
        outputs(base, copy_chunks(from, to)) == base.subrange(from, to),
    decreases to - from,
{
    if from >= to {
        assert(outputs(base, copy_chunks(from, to)) =~= base.subrange(from, to));
    } else if to - from <= MAX_COPY_BYTES {
        let piece = Instruction::Copy { base_offset: from as u32, size: (to - from) as u32 };
        lemma_outputs_single(base, piece);
    } else {
        let piece = Instruction::Copy { base_offset: from as u32, size: MAX_COPY_BYTES };
        let rest = copy_chunks(from + MAX_COPY_BYTES, to);
        lemma_copy_chunks(base, from + MAX_COPY_BYTES, to);
        lemma_outputs_single(base, piece);
        lemma_outputs_concat(base, seq![piece], rest);
        assert(base.subrange(from, from + MAX_COPY_BYTES) + base.subrange(
            from + MAX_COPY_BYTES,
            to,
        ) =~= base.subrange(from, to));
    }
}

/// The data instructions for a range of the new object satisfy the
/// construction invariant, read nothing of the base object and emit the
/// bytes of the range.
pub proof fn lemma_data_chunks(base: Seq<u8>, new: Seq<u8>, from: int, to: int)
    requires
        0 <= from <= to <= new.len(),
    ensures
        all_wf(data_chunks(new, from, to)),
        all_within(data_chunks(new, from, to), base.len()),
        outputs(base, data_chunks(new, from, to)) == new.subrange(from, to),
    decreases to - from,
{
    if from >= to {
        assert(outputs(base, data_chunks(new, from, to)) =~= new.subrange(from, to));
    } else if to - from <= MAX_DATA_BYTES {
        let piece = Instruction::Data(new.subrange(from, to));
        lemma_outputs_single(base, piece);
    } else {
        let piece = Instruction::Data(new.subrange(from, from + MAX_DATA_BYTES));
        let rest = data_chunks(new, from + MAX_DATA_BYTES, to);
        lemma_data_chunks(base, new, from + MAX_DATA_BYTES, to);
        lemma_outputs_single(base, piece);
        lemma_outputs_concat(base, seq![piece], rest);
        assert(new.subrange(from, from + MAX_DATA_BYTES) + new.subrange(
            from + MAX_DATA_BYTES,
            to,
        ) =~= new.subrange(from, to));
    }
}

/// Recording changes one after the other is recording the first and then
/// the rest.
pub proof fn lemma_after_changes_front(
    state: Result<DeltaView, DeltaError>,
    first: ChangeEvent,
    rest: Seq<ChangeEvent>,
)
    ensures
        after_changes(state, seq![first] + rest) == after_changes(after_change(state, first), rest),
    decreases rest.len(),
{
    let whole = seq![first] + rest;
    if rest.len() == 0 {
        assert(whole.drop_last() =~= Seq::<ChangeEvent>::empty());
        assert(whole.last() == first);
        assert(after_changes(state, whole.drop_last()) == state);
    } else {
        lemma_after_changes_front(state, first, rest.drop_last());
        assert(whole.drop_last() =~= seq![first] + rest.drop_last());
        assert(whole.last() == rest.last());
    }
}

/// A delta under construction that has rebuilt the new object up to
/// `new_at` from the base object up to `base_at`.
pub open spec fn rebuilt_till(
    state: Result<DeltaView, DeltaError>,
    base: Seq<u8>,
    new: Seq<u8>,
    base_at: int,
    new_at: int,
) -> bool {
    &&& state is Ok
    &&& state.unwrap().base == base
    &&& state.unwrap().new == new
    &&& base.len() <= u32::MAX
    &&& new.len() <= u32::MAX
    &&& 0 <= new_at <= new.len()
    &&& state.unwrap().processed_till == base_at
    &&& all_wf(state.unwrap().instructions)
    &&& all_within(state.unwrap().instructions, base.len())
    &&& outputs(base, state.unwrap().instructions) == new.subrange(0, new_at)
}

/// Programs that satisfy the construction invariant and stay within the
/// base object still do so when they are joined.
proof fn lemma_join(first: Seq<Instruction>, second: Seq<Instruction>, base_len: nat)
    requires
        all_wf(first),
        all_wf(second),
        all_within(first, base_len),
        all_within(second, base_len),
    ensures
        all_wf(first + second),
        all_within(first + second, base_len),
{
    let whole = first + second;
    assert forall|i: int| 0 <= i < whole.len() implies (#[trigger] whole[i]).wf() && whole[i].within(
        base_len,
    ) by {
        if i < first.len() {
            assert(whole[i] == first[i]);
        } else {
            assert(whole[i] == second[i - first.len()]);
        }
    }
}

/// Finishing a delta that has recorded the changes of an edit script gives a
/// delta whose instructions satisfy the construction invariant, stay within
/// the base object and emit the new object.
pub proof fn lemma_edits_rebuild(
    state: Result<DeltaView, DeltaError>,
    changes: Seq<ChangeEvent>,
    base: Seq<u8>,
    new: Seq<u8>,
    base_at: int,
    new_at: int,
)
    requires
        rebuilt_till(state, base, new, base_at, new_at),
        edits_from(changes, base, new, base_at, new_at),
    ensures
        finished(after_changes(state, changes)) is Ok,
        rebuilt_till(
            finished(after_changes(state, changes)),
            base,
            new,
            base.len() as int,
            new.len() as int,
        ),
    decreases changes.len(),
{
    let delta = state.unwrap();
    if changes.len() == 0 {
        let tail = copy_chunks(base_at, base.len() as int);
        lemma_copy_chunks(base, base_at, base.len() as int);
        lemma_join(delta.instructions, tail, base.len());
        lemma_outputs_concat(base, delta.instructions, tail);
        assert(base.subrange(base_at, base.len() as int) =~= base.skip(base_at));
        assert(new.subrange(0, new_at) + new.skip(new_at) =~= new.subrange(0, new.len() as int));
    } else {
        let first = changes[0];
        let rest = changes.skip(1);
        let copies = copy_chunks(base_at, first.before_start as int);
        let data = data_chunks(new, first.after_start as int, first.after_end as int);
        let next = after_change(state, first);
        lemma_copy_chunks(base, base_at, first.before_start as int);
        lemma_data_chunks(base, new, first.after_start as int, first.after_end as int);
        lemma_join(delta.instructions, copies, base.len());
        lemma_join(delta.instructions + copies, data, base.len());
        lemma_outputs_concat(base, delta.instructions, copies);
        lemma_outputs_concat(base, delta.instructions + copies, data);
        assert(new.subrange(0, new_at) + new.subrange(new_at, first.after_start as int)
            + new.subrange(first.after_start as int, first.after_end as int) =~= new.subrange(
            0,
            first.after_end as int,
        ));
        assert(rebuilt_till(next, base, new, first.before_end as int, first.after_end as int));
        lemma_edits_rebuild(
            next,
            rest,
            base,
            new,
            first.before_end as int,
            first.after_end as int,
        );
        assert(changes =~= seq![first] + rest);
        lemma_after_changes_front(state, first, rest);
    }
}

/// Round trip: the delta that an edit script gives for two objects that
/// 32-bit positions can address is built without failure; its instructions
/// satisfy the construction invariant and copy only from within the base
/// object; and applying their encoding to the base object gives the new
/// object.
pub proof fn lemma_round_trip(base: Seq<u8>, new: Seq<u8>, changes: Seq<ChangeEvent>)
    requires
        base.len() <= u32::MAX,
        new.len() <= u32::MAX,
        is_edit_script(changes, base, new),
    ensures
        delta_of_changes(base, new, changes) is Ok,
        delta_of_changes(base, new, changes).unwrap().wf(),
        delta_of_changes(base, new, changes).unwrap().base == base,
        delta_of_changes(base, new, changes).unwrap().new == new,
        all_within(delta_of_changes(base, new, changes).unwrap().instructions, base.len()),
        outputs(base, delta_of_changes(base, new, changes).unwrap().instructions) == new,
        apply_delta(
            base,
            encode_program(delta_of_changes(base, new, changes).unwrap().instructions),
        ) == Some(new),
{
    let state = initial_state(base, new);
    assert(outputs(base, state.unwrap().instructions) =~= new.subrange(0, 0));
    lemma_edits_rebuild(state, changes, base, new, 0, 0);
    let delta = delta_of_changes(base, new, changes).unwrap();
    assert(new.subrange(0, new.len() as int) =~= new);
    lemma_apply_encoded(base, delta.instructions);
}

/// Every change of an edit script lies within the two objects.
pub proof fn lemma_edits_in_bounds(
    changes: Seq<ChangeEvent>,
    base: Seq<u8>,
    new: Seq<u8>,
    base_at: int,
    new_at: int,
)
    requires
        edits_from(changes, base, new, base_at, new_at),
    ensures
        forall|k: int|
            0 <= k < changes.len() ==> (#[trigger] changes[k]).after_start <= changes[k].after_end
                <= new.len() && changes[k].before_start <= changes[k].before_end <= base.len(),
    decreases changes.len(),
{
    if changes.len() > 0 {
        let first = changes[0];
        let rest = changes.skip(1);
        lemma_edits_in_bounds(rest, base, new, first.before_end as int, first.after_end as int);
        assert forall|k: int| 0 <= k < changes.len() implies (#[trigger] changes[k]).after_start
            <= changes[k].after_end <= new.len() && changes[k].before_start
            <= changes[k].before_end <= base.len() by {
            if k > 0 {
                assert(changes[k] == rest[k - 1]);
            }
        }
    }
}

/// Header: a serialized delta starts with the size of the base object and
/// goes on with the size of the new object, each in the variable-length
/// size encoding.
pub proof fn lemma_header(delta: DeltaView)
    ensures
        decode_size(delta.encoding()) == Some(
            (delta.base.len(), encode_size(delta.base.len()).len()),
        ),
        decode_size(delta.encoding().skip(encode_size(delta.base.len()).len() as int)) == Some(
            (delta.new.len(), encode_size(delta.new.len()).len()),
        ),
{
    let first = encode_size(delta.base.len());
    let second = encode_size(delta.new.len());
    let body = encode_program(delta.instructions);
    assert(delta.encoding() =~= first + (second + body));
    lemma_size_round_trip(delta.base.len(), second + body);
    assert(delta.encoding().skip(first.len() as int) =~= second + body);
    lemma_size_round_trip(delta.new.len(), body);
}

/// A copy of `COPY_SPECIAL_SIZE` bytes is written without any size byte:
/// its encoding is the command byte and the offset bytes, and none of the
/// three size flags of the command byte is set.
pub proof fn lemma_special_copy_size(base_offset: u32)
    ensures
        size_bytes(COPY_SPECIAL_SIZE) == Seq::<u8>::empty(),
        (Instruction::Copy { base_offset, size: COPY_SPECIAL_SIZE }).encoding() == seq![
            command_byte(base_offset, COPY_SPECIAL_SIZE),
        ] + offset_bytes(base_offset),
        !has_bit(command_byte(base_offset, COPY_SPECIAL_SIZE), 16),
        !has_bit(command_byte(base_offset, COPY_SPECIAL_SIZE), 32),
        !has_bit(command_byte(base_offset, COPY_SPECIAL_SIZE), 64),
{
    reveal(unless_zero);
    lemma_command_bits(base_offset, COPY_SPECIAL_SIZE);
    assert(size_bytes(COPY_SPECIAL_SIZE) =~= Seq::<u8>::empty());
    assert((Instruction::Copy { base_offset, size: COPY_SPECIAL_SIZE }).encoding() =~= seq![
        command_byte(base_offset, COPY_SPECIAL_SIZE),
    ] + offset_bytes(base_offset));
}

} // verus!
