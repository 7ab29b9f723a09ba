//! Turning an edit script into delta instructions.

use super::buffer::{as_slice, bytes_view, slice_of};
use super::decoder::{all_wf, all_within, apply_delta, encode_program, outputs};
use super::diff_engine::{compute_changes, diff_changes, ChangeEvent, MAX_DIFF_BYTES};
use super::laws::{lemma_edits_in_bounds, lemma_round_trip};
use super::instruction::{
    DeltaError, DeltaInstruction, Instruction, MAX_COPY_BYTES, MAX_DATA_BYTES,
};
use super::size_codec::{encode_size, write_size};
use bytes::Bytes;
use gix_diff::blob::Algorithm;
use std::ops::Range;
use vstd::prelude::*;

verus! {

/// The copy instructions that cover the bytes of the base object in
/// `from..to`: consecutive pieces of `MAX_COPY_BYTES` bytes, the last one
/// shorter where the range does not divide evenly.
pub open spec fn copy_chunks(from: int, to: int) -> Seq<Instruction>
    decreases to - from,
{
    if from >= to {
        Seq::empty()
    } else if to - from <= MAX_COPY_BYTES {
        seq![Instruction::Copy { base_offset: from as u32, size: (to - from) as u32 }]
    } else {
        seq![Instruction::Copy { base_offset: from as u32, size: MAX_COPY_BYTES }] + copy_chunks(
            from + MAX_COPY_BYTES,
            to,
        )
    }
}

/// The data instructions that carry the bytes of `new` in `from..to`:
/// consecutive pieces of `MAX_DATA_BYTES` bytes, the last one shorter where
/// the range does not divide evenly.
pub open spec fn data_chunks(new: Seq<u8>, from: int, to: int) -> Seq<Instruction>
    decreases to - from,
{
    if from >= to {
        Seq::empty()
    } else if to - from <= MAX_DATA_BYTES {
        seq![Instruction::Data(new.subrange(from, to))]
    } else {
        seq![Instruction::Data(new.subrange(from, from + MAX_DATA_BYTES))] + data_chunks(
            new,
            from + MAX_DATA_BYTES,
            to,
        )
    }
}

/// A delta under construction, as a mathematical value.
pub struct DeltaView {
    pub base: Seq<u8>,
    pub new: Seq<u8>,
    /// The position in the base object up to which the changes seen so far
    /// have covered it.
    pub processed_till: u32,
    pub instructions: Seq<Instruction>,
}

/// The state of a delta under construction after the change `event`.
pub open spec fn after_change(state: Result<DeltaView, DeltaError>, event: ChangeEvent) -> Result<
    DeltaView,
    DeltaError,
> {
    match state {
        Err(error) => Err(error),
        Ok(delta) => if event.before_start < delta.processed_till {
            Err(
                DeltaError::InvalidProcessedRange {
                    start: event.before_start,
                    end: event.before_end,
                },
            )
        } else {
            Ok(
                DeltaView {
                    processed_till: event.before_end,
                    instructions: delta.instructions + copy_chunks(
                        delta.processed_till as int,
                        event.before_start as int,
                    ) + data_chunks(delta.new, event.after_start as int, event.after_end as int),
                    ..delta
                },
            )
        },
    }
}

/// The state of a delta under construction after the changes `events`, in
/// their order.
pub open spec fn after_changes(state: Result<DeltaView, DeltaError>, events: Seq<ChangeEvent>)
    -> Result<DeltaView, DeltaError>
    decreases events.len(),
{
    if events.len() == 0 {
        state
    } else {
        after_change(after_changes(state, events.drop_last()), events.last())
    }
}

/// The finished delta: what is left of the base object behind the last
/// change is copied.
pub open spec fn finished(state: Result<DeltaView, DeltaError>) -> Result<DeltaView, DeltaError> {
    match state {
        Err(error) => Err(error),
        Ok(delta) => if delta.base.len() < delta.processed_till {
            Err(
                DeltaError::ProcessedBeyondBase {
                    processed_till: delta.processed_till,
                    base_len: delta.base.len() as u32,
                },
            )
        } else {
            Ok(
                DeltaView {
                    processed_till: delta.base.len() as u32,
                    instructions: delta.instructions + copy_chunks(
                        delta.processed_till as int,
                        delta.base.len() as int,
                    ),
                    ..delta
                },
            )
        },
    }
}

/// A delta on which no change has been recorded yet.
pub open spec fn empty_delta(base: Seq<u8>, new: Seq<u8>) -> DeltaView {
    DeltaView { base, new, processed_till: 0, instructions: Seq::empty() }
}

/// The state in which the construction of a delta for `base` and `new`
/// starts: it has failed from the start where one of the objects holds more
/// bytes than a 32-bit position can address.
pub open spec fn initial_state(base: Seq<u8>, new: Seq<u8>) -> Result<DeltaView, DeltaError> {
    if base.len() > u32::MAX {
        Err(DeltaError::ObjectTooLarge { len: base.len() as usize })
    } else if new.len() > u32::MAX {
        Err(DeltaError::ObjectTooLarge { len: new.len() as usize })
    } else {
        Ok(empty_delta(base, new))
    }
}

/// The delta that the edit script `changes` gives for `base` and `new`.
pub open spec fn delta_of_changes(base: Seq<u8>, new: Seq<u8>, changes: Seq<ChangeEvent>)
    -> Result<DeltaView, DeltaError> {
    finished(after_changes(initial_state(base, new), changes))
}

/// The instructions that rebuild a new object from a base object, in order.
#[derive(Clone, Hash, Eq, PartialEq)]
pub struct DeltaInstructions {
    base_object: Bytes,
    new_object: Bytes,
    processed_till: u32,
    instructions: Vec<DeltaInstruction>,
}

impl View for DeltaInstructions {
    type V = DeltaView;

    closed spec fn view(&self) -> DeltaView {
        DeltaView {
            base: bytes_view(self.base_object),
            new: bytes_view(self.new_object),
            processed_till: self.processed_till,
            instructions: self.instructions@.map_values(|i: DeltaInstruction| i@),
        }
    }
}

impl DeltaView {
    /// The invariant of a delta: both objects can be addressed by 32-bit
    /// positions, and every instruction satisfies the construction
    /// invariant.
    pub open spec fn wf(self) -> bool {
        &&& self.base.len() <= u32::MAX
        &&& self.new.len() <= u32::MAX
        &&& all_wf(self.instructions)
    }

    /// The bytes of the serialized delta: the sizes of the two objects,
    /// then the instructions.
    pub open spec fn encoding(self) -> Seq<u8> {
        encode_size(self.base.len()) + encode_size(self.new.len()) + encode_program(
            self.instructions,
        )
    }
}

/// The result of generating a delta for `base` and `new` from the diff
/// `changes`: an object of more than `MAX_DIFF_BYTES` bytes is refused.
pub open spec fn generated(base: Seq<u8>, new: Seq<u8>, changes: Seq<ChangeEvent>) -> Result<
    DeltaView,
    DeltaError,
> {
    if base.len() > MAX_DIFF_BYTES {
        Err(DeltaError::ObjectTooLarge { len: base.len() as usize })
    } else if new.len() > MAX_DIFF_BYTES {
        Err(DeltaError::ObjectTooLarge { len: new.len() as usize })
    } else {
        delta_of_changes(base, new, changes)
    }
}

impl DeltaInstructions {
    /// The delta that rebuilds `new_object` from `base_object`, by the diff
    /// of the two under `diff_algorithm`, each byte a token. It is refused
    /// where one of the objects holds more than `MAX_DIFF_BYTES` bytes, and
    /// succeeds otherwise: applying the encoded instructions to the base
    /// object then gives the new object.
    pub fn generate(base_object: Bytes, new_object: Bytes, diff_algorithm: Algorithm) -> (r: Result<
        Self,
        DeltaError,
    >)
        ensures
            match r {
                Ok(delta) => Ok::<DeltaView, DeltaError>(delta@) == generated(
                    bytes_view(base_object),
                    bytes_view(new_object),
                    diff_changes(diff_algorithm, bytes_view(base_object), bytes_view(new_object)),
                ),
                Err(error) => Err::<DeltaView, DeltaError>(error) == generated(
                    bytes_view(base_object),
                    bytes_view(new_object),
                    diff_changes(diff_algorithm, bytes_view(base_object), bytes_view(new_object)),
                ),
            },
            r is Ok <==> bytes_view(base_object).len() <= MAX_DIFF_BYTES && bytes_view(
                new_object,
            ).len() <= MAX_DIFF_BYTES,
            r matches Ok(delta) ==> {
                &&& delta@.wf()
                &&& delta@.base == bytes_view(base_object)
                &&& delta@.new == bytes_view(new_object)
                &&& all_within(delta@.instructions, delta@.base.len())
                &&& outputs(delta@.base, delta@.instructions) == delta@.new
                &&& apply_delta(delta@.base, encode_program(delta@.instructions)) == Some(
                    delta@.new,
                )
            },
    {
        if base_object.len() > MAX_DIFF_BYTES {
            return Err(DeltaError::ObjectTooLarge { len: base_object.len() });
        }
        if new_object.len() > MAX_DIFF_BYTES {
            return Err(DeltaError::ObjectTooLarge { len: new_object.len() });
        }
        let changes = compute_changes(
            diff_algorithm,
            as_slice(&base_object),
            as_slice(&new_object),
        );
        proof {
            lemma_edits_in_bounds(
                changes@,
                bytes_view(base_object),
                bytes_view(new_object),
                0,
                0,
            );
            lemma_round_trip(bytes_view(base_object), bytes_view(new_object), changes@);
        }
        Self::from_changes(base_object, new_object, changes.as_slice())
    }

    /// The delta that the edit script `changes` gives for `base_object` and
    /// `new_object`: the changes are recorded in their order, then the delta
    /// is finished. The data range of each change has to lie within the new
    /// object.
    pub fn from_changes(base_object: Bytes, new_object: Bytes, changes: &[ChangeEvent]) -> (r:
        Result<Self, DeltaError>)
        requires
            forall|k: int|
                0 <= k < changes@.len() && (#[trigger] changes@[k]).after_start
                    < changes@[k].after_end ==> changes@[k].after_end <= bytes_view(
                    new_object,
                ).len(),
        ensures
            match r {
                Ok(delta) => Ok::<DeltaView, DeltaError>(delta@) == delta_of_changes(
                    bytes_view(base_object),
                    bytes_view(new_object),
                    changes@,
                ) && delta@.wf(),
                Err(error) => Err::<DeltaView, DeltaError>(error) == delta_of_changes(
                    bytes_view(base_object),
                    bytes_view(new_object),
                    changes@,
                ),
            },
    {
        let ghost base = bytes_view(base_object);
        let ghost new = bytes_view(new_object);
        let mut state = FallibleDeltaInstructions::new(base_object, new_object);
        let mut i: usize = 0;
        proof {
            assert(changes@.take(0) =~= Seq::<ChangeEvent>::empty());
        }
        while i < changes.len()
            invariant
                i <= changes@.len(),
                valid_wf(state@),
                state@ == after_changes(initial_state(base, new), changes@.take(i as int)),
                state@ is Ok ==> state@.unwrap().new == new,
                forall|k: int|
                    0 <= k < changes@.len() && (#[trigger] changes@[k]).after_start
                        < changes@[k].after_end ==> changes@[k].after_end <= new.len(),
            decreases changes@.len() - i,
        {
            let event: ChangeEvent = changes[i];
            proof {
                assert(changes@.take(i + 1).drop_last() =~= changes@.take(i as int));
                assert(changes@.take(i + 1).last() == event);
            }
            state.process_change(
                event.before_start..event.before_end,
                event.after_start..event.after_end,
            );
            i = i + 1;
        }
        proof {
            assert(changes@.take(i as int) =~= changes@);
        }
        state.finish()
    }

    /// The instructions, in order.
    pub fn instructions(&self) -> (instructions: &Vec<DeltaInstruction>)
        ensures
            instructions@.map_values(|i: DeltaInstruction| i@) == self@.instructions,
    {
        &self.instructions
    }

    /// The object that the instructions copy from.
    pub fn base_object(&self) -> (object: &Bytes)
        ensures
            bytes_view(*object) == self@.base,
    {
        &self.base_object
    }

    /// The object that the instructions rebuild.
    pub fn new_object(&self) -> (object: &Bytes)
        ensures
            bytes_view(*object) == self@.new,
    {
        &self.new_object
    }

    /// Appends the serialized delta to `out`: the size of the base object,
    /// the size of the new object, then the instructions.
    pub fn write(&self, out: &mut Vec<u8>)
        requires
            self@.wf(),
        ensures
            final(out)@ == old(out)@ + self@.encoding(),
    {
        write_size(self.base_object.len(), out);
        write_size(self.new_object.len(), out);
        self.write_instructions(out);
        assert(out@ =~= old(out)@ + self@.encoding());
    }

    /// Appends the encodings of the instructions to `out`, in order.
    pub fn write_instructions(&self, out: &mut Vec<u8>)
        requires
            self@.wf(),
        ensures
            final(out)@ == old(out)@ + encode_program(self@.instructions),
    {
        let mut i: usize = 0;
        proof {
            assert(self@.instructions.take(0) =~= Seq::<Instruction>::empty());
            assert(out@ =~= old(out)@ + encode_program(self@.instructions.take(0)));
        }
        while i < self.instructions.len()
            invariant
                i <= self.instructions@.len(),
                self@.wf(),
                out@ == old(out)@ + encode_program(self@.instructions.take(i as int)),
            decreases self.instructions@.len() - i,
        {
            proof {
                let ghost done = self@.instructions.take(i + 1);
                assert(done.drop_last() =~= self@.instructions.take(i as int));
                assert(done.last() == self.instructions@[i as int]@);
                assert(self@.instructions[i as int].wf());
                assert(old(out)@ + encode_program(done.drop_last()) + done.last().encoding()
                    =~= old(out)@ + encode_program(done));
            }
            self.instructions[i].write(out);
            i = i + 1;
        }
        proof {
            assert(self@.instructions.take(i as int) =~= self@.instructions);
        }
    }
}

/// A delta under construction that may have failed. Once it has failed it
/// stays as it is: later changes are ignored, and the failure is reported
/// when the delta is finished.
pub enum FallibleDeltaInstructions {
    Valid(DeltaInstructions),
    Invalid(DeltaError),
}

impl View for FallibleDeltaInstructions {
    type V = Result<DeltaView, DeltaError>;

    open spec fn view(&self) -> Result<DeltaView, DeltaError> {
        match self {
            FallibleDeltaInstructions::Valid(delta) => Ok(delta@),
            FallibleDeltaInstructions::Invalid(error) => Err(*error),
        }
    }
}

/// Whether a delta under construction, where it has not failed, satisfies
/// the invariant of a delta.
pub open spec fn valid_wf(state: Result<DeltaView, DeltaError>) -> bool {
    match state {
        Ok(delta) => delta.wf(),
        Err(_) => true,
    }
}

/// The state after a data instruction for the bytes of the new object in
/// `start..end` has been asked for.
pub open spec fn after_data(state: Result<DeltaView, DeltaError>, start: int, end: int) -> Result<
    DeltaView,
    DeltaError,
> {
    match state {
        Err(error) => Err(error),
        Ok(delta) => if 1 <= end - start <= MAX_DATA_BYTES {
            Ok(
                DeltaView {
                    instructions: delta.instructions.push(
                        Instruction::Data(delta.new.subrange(start, end)),
                    ),
                    ..delta
                },
            )
        } else {
            Err(DeltaError::InvalidDataSize { len: (end - start) as usize })
        },
    }
}

/// The state after a copy instruction for the bytes of the base object in
/// `start..end` has been asked for.
pub open spec fn after_copy(state: Result<DeltaView, DeltaError>, start: u32, end: u32) -> Result<
    DeltaView,
    DeltaError,
> {
    match state {
        Err(error) => Err(error),
        Ok(delta) => if start >= end {
            Err(DeltaError::EmptyCopyRange { start, end })
        } else if end - start > MAX_COPY_BYTES {
            Err(DeltaError::InvalidCopySize { size: (end - start) as u32 })
        } else {
            Ok(
                DeltaView {
                    processed_till: end,
                    instructions: delta.instructions.push(
                        Instruction::Copy { base_offset: start, size: (end - start) as u32 },
                    ),
                    ..delta
                },
            )
        },
    }
}

impl FallibleDeltaInstructions {
    /// A delta for `base_object` and `new_object` on which no change has
    /// been recorded yet. It has failed from the start where one of the
    /// objects holds more bytes than a 32-bit position can address.
    pub fn new(base_object: Bytes, new_object: Bytes) -> (state: Self)
        ensures
            state@ == initial_state(bytes_view(base_object), bytes_view(new_object)),
            valid_wf(state@),
    {
        if base_object.len() > 0xffff_ffff {
            return FallibleDeltaInstructions::Invalid(
                DeltaError::ObjectTooLarge { len: base_object.len() },
            );
        }
        if new_object.len() > 0xffff_ffff {
            return FallibleDeltaInstructions::Invalid(
                DeltaError::ObjectTooLarge { len: new_object.len() },
            );
        }
        let delta = DeltaInstructions {
            base_object,
            new_object,
            processed_till: 0,
            instructions: Vec::new(),
        };
        assert(delta@.instructions =~= Seq::<Instruction>::empty());
        FallibleDeltaInstructions::Valid(delta)
    }

    /// The delta, or the failure.
    pub fn into_result(self) -> (r: Result<DeltaInstructions, DeltaError>)
        ensures
            match r {
                Ok(delta) => self@ == Ok::<DeltaView, DeltaError>(delta@),
                Err(error) => self@ == Err::<DeltaView, DeltaError>(error),
            },
    {
        match self {
            FallibleDeltaInstructions::Valid(delta) => Ok(delta),
            FallibleDeltaInstructions::Invalid(error) => Err(error),
        }
    }

    /// Adds a copy instruction for the bytes of the base object in `range`
    /// and moves the position up to which the base object is covered to the
    /// end of `range`. An empty or oversized range makes the delta fail.
    fn add_copy(&mut self, range: Range<u32>)
        requires
            valid_wf(old(self)@),
        ensures
            final(self)@ == after_copy(old(self)@, range.start, range.end),
            valid_wf(final(self)@),
    {
        match self {
            FallibleDeltaInstructions::Valid(delta) => {
                let end: u32 = range.end;
                match DeltaInstruction::from_copy(range) {
                    Ok(copy_instruction) => {
                        let ghost before = delta@;
                        delta.instructions.push(copy_instruction);
                        delta.processed_till = end;
                        proof {
                            assert(delta@.instructions =~= before.instructions.push(
                                copy_instruction@,
                            ));
                        }
                    },
                    Err(error) => {
                        *self = FallibleDeltaInstructions::Invalid(error);
                    },
                }
            },
            FallibleDeltaInstructions::Invalid(_) => {},
        }
    }

    /// Adds a data instruction for the bytes of the new object in `range`.
    /// A range of no bytes, or of more than `MAX_DATA_BYTES`, makes the delta
    /// fail.
    pub fn add_data(&mut self, range: Range<u32>)
        requires
            valid_wf(old(self)@),
            old(self)@ is Ok ==> range.start <= range.end <= old(self)@.unwrap().new.len(),
        ensures
            final(self)@ == after_data(old(self)@, range.start as int, range.end as int),
            valid_wf(final(self)@),
    {
        match self {
            FallibleDeltaInstructions::Valid(delta) => {
                let bytes = slice_of(&delta.new_object, range.start as usize, range.end as usize);
                match DeltaInstruction::from_data(bytes) {
                    Ok(data_instruction) => {
                        let ghost before = delta@;
                        delta.instructions.push(data_instruction);
                        proof {
                            assert(delta@.instructions =~= before.instructions.push(
                                data_instruction@,
                            ));
                        }
                    },
                    Err(error) => {
                        *self = FallibleDeltaInstructions::Invalid(error);
                    },
                }
            },
            FallibleDeltaInstructions::Invalid(_) => {},
        }
    }

    /// Sets the position up to which the base object is covered.
    pub fn update_processed_till(&mut self, new_processed_till: u32)
        ensures
            final(self)@ == match old(self)@ {
                Ok(delta) => Ok::<DeltaView, DeltaError>(
                    DeltaView { processed_till: new_processed_till, ..delta },
                ),
                Err(error) => Err::<DeltaView, DeltaError>(error),
            },
            valid_wf(old(self)@) ==> valid_wf(final(self)@),
    {
        match self {
            FallibleDeltaInstructions::Valid(delta) => {
                delta.processed_till = new_processed_till;
            },
            FallibleDeltaInstructions::Invalid(_) => {},
        }
    }

    /// Adds copy instructions for the bytes of the base object in
    /// `from..to`, none of them larger than `MAX_COPY_BYTES`.
    fn add_copies(&mut self, from: u32, to: u32)
        requires
            valid_wf(old(self)@),
        ensures
            final(self)@ == match old(self)@ {
                Ok(delta) => Ok::<DeltaView, DeltaError>(
                    DeltaView {
                        processed_till: if from < to {
                            to
                        } else {
                            delta.processed_till
                        },
                        instructions: delta.instructions + copy_chunks(from as int, to as int),
                        ..delta
                    },
                ),
                Err(error) => Err::<DeltaView, DeltaError>(error),
            },
            valid_wf(final(self)@),
    {
        let ghost start = self@;
        let mut copied_till: u32 = from;
        while copied_till < to
            invariant
                valid_wf(self@),
                from <= copied_till,
                from < to ==> copied_till <= to,
                from >= to ==> copied_till == from,
                start is Err ==> self@ == start,
                start is Ok ==> self@ is Ok && self@.unwrap() == (DeltaView {
                    processed_till: if from < copied_till {
                        copied_till
                    } else {
                        start.unwrap().processed_till
                    },
                    instructions: self@.unwrap().instructions,
                    ..start.unwrap()
                }),
                start is Ok ==> start.unwrap().instructions + copy_chunks(from as int, to as int)
                    == self@.unwrap().instructions + copy_chunks(copied_till as int, to as int),
            decreases to - copied_till,
        {
            let stop: u32 = if to - copied_till > MAX_COPY_BYTES {
                copied_till + MAX_COPY_BYTES
            } else {
                to
            };
            let ghost before = self@;
            self.add_copy(copied_till..stop);
            proof {
                if start is Ok {
                    let piece = Instruction::Copy {
                        base_offset: copied_till,
                        size: (stop - copied_till) as u32,
                    };
                    assert(copy_chunks(copied_till as int, to as int) =~= seq![piece]
                        + copy_chunks(stop as int, to as int));
                    assert(before.unwrap().instructions.push(piece) + copy_chunks(
                        stop as int,
                        to as int,
                    ) =~= before.unwrap().instructions + (seq![piece] + copy_chunks(
                        stop as int,
                        to as int,
                    )));
                }
            }
            copied_till = stop;
        }
        proof {
            if start is Ok {
                assert(self@.unwrap().instructions + copy_chunks(copied_till as int, to as int)
                    =~= self@.unwrap().instructions);
            }
        }
    }

    /// Adds data instructions for the bytes of the new object in
    /// `from..to`, none of them larger than `MAX_DATA_BYTES`.
    fn add_data_chunks(&mut self, from: u32, to: u32)
        requires
            valid_wf(old(self)@),
            old(self)@ is Ok && from < to ==> to <= old(self)@.unwrap().new.len(),
        ensures
            final(self)@ == match old(self)@ {
                Ok(delta) => Ok::<DeltaView, DeltaError>(
                    DeltaView {
                        instructions: delta.instructions + data_chunks(
                            delta.new,
                            from as int,
                            to as int,
                        ),
                        ..delta
                    },
                ),
                Err(error) => Err::<DeltaView, DeltaError>(error),
            },
            valid_wf(final(self)@),
    {
        let ghost start = self@;
        let mut written_till: u32 = from;
        while written_till < to
            invariant
                valid_wf(self@),
                from <= written_till,
                from < to ==> written_till <= to,
                start is Ok && from < to ==> to <= start.unwrap().new.len(),
                start is Err ==> self@ == start,
                start is Ok ==> self@ is Ok && self@.unwrap() == (DeltaView {
                    instructions: self@.unwrap().instructions,
                    ..start.unwrap()
                }),
                start is Ok ==> start.unwrap().instructions + data_chunks(
                    start.unwrap().new,
                    from as int,
                    to as int,
                ) == self@.unwrap().instructions + data_chunks(
                    start.unwrap().new,
                    written_till as int,
                    to as int,
                ),
            decreases to - written_till,
        {
            let stop: u32 = if to - written_till > 127 {
                written_till + 127
            } else {
                to
            };
            let ghost before = self@;
            self.add_data(written_till..stop);
            proof {
                if start is Ok {
                    let new = start.unwrap().new;
                    let piece = Instruction::Data(new.subrange(written_till as int, stop as int));
                    assert(data_chunks(new, written_till as int, to as int) =~= seq![piece]
                        + data_chunks(new, stop as int, to as int));
                    assert(before.unwrap().instructions.push(piece) + data_chunks(
                        new,
                        stop as int,
                        to as int,
                    ) =~= before.unwrap().instructions + (seq![piece] + data_chunks(
                        new,
                        stop as int,
                        to as int,
                    )));
                }
            }
            written_till = stop;
        }
        proof {
            if start is Ok {
                assert(self@.unwrap().instructions + data_chunks(
                    start.unwrap().new,
                    written_till as int,
                    to as int,
                ) =~= self@.unwrap().instructions);
            }
        }
    }

    /// Records one change of the edit script: the bytes of the base object
    /// between the position covered so far and the start of `before` are
    /// copied, the bytes of the new object in `after` are carried as data,
    /// and the base object is covered up to the end of `before`. A change
    /// that starts before the position covered so far makes the delta fail.
    pub fn process_change(&mut self, before: Range<u32>, after: Range<u32>)
        requires
            valid_wf(old(self)@),
            old(self)@ is Ok && after.start < after.end ==> after.end <= old(
                self,
            )@.unwrap().new.len(),
        ensures
            final(self)@ == after_change(
                old(self)@,
                ChangeEvent {
                    before_start: before.start,
                    before_end: before.end,
                    after_start: after.start,
                    after_end: after.end,
                },
            ),
            valid_wf(final(self)@),
    {
        let processed_till: u32 = match self {
            FallibleDeltaInstructions::Valid(delta) => delta.processed_till,
            FallibleDeltaInstructions::Invalid(_) => {
                return ;
            },
        };
        if before.start < processed_till {
            *self = FallibleDeltaInstructions::Invalid(
                DeltaError::InvalidProcessedRange { start: before.start, end: before.end },
            );
            return ;
        }
        self.add_copies(processed_till, before.start);
        self.add_data_chunks(after.start, after.end);
        self.update_processed_till(before.end);
    }

    /// Finishes the delta: what is left of the base object behind the
    /// position covered so far is copied. A position beyond the end of the
    /// base object is a failure.
    pub fn finish(self) -> (r: Result<DeltaInstructions, DeltaError>)
        requires
            valid_wf(self@),
        ensures
            match r {
                Ok(delta) => finished(self@) == Ok::<DeltaView, DeltaError>(delta@) && delta@.wf(),
                Err(error) => finished(self@) == Err::<DeltaView, DeltaError>(error),
            },
    {
        let mut state = self;
        let (base_len, processed_till): (u32, u32) = match &state {
            FallibleDeltaInstructions::Valid(delta) => (
                delta.base_object.len() as u32,
                delta.processed_till,
            ),
            FallibleDeltaInstructions::Invalid(error) => {
                return Err(*error);
            },
        };
        if base_len < processed_till {
            return Err(DeltaError::ProcessedBeyondBase { processed_till, base_len });
        }
        state.add_copies(processed_till, base_len);
        state.into_result()
    }
}

} // verus!
