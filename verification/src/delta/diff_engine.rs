//! The byte-level diff that a delta is generated from.

use gix_diff::blob::{Algorithm, Diff, InternedInput};
use vstd::prelude::*;

verus! {

/// `gix_diff::blob::Algorithm`, the choice of diff algorithm, taken as an
/// opaque type.
#[verifier::external_type_specification]
#[verifier::external_body]
pub struct ExAlgorithm(gix_diff::blob::Algorithm);

/// One change of an edit script: the bytes of the base object in
/// `before_start..before_end` are replaced by the bytes of the new object in
/// `after_start..after_end`.
#[derive(Clone, Copy, Debug, PartialEq, Eq, Structural)]
pub struct ChangeEvent {
    pub before_start: u32,
    pub before_end: u32,
    pub after_start: u32,
    pub after_end: u32,
}

/// The changes that the diff of `base` against `new` consists of under
/// `algorithm`, in the order in which the diff lists them.
pub uninterp spec fn diff_changes(algorithm: Algorithm, base: Seq<u8>, new: Seq<u8>) -> Seq<
    ChangeEvent,
>;

/// Whether `changes` turn what `base` holds from `base_at` on into what `new`
/// holds from `new_at` on: the changes come in order and lie within the two
/// objects, and what lies before, between and behind them is the same in
/// both.
pub open spec fn edits_from(
    changes: Seq<ChangeEvent>,
    base: Seq<u8>,
    new: Seq<u8>,
    base_at: int,
    new_at: int,
) -> bool
    decreases changes.len(),
{
    if changes.len() == 0 {
        &&& 0 <= base_at <= base.len()
        &&& 0 <= new_at <= new.len()
        &&& base.skip(base_at) == new.skip(new_at)
    } else {
        let first = changes[0];
        &&& 0 <= base_at <= first.before_start <= first.before_end <= base.len()
        &&& 0 <= new_at <= first.after_start <= first.after_end <= new.len()
        &&& base.subrange(base_at, first.before_start as int) == new.subrange(
            new_at,
            first.after_start as int,
        )
        &&& edits_from(
            changes.skip(1),
            base,
            new,
            first.before_end as int,
            first.after_end as int,
        )
    }
}

/// Whether `changes` is an edit script that turns `base` into `new`.
pub open spec fn is_edit_script(changes: Seq<ChangeEvent>, base: Seq<u8>, new: Seq<u8>) -> bool {
    edits_from(changes, base, new, 0, 0)
}

/// The most bytes that an object may hold for the diff to take it.
pub const MAX_DIFF_BYTES: usize = 0x7fff_fffe;

/// `Diff::compute` on the two objects, each byte a token, and `Diff::hunks`
/// of the result. The diff is a function of the algorithm and the two
/// objects, and it is an edit script that turns the first into the second.
/// `Diff::compute` panics on an input of `i32::MAX` tokens or more, so such
/// an input is excluded.
#[verifier::external_body]
pub(crate) fn compute_changes(algorithm: Algorithm, base: &[u8], new: &[u8]) -> (changes: Vec<
    ChangeEvent,
>)
    requires
        base@.len() <= MAX_DIFF_BYTES,
        new@.len() <= MAX_DIFF_BYTES,
    ensures
        changes@ == diff_changes(algorithm, base@, new@),
        is_edit_script(changes@, base@, new@),
{
    let mut input: InternedInput<u8> = InternedInput::default();
    input.update_before(base.iter().copied());
    input.update_after(new.iter().copied());
    Diff::compute(algorithm, &input).hunks().map(
        |hunk| ChangeEvent {
            before_start: hunk.before.start,
            before_end: hunk.before.end,
            after_start: hunk.after.start,
            after_end: hunk.after.end,
        },
    ).collect()
}

} // verus!
