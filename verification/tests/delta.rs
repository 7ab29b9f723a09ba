use bytes::Bytes;
use gix_diff::blob::Algorithm;
use gix_hash::ObjectId;
use gix_object::{ObjectRef, Tag, WriteTo};
use rand::Rng;
use scm_core::delta::decoder::apply;
use scm_core::delta::diff_engine::ChangeEvent;
use scm_core::delta::generator::{DeltaInstructions, FallibleDeltaInstructions};
use scm_core::delta::instruction::{
    DeltaError, DeltaInstruction, COPY_SPECIAL_SIZE, MAX_COPY_BYTES, MAX_DATA_BYTES,
};
use scm_core::delta::size_codec::{read_size, write_size};
use std::io::Write;

fn random_bytes(count: usize) -> Bytes {
    let bytes: Vec<u8> = rand::thread_rng()
        .sample_iter::<u8, _>(rand::distributions::Standard)
        .take(count)
        .collect();
    Bytes::from(bytes)
}

fn round_trip(base_object: Bytes, new_object: Bytes) -> Vec<u8> {
    let delta_instructions =
        DeltaInstructions::generate(base_object.clone(), new_object.clone(), Algorithm::Myers)
            .unwrap();
    let mut encoded_instructions = Vec::new();
    delta_instructions.write_instructions(&mut encoded_instructions);
    apply(base_object.as_ref(), encoded_instructions.as_ref()).unwrap()
}

fn encoded(instruction: &DeltaInstruction) -> Vec<u8> {
    let mut out = Vec::new();
    instruction.write(&mut out);
    out
}

fn size_bytes(size: usize) -> Vec<u8> {
    let mut out = Vec::new();
    write_size(size, &mut out);
    out
}

fn change(before: std::ops::Range<u32>, after: std::ops::Range<u32>) -> ChangeEvent {
    ChangeEvent {
        before_start: before.start,
        before_end: before.end,
        after_start: after.start,
        after_end: after.end,
    }
}

#[test]
fn test_data_instruction_creation() {
    // Creating a data instruction with more than 127 bytes of data should fail
    let data = [0u8; 128];
    let data_instruction = DeltaInstruction::from_data(Bytes::copy_from_slice(&data));
    assert!(data_instruction.is_err());
    // Validate creation of data instruction with valid data
    let data = [0u8; 127];
    let data_instruction = DeltaInstruction::from_data(Bytes::copy_from_slice(&data));
    assert!(data_instruction.is_ok());
}

#[test]
fn test_copy_instruction_creation() {
    // Creating a copy instruction with an empty range should fail
    let empty_range = 32..32;
    let copy_instruction = DeltaInstruction::from_copy(empty_range);
    assert!(copy_instruction.is_err());
    // Creating a copy instruction with too wide a range should fail
    let too_large_range = 0..(MAX_COPY_BYTES + 1);
    let copy_instruction = DeltaInstruction::from_copy(too_large_range);
    assert!(copy_instruction.is_err());
    // Validate creation of copy instruction with valid range
    let valid_range = 0..MAX_COPY_BYTES;
    let copy_instruction = DeltaInstruction::from_copy(valid_range);
    assert!(copy_instruction.is_ok());
}

#[test]
fn test_basic_delta_creation() {
    let base_object = Bytes::from_static(b"So close no matter how far");
    let new_object = Bytes::from_static(b"So close no matter if very far");
    let delta_instructions =
        DeltaInstructions::generate(base_object, new_object, Algorithm::Myers);
    // Validate that the delta instructions get created successfully
    assert!(
        delta_instructions.is_ok(),
        "Failure in creating delta instructions",
    );
}

#[test]
fn test_basic_delta_encoding() {
    let base_object = Bytes::from_static(b"So close no matter how far");
    let new_object = Bytes::from_static(b"So close no matter if very far");
    let delta_instructions =
        DeltaInstructions::generate(base_object, new_object, Algorithm::Myers).unwrap();
    let mut encoded_instructions = Vec::new();
    delta_instructions.write(&mut encoded_instructions);
    // The header holds the two sizes, 26 and 30, in one byte each.
    assert_eq!(encoded_instructions[0], 26);
    assert_eq!(encoded_instructions[1], 30);
    assert!(encoded_instructions.len() > 2);
}

#[test]
fn test_basic_delta_application() {
    let base_object = Bytes::from_static(b"So close no matter how far");
    let new_object = Bytes::from_static(b"So close no matter if very far");
    let recreated_new_object = round_trip(base_object, new_object.clone());
    // Validate that the recreated_new_object matches the new_object
    assert_eq!(new_object, Bytes::from(recreated_new_object));
}

#[test]
fn test_random_bytes_blob_delta_application() {
    let base_object = random_bytes(10000);
    let new_object = random_bytes(10000);
    let recreated_new_object = round_trip(base_object, new_object.clone());
    assert_eq!(new_object, Bytes::from(recreated_new_object));
}

#[test]
fn test_smaller_base_random_bytes_blob_delta_application() {
    let base_object = random_bytes(100);
    let new_object = random_bytes(10000);
    let recreated_new_object = round_trip(base_object, new_object.clone());
    assert_eq!(new_object, Bytes::from(recreated_new_object));
}

#[test]
fn test_larger_base_random_bytes_blob_delta_application() {
    let base_object = random_bytes(10000);
    let new_object = random_bytes(100);
    let recreated_new_object = round_trip(base_object, new_object.clone());
    assert_eq!(new_object, Bytes::from(recreated_new_object));
}

#[test]
fn test_git_object_delta_application() {
    // Create a Git tag object pointing to a tree and use it as base object
    let tag = Tag {
        target: ObjectId::empty_tree(gix_hash::Kind::Sha1),
        target_kind: gix_object::Kind::Tree,
        name: "TreeTag".into(),
        tagger: None,
        message: "Tag pointing to a tree".into(),
        signature: None,
    };
    let mut base_object = tag.loose_header().into_vec();
    tag.write_to(base_object.by_ref()).unwrap();
    let base_object = Bytes::from(base_object);
    // Create a Git tag object pointing to a blob and use it as the new object
    let tag = Tag {
        target: ObjectId::empty_tree(gix_hash::Kind::Sha1),
        target_kind: gix_object::Kind::Blob,
        name: "BlobTag".into(),
        tagger: None,
        message: "Tag pointing to a blob".into(),
        signature: None,
    };
    let mut new_object = tag.loose_header().into_vec();
    tag.write_to(new_object.by_ref()).unwrap();
    let new_object = Bytes::from(new_object);
    let recreated_new_object = round_trip(base_object, new_object);
    // Validate that we are able to recreate the Git tag object from
    // the delta-generated bytes
    let object = ObjectRef::from_loose(recreated_new_object.as_ref(), gix_hash::Kind::Sha1)
        .unwrap_or_else(|error| {
            panic!(
                "Error in deserialing bytes into Git Object: {}: {}",
                String::from_utf8_lossy(recreated_new_object.as_ref()),
                error
            )
        })
        .into_owned()
        .unwrap();
    let output_tag = match object.try_into_tag() {
        Ok(output_tag) => output_tag,
        Err(_) => panic!("Expected successful conversion into Git Tag"),
    };
    // Validate that the Git tag object obtained from the delta-generated bytes is the same
    // as the Tag object used as new_object above
    assert_eq!(tag, output_tag, "Git tag objects do not match");
}

#[test]
fn data_instruction_rejects_empty_data() {
    let result = DeltaInstruction::from_data(Bytes::new());
    assert!(matches!(result, Err(DeltaError::InvalidDataSize { len: 0 })));
    let result = DeltaInstruction::from_data(Bytes::copy_from_slice(&[7u8; 128]));
    assert!(matches!(result, Err(DeltaError::InvalidDataSize { len: 128 })));
    let result = DeltaInstruction::from_data(Bytes::copy_from_slice(&[7u8; 1]));
    assert!(result.is_ok());
    assert_eq!(MAX_DATA_BYTES, 127);
}

#[test]
fn copy_instruction_errors_name_the_range() {
    assert!(matches!(
        DeltaInstruction::from_copy(32..32),
        Err(DeltaError::EmptyCopyRange { start: 32, end: 32 })
    ));
    assert!(matches!(
        DeltaInstruction::from_copy(40..32),
        Err(DeltaError::EmptyCopyRange { start: 40, end: 32 })
    ));
    assert!(matches!(
        DeltaInstruction::from_copy(5..(5 + (1 << 24))),
        Err(DeltaError::InvalidCopySize { size: 16777216 })
    ));
    assert!(
        DeltaInstruction::from_copy(7..10)
            == Ok(DeltaInstruction::Copy {
                base_offset: 7,
                size: 3
            })
    );
}

#[test]
fn size_codec_exact_bytes() {
    assert_eq!(size_bytes(0), vec![0x00]);
    assert_eq!(size_bytes(1), vec![0x01]);
    assert_eq!(size_bytes(127), vec![0x7f]);
    assert_eq!(size_bytes(128), vec![0x80, 0x01]);
    assert_eq!(size_bytes(300), vec![0xac, 0x02]);
    assert_eq!(size_bytes(16384), vec![0x80, 0x80, 0x01]);
    let mut out = vec![9u8];
    write_size(5, &mut out);
    assert_eq!(out, vec![9, 5]);
}

#[test]
fn size_codec_round_trip() {
    for size in [0usize, 1, 127, 128, 129, 255, 256, 16383, 16384, 65536, 1 << 24, usize::MAX] {
        let mut bytes = size_bytes(size);
        let written = bytes.len();
        bytes.extend_from_slice(&[0xff, 0x01]);
        assert_eq!(read_size(&bytes, 0), Some((size, written)));
    }
    // Reading may start in the middle of the input.
    assert_eq!(read_size(&[0xff, 0xac, 0x02, 0x05], 1), Some((300, 2)));
    assert_eq!(read_size(&[0xff, 0xac, 0x02, 0x05], 3), Some((5, 1)));
}

#[test]
fn size_codec_rejects_truncated_and_oversized_input() {
    assert_eq!(read_size(&[], 0), None);
    assert_eq!(read_size(&[0x80], 0), None);
    assert_eq!(read_size(&[0x80, 0x01], 2), None);
    // Eleven payload groups of all ones do not fit in 64 bits.
    let too_large = [0xffu8, 0xff, 0xff, 0xff, 0xff, 0xff, 0xff, 0xff, 0xff, 0xff, 0x7f];
    assert_eq!(read_size(&too_large, 0), None);
    // Leading zero groups do not change the value, however many there are.
    let padded = [0x85u8, 0x80, 0x80, 0x80, 0x80, 0x80, 0x80, 0x80, 0x80, 0x80, 0x80, 0x00];
    assert_eq!(read_size(&padded, 0), Some((5, 12)));
}

#[test]
fn data_instruction_encoding() {
    let instruction = DeltaInstruction::from_data(Bytes::from_static(b"abc")).unwrap();
    assert_eq!(encoded(&instruction), vec![3, b'a', b'b', b'c']);
    let instruction = DeltaInstruction::from_data(Bytes::copy_from_slice(&[9u8; 127])).unwrap();
    let bytes = encoded(&instruction);
    assert_eq!(bytes.len(), 128);
    assert_eq!(bytes[0], 127);
}

#[test]
fn copy_instruction_encoding() {
    // Offset 0, size 1: only the lowest size byte is present.
    let instruction = DeltaInstruction::from_copy(0..1).unwrap();
    assert_eq!(encoded(&instruction), vec![0b1001_0000, 1]);
    // Offset 0x0102, size 0x0304.
    let instruction = DeltaInstruction::from_copy(0x0102..(0x0102 + 0x0304)).unwrap();
    assert_eq!(encoded(&instruction), vec![0b1011_0011, 0x02, 0x01, 0x04, 0x03]);
    // Zero bytes in the middle are left out.
    let instruction = DeltaInstruction::from_copy(0x0100_0001..(0x0100_0001 + 0x01_0001)).unwrap();
    assert_eq!(encoded(&instruction), vec![0b1101_1001, 0x01, 0x01, 0x01, 0x01]);
    // The largest copy at the largest offset that admits it.
    let instruction = DeltaInstruction::from_copy(0xff00_0000..0xffff_ffff).unwrap();
    assert_eq!(encoded(&instruction), vec![0b1111_1000, 0xff, 0xff, 0xff, 0xff]);
}

#[test]
fn copy_of_special_size_has_no_size_bytes() {
    let instruction = DeltaInstruction::from_copy(5..(5 + COPY_SPECIAL_SIZE)).unwrap();
    let bytes = encoded(&instruction);
    assert_eq!(bytes, vec![0b1000_0001, 5]);
    assert_eq!(bytes[0] & 0b0111_0000, 0);
    // A decoder reads the absent size as 65536.
    let base = vec![3u8; 5 + 65536];
    assert_eq!(apply(&base, &bytes), Some(vec![3u8; 65536]));
}

#[test]
fn apply_rejects_malformed_streams() {
    let base = b"0123456789";
    // Command byte 0 is not an instruction.
    assert_eq!(apply(base, &[0]), None);
    // Data that ends early.
    assert_eq!(apply(base, &[3, b'a', b'b']), None);
    // A copy whose announced offset byte is missing.
    assert_eq!(apply(base, &[0b1001_0001]), None);
    // A copy that reads past the end of the base object.
    assert_eq!(apply(base, &[0b1001_0001, 8, 3]), None);
    // The same copy, within the base object.
    assert_eq!(apply(base, &[0b1001_0001, 7, 3]), Some(b"789".to_vec()));
    // The empty stream rebuilds the empty object.
    assert_eq!(apply(base, &[]), Some(Vec::new()));
    // Data and copy in turn.
    assert_eq!(
        apply(base, &[2, b'x', b'y', 0b1001_0000, 2, 1, b'z']),
        Some(b"xy01z".to_vec())
    );
}

#[test]
fn header_holds_both_sizes() {
    let base_object = Bytes::from(vec![1u8; 300]);
    let mut new = vec![1u8; 300];
    new.extend_from_slice(&[2u8; 200]);
    let new_object = Bytes::from(new);
    let delta = DeltaInstructions::generate(base_object, new_object, Algorithm::Myers).unwrap();
    let mut bytes = Vec::new();
    delta.write(&mut bytes);
    let (base_len, used) = read_size(&bytes, 0).unwrap();
    assert_eq!((base_len, used), (300, 2));
    let (new_len, used_again) = read_size(&bytes, used).unwrap();
    assert_eq!((new_len, used_again), (500, 2));
    let mut body = Vec::new();
    delta.write_instructions(&mut body);
    assert_eq!(&bytes[used + used_again..], &body[..]);
}

#[test]
fn changes_become_copies_and_data() {
    let base_object = Bytes::from_static(b"So close no matter how far");
    let new_object = Bytes::from_static(b"So close no matter if very far");
    // "how" at 19..22 is replaced by "if very" at 19..26.
    let delta = DeltaInstructions::from_changes(
        base_object.clone(),
        new_object.clone(),
        &[change(19..22, 19..26)],
    )
    .unwrap();
    let mut body = Vec::new();
    delta.write_instructions(&mut body);
    let mut expected = vec![0b1001_0000, 19];
    expected.push(7);
    expected.extend_from_slice(b"if very");
    expected.extend_from_slice(&[0b1001_0001, 22, 4]);
    assert_eq!(body, expected);
    assert_eq!(apply(base_object.as_ref(), &body), Some(new_object.to_vec()));
}

#[test]
fn identical_objects_are_one_copy() {
    let object = Bytes::from_static(b"unchanged");
    let delta =
        DeltaInstructions::generate(object.clone(), object.clone(), Algorithm::Histogram).unwrap();
    let mut bytes = Vec::new();
    delta.write(&mut bytes);
    assert_eq!(bytes, vec![9, 9, 0b1001_0000, 9]);
}

#[test]
fn empty_base_and_empty_new() {
    let delta = DeltaInstructions::generate(Bytes::new(), Bytes::new(), Algorithm::Myers).unwrap();
    let mut bytes = Vec::new();
    delta.write(&mut bytes);
    assert_eq!(bytes, vec![0, 0]);
    let new_object = Bytes::from_static(b"fresh");
    let rebuilt = round_trip(Bytes::new(), new_object.clone());
    assert_eq!(rebuilt, new_object.to_vec());
    let rebuilt = round_trip(new_object, Bytes::new());
    assert_eq!(rebuilt, Vec::<u8>::new());
}

#[test]
fn long_data_is_split_into_pieces_of_127_bytes() {
    let new: Vec<u8> = (0..300u32).map(|i| (i % 251) as u8).collect();
    let delta =
        DeltaInstructions::from_changes(Bytes::new(), Bytes::from(new.clone()), &[change(0..0, 0..300)])
            .unwrap();
    let mut body = Vec::new();
    delta.write_instructions(&mut body);
    assert_eq!(body.len(), 300 + 3);
    assert_eq!(body[0], 127);
    assert_eq!(body[128], 127);
    assert_eq!(body[256], 46);
    assert_eq!(apply(&[], &body), Some(new));
}

#[test]
fn long_copy_is_split_into_pieces_of_the_largest_size() {
    let size = (1usize << 24) + 10;
    let object = Bytes::from(vec![5u8; size]);
    let delta = DeltaInstructions::from_changes(object.clone(), object.clone(), &[]).unwrap();
    let mut body = Vec::new();
    delta.write_instructions(&mut body);
    // Copy of 2^24 - 1 bytes at offset 0, then 11 bytes at offset 2^24 - 1.
    assert_eq!(
        body,
        vec![0b1111_0000, 0xff, 0xff, 0xff, 0b1001_0111, 0xff, 0xff, 0xff, 11]
    );
    assert_eq!(apply(object.as_ref(), &body).map(|v| v.len()), Some(size));
}

#[test]
fn out_of_order_change_fails_and_later_changes_are_ignored() {
    let base_object = Bytes::from_static(b"0123456789");
    let new_object = Bytes::from_static(b"abcdefghij");
    let result = DeltaInstructions::from_changes(
        base_object.clone(),
        new_object.clone(),
        &[change(4..6, 0..2), change(3..5, 2..4), change(8..9, 4..5)],
    );
    assert!(matches!(
        result,
        Err(DeltaError::InvalidProcessedRange { start: 3, end: 5 })
    ));
    let mut state = FallibleDeltaInstructions::new(base_object, new_object);
    state.process_change(4..6, 0..2);
    assert!(matches!(state, FallibleDeltaInstructions::Valid(_)));
    state.process_change(3..5, 2..4);
    assert!(matches!(
        state,
        FallibleDeltaInstructions::Invalid(DeltaError::InvalidProcessedRange { start: 3, end: 5 })
    ));
    state.process_change(8..9, 4..5);
    assert!(matches!(
        state.finish(),
        Err(DeltaError::InvalidProcessedRange { start: 3, end: 5 })
    ));
}

#[test]
fn changes_beyond_the_base_object_fail_at_the_end() {
    let result = DeltaInstructions::from_changes(
        Bytes::from_static(b"0123"),
        Bytes::from_static(b"ab"),
        &[change(2..6, 0..2)],
    );
    assert!(matches!(
        result,
        Err(DeltaError::ProcessedBeyondBase {
            processed_till: 6,
            base_len: 4
        })
    ));
}

#[test]
fn sink_add_data_and_update_processed_till() {
    let mut state = FallibleDeltaInstructions::new(
        Bytes::from_static(b"0123"),
        Bytes::from_static(b"abcdef"),
    );
    state.add_data(1..4);
    state.update_processed_till(4);
    let delta = state.finish().unwrap();
    let mut body = Vec::new();
    delta.write_instructions(&mut body);
    assert_eq!(body, vec![3, b'b', b'c', b'd']);
    let mut state = FallibleDeltaInstructions::new(
        Bytes::from_static(b"0123"),
        Bytes::from_static(b"abcdef"),
    );
    state.add_data(2..2);
    assert!(matches!(
        state.into_result(),
        Err(DeltaError::InvalidDataSize { len: 0 })
    ));
}

#[test]
fn all_algorithms_round_trip() {
    let base_object = Bytes::from_static(b"the quick brown fox jumps over the lazy dog");
    let new_object = Bytes::from_static(b"the quick red fox leaps over the very lazy dog!");
    for algorithm in [Algorithm::Histogram, Algorithm::Myers, Algorithm::MyersMinimal] {
        let delta =
            DeltaInstructions::generate(base_object.clone(), new_object.clone(), algorithm)
                .unwrap();
        let mut body = Vec::new();
        delta.write_instructions(&mut body);
        assert_eq!(apply(base_object.as_ref(), &body), Some(new_object.to_vec()));
    }
}
