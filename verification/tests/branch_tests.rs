//! Tests of `Branch`: reading, editing and identity.

use weaver::branch::Branch;
use weaver::error::{ErrorKind, IoError};

fn branch(bytes: &[u8]) -> Branch {
    Branch::from_bytes(bytes.to_vec())
}

#[test]
fn branch_holds_the_bytes_it_was_made_from() {
    let b = branch(b"hello");
    assert_eq!(b.byte_len(), 5);
    assert_eq!(b.materialize(), b"hello");
    assert_eq!(branch(b"").byte_len(), 0);
    assert_eq!(branch(b"").materialize(), b"");
}

#[test]
fn branch_read_at_is_cut_off_at_the_end() {
    let b = branch(b"hello");
    assert_eq!(b.read_at(1, 3), b"ell");
    assert_eq!(b.read_at(3, 10), b"lo");
    assert_eq!(b.read_at(5, 1), b"");
    assert_eq!(b.read_at(u64::MAX, 4), b"");
    assert_eq!(b.read_at(2, 0), b"");
}

#[test]
fn branch_read_at_crosses_pieces_of_an_edited_branch() {
    let b = branch(b"abcdef").splice(2, 2, b"XYZ").unwrap();
    assert_eq!(b.materialize(), b"abXYZef");
    assert_eq!(b.read_at(1, 5), b"bXYZe");
}

#[test]
fn branch_read_byte_in_and_out_of_bounds() {
    let b = branch(b"ab");
    assert_eq!(b.read_byte(0), Ok(b'a'));
    assert_eq!(b.read_byte(1), Ok(b'b'));
    assert_eq!(b.read_byte(2), Err(IoError::OutOfBounds));
}

#[test]
fn branch_splice_leaves_the_origin_alone() {
    let b = branch(b"hello world");
    let edited = b.splice(0, 5, b"HI").unwrap();
    assert_eq!(edited.materialize(), b"HI world");
    assert_eq!(b.materialize(), b"hello world");
    assert!(!edited.same_branch(&b));
}

#[test]
fn branch_splice_undone_by_the_reverse_splice() {
    let b = branch(b"hello world");
    let edited = b.splice(3, 5, b"-").unwrap();
    assert_eq!(edited.materialize(), b"hel-rld");
    let undone = edited.splice(3, 1, b"lo wo").unwrap();
    assert_eq!(undone.materialize(), b.materialize());
}

#[test]
fn branch_splice_rejects_what_reaches_past_the_end() {
    let b = branch(b"abc");
    assert_eq!(b.splice(2, 2, b"x").err(), Some(IoError::OutOfBounds));
    assert_eq!(b.splice(4, 0, b"x").err(), Some(IoError::OutOfBounds));
    assert_eq!(b.splice(u64::MAX, 2, b"").err(), Some(IoError::OffsetOverflow));
    // Nothing to delete and nothing to insert is nowhere out of bounds.
    assert_eq!(b.splice(9, 0, b"").unwrap().materialize(), b"abc");
}

#[test]
fn branch_insert_before_start_middle_and_end() {
    let b = branch(b"abc");
    assert_eq!(b.insert_before(0, b"_").unwrap().materialize(), b"_abc");
    assert_eq!(b.insert_before(1, b"_").unwrap().materialize(), b"a_bc");
    assert_eq!(b.insert_before(3, b"_").unwrap().materialize(), b"abc_");
    assert_eq!(b.insert_before(4, b"_").err(), Some(IoError::OutOfBounds));
}

#[test]
fn branch_identity_is_not_equality_of_bytes() {
    let a = branch(b"same");
    let b = branch(b"same");
    assert!(a.same_branch(&a.clone()));
    assert!(!a.same_branch(&b));
}

#[test]
fn io_errors_say_what_went_wrong() {
    assert_eq!(IoError::OutOfBounds.to_string(), "offset or range exceeds branch length");
    assert_eq!(IoError::OffsetOverflow.to_string(), "offset arithmetic overflowed u64");
    assert_eq!(
        IoError::InvertedRange { start: 40, end: 7 }.to_string(),
        "normalised_range is inverted: start (40) > end (7)"
    );
    assert_eq!(
        IoError::RangePastView { end: 123, view_len: 0 }.to_string(),
        "normalised_range.end (123) exceeds view length (0)"
    );
    assert_eq!(IoError::OffsetOverflow.kind(), ErrorKind::InvalidInput);
}
