use arrow_ipc_file::format::{bytes_equal, le_bytes, write_continuation, write_message, write_trailer, EncodedData, ARROW_MAGIC};
use arrow_ipc_file::ledger::{Block, BlockLedger};
use arrow_ipc_file::tracker::DictionaryTracker;
use arrow_ipc_file::Error;

fn data(header: &[u8], body: &[u8]) -> EncodedData {
    EncodedData { ipc_message: header.to_vec(), arrow_data: body.to_vec() }
}

#[test]
fn le_bytes_are_little_endian() {
    assert_eq!(le_bytes(0x01020304), [4, 3, 2, 1]);
    assert_eq!(le_bytes(0), [0, 0, 0, 0]);
    assert_eq!(le_bytes(u32::MAX), [255, 255, 255, 255]);
    assert_eq!(le_bytes(300), 300u32.to_le_bytes());
}

#[test]
fn continuation_is_marker_then_length() {
    let mut out = vec![1u8];
    write_continuation(&mut out, 16);
    assert_eq!(out, vec![1, 0xff, 0xff, 0xff, 0xff, 16, 0, 0, 0]);
}

#[test]
fn message_is_framed_and_padded() {
    let mut out = vec![];
    let (meta, body) = write_message(&mut out, &[1, 2, 3], &[9, 9, 9, 9, 9]);
    assert_eq!((meta, body), (16, 8));
    assert_eq!(
        out,
        vec![0xff, 0xff, 0xff, 0xff, 8, 0, 0, 0, 1, 2, 3, 0, 0, 0, 0, 0, 9, 9, 9, 9, 9, 0, 0, 0]
    );
}

#[test]
fn aligned_message_gets_no_padding() {
    let mut out = vec![];
    let (meta, body) = write_message(&mut out, &[7; 8], &[5; 16]);
    assert_eq!((meta, body), (16, 16));
    assert_eq!(out.len(), 32);
    assert_eq!(&out[4..8], &[8, 0, 0, 0]);
    let (meta, body) = write_message(&mut vec![], &[], &[]);
    assert_eq!((meta, body), (8, 0));
}

#[test]
fn trailer_is_footer_length_and_magic() {
    let mut out = vec![];
    write_trailer(&mut out, &[10, 20, 30]);
    assert_eq!(out, vec![10, 20, 30, 3, 0, 0, 0, 65, 82, 82, 79, 87, 49]);
    assert_eq!(&out[7..], &ARROW_MAGIC[..]);
}

#[test]
fn bytes_equal_compares_contents() {
    assert!(bytes_equal(&[1, 2], &[1, 2]));
    assert!(!bytes_equal(&[1, 2], &[1, 3]));
    assert!(!bytes_equal(&[1], &[1, 2]));
    assert!(bytes_equal(&[], &[]));
}

#[test]
fn tracker_writes_new_skips_same_refuses_replacement() {
    let mut t = DictionaryTracker::new(true);
    assert_eq!(t.insert(1, data(&[1], &[2])), Ok(true));
    assert_eq!(t.insert(1, data(&[1], &[2])), Ok(false));
    assert_eq!(t.insert(2, data(&[1], &[2])), Ok(true));
    assert!(matches!(t.insert(1, data(&[1], &[3])), Err(Error::InvalidArgumentError(_))));
    assert_eq!(t.insert(1, data(&[1], &[2])), Ok(false));
}

#[test]
fn tracker_that_may_replace_takes_the_new_dictionary() {
    let mut t = DictionaryTracker::new(false);
    assert_eq!(t.insert(1, data(&[1], &[2])), Ok(true));
    assert_eq!(t.insert(1, data(&[1], &[3])), Ok(true));
    assert_eq!(t.insert(1, data(&[1], &[3])), Ok(false));
    assert_eq!(t.insert(1, data(&[1], &[2])), Ok(true));
}

#[test]
fn ledger_counts_and_hands_out_blocks() {
    let mut l = BlockLedger::new();
    assert_eq!(l.record_offset(), 0);
    l.advance(8);
    let b = Block { offset: 8, meta_data_length: 16, body_length: 8 };
    l.push_dictionary_block(b);
    l.advance(24);
    let c = Block { offset: 32, meta_data_length: 24, body_length: 0 };
    l.push_record_block(c);
    l.advance(24);
    assert_eq!(l.record_offset(), 56);
    assert_eq!(l.dictionary_blocks(), &vec![b]);
    assert_eq!(l.record_blocks(), &vec![c]);
    let (d, r) = l.take_all();
    assert_eq!((d, r), (vec![b], vec![c]));
    assert!(l.dictionary_blocks().is_empty());
    assert!(l.record_blocks().is_empty());
    assert_eq!(l.record_offset(), 56);
}

#[test]
fn duplicate_copies_a_message() {
    let m = data(&[1, 2], &[3]);
    let c = m.duplicate();
    assert_eq!(c.ipc_message, vec![1, 2]);
    assert_eq!(c.arrow_data, vec![3]);
}
