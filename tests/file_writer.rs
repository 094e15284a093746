use arrow_format::ipc::planus::ReadAsRoot;
use arrow_format::ipc::{
    DictionaryEncoding, DictionaryKind, Endianness, Field, FooterRef, Int, MessageHeaderRef,
    MessageRef, Schema, Type, Utf8,
};
use arrow_ipc_file::format::{EncodedData, ARROW_MAGIC};
use arrow_ipc_file::ledger::Block;
use arrow_ipc_file::writer::{EncodedDictionary, FileWriter, State};
use arrow_ipc_file::Error;

fn int32_schema() -> Schema {
    Schema {
        endianness: Endianness::Little,
        fields: Some(vec![Field {
            name: Some("x".to_string()),
            nullable: true,
            type_: Some(Type::Int(Box::new(Int { bit_width: 32, is_signed: true }))),
            dictionary: None,
            children: Some(vec![]),
            custom_metadata: None,
        }]),
        custom_metadata: None,
        features: None,
    }
}

fn dictionary_schema() -> Schema {
    Schema {
        endianness: Endianness::Little,
        fields: Some(vec![Field {
            name: Some("d".to_string()),
            nullable: true,
            type_: Some(Type::Utf8(Box::new(Utf8 {}))),
            dictionary: Some(Box::new(DictionaryEncoding {
                id: 7,
                index_type: Some(Box::new(Int { bit_width: 32, is_signed: true })),
                is_ordered: false,
                dictionary_kind: DictionaryKind::DenseArray,
            })),
            children: Some(vec![]),
            custom_metadata: None,
        }]),
        custom_metadata: None,
        features: None,
    }
}

fn int32_values(values: &[i32]) -> Vec<u8> {
    values.iter().flat_map(|v| v.to_le_bytes()).collect()
}

fn message(header: &[u8], body: &[u8]) -> EncodedData {
    EncodedData { ipc_message: header.to_vec(), arrow_data: body.to_vec() }
}

fn dictionary(id: i64, values: &[u8]) -> EncodedDictionary {
    EncodedDictionary { dict_id: id, data: message(&[0xD1, 0xC7, 0x01], values) }
}

/// The bytes of a finished file and the footer it ends with.
fn footer_of(file: &[u8]) -> &[u8] {
    let n = file.len();
    let len = i32::from_le_bytes([file[n - 10], file[n - 9], file[n - 8], file[n - 7]]) as usize;
    &file[n - 10 - len..n - 10]
}

fn blocks_of(v: arrow_format::ipc::planus::Vector<'_, arrow_format::ipc::BlockRef<'_>>) -> Vec<Block> {
    v.iter()
        .map(|b| Block {
            offset: b.offset(),
            meta_data_length: b.meta_data_length(),
            body_length: b.body_length(),
        })
        .collect()
}

#[test]
fn start_writes_magic_padding_and_schema_message() {
    let mut w = FileWriter::new(vec![], int32_schema());
    assert_eq!(w.state(), State::Unstarted);
    assert!(w.start().is_ok());
    assert_eq!(w.state(), State::Started);
    let out = w.into_inner();
    assert_eq!(&out[0..6], &ARROW_MAGIC[..]);
    assert_eq!(&out[6..8], &[0u8, 0u8]);
    assert_eq!(&out[8..12], &[0xffu8; 4]);
    let meta = i32::from_le_bytes([out[12], out[13], out[14], out[15]]) as usize;
    assert_eq!(meta % 8, 0);
    assert_eq!(out.len(), 8 + 8 + meta);
    let msg = MessageRef::read_as_root(&out[16..16 + meta]).unwrap();
    match msg.header().unwrap().unwrap() {
        MessageHeaderRef::Schema(s) => {
            let fields = s.fields().unwrap().unwrap();
            assert_eq!(fields.len(), 1);
            assert_eq!(fields.get(0).unwrap().unwrap().name().unwrap(), Some("x"));
        }
        _ => panic!("the first message is not a schema"),
    }
    assert_eq!(msg.body_length().unwrap(), 0);
    assert_eq!(msg.version().unwrap(), arrow_format::ipc::MetadataVersion::V5);
}

#[test]
fn writer_keeps_what_the_buffer_held() {
    let mut w = FileWriter::new(vec![9, 9, 9], int32_schema());
    w.start().unwrap();
    w.write(&vec![], &message(&[1, 2, 3], &[4, 5])).unwrap();
    assert_eq!(w.record_blocks()[0].offset, w.output_bytes().len() as i64 - 3 - 24);
    let out = w.into_inner();
    assert_eq!(&out[0..3], &[9u8, 9, 9]);
    assert_eq!(&out[3..9], &ARROW_MAGIC[..]);
}

#[test]
fn try_new_starts_the_file() {
    let w = FileWriter::try_new(vec![], &int32_schema()).unwrap();
    assert_eq!(w.state(), State::Started);
    assert_eq!(&w.output_bytes()[0..6], &ARROW_MAGIC[..]);
}

#[test]
fn sequence_violations_fail_and_write_nothing() {
    let mut w = FileWriter::new(vec![], int32_schema());
    let r = w.write(&vec![], &message(&[1], &[2]));
    assert!(matches!(r, Err(Error::OutOfSpec(_))));
    assert!(matches!(w.finish(), Err(Error::OutOfSpec(_))));
    assert!(w.output_bytes().is_empty());
    assert_eq!(w.state(), State::Unstarted);

    w.start().unwrap();
    let len = w.output_bytes().len();
    assert!(matches!(w.start(), Err(Error::OutOfSpec(_))));
    assert_eq!(w.output_bytes().len(), len);

    w.finish().unwrap();
    let done = w.output_bytes().clone();
    assert!(matches!(w.write(&vec![], &message(&[1], &[2])), Err(Error::OutOfSpec(_))));
    assert!(matches!(w.start(), Err(Error::OutOfSpec(_))));
    assert_eq!(w.output_bytes(), &done);
    assert_eq!(w.state(), State::Finished);
}

#[test]
fn finish_twice_fails_and_leaves_the_file() {
    let mut w = FileWriter::try_new(vec![], &int32_schema()).unwrap();
    w.write(&vec![], &message(&[1, 2], &int32_values(&[1]))).unwrap();
    assert!(w.finish().is_ok());
    let done = w.output_bytes().clone();
    assert!(matches!(w.finish(), Err(Error::OutOfSpec(_))));
    assert_eq!(w.output_bytes(), &done);
}

#[test]
fn two_int32_batches_give_two_record_blocks_in_order() {
    let mut w = FileWriter::try_new(vec![], &int32_schema()).unwrap();
    let start_len = w.output_bytes().len() as i64;
    let header = [0x10u8; 10];
    w.write(&vec![], &message(&header, &int32_values(&[1, 2, 3]))).unwrap();
    w.write(&vec![], &message(&header, &int32_values(&[4, 5]))).unwrap();
    assert_eq!(w.dictionary_blocks().len(), 0);
    let expected = vec![
        Block { offset: start_len, meta_data_length: 24, body_length: 16 },
        Block { offset: start_len + 40, meta_data_length: 24, body_length: 8 },
    ];
    assert_eq!(w.record_blocks(), &expected);
    w.finish().unwrap();
    assert!(w.record_blocks().is_empty());
    let out = w.into_inner();
    let footer = FooterRef::read_as_root(footer_of(&out)).unwrap();
    assert_eq!(blocks_of(footer.record_batches().unwrap().unwrap()), expected);
    assert_eq!(footer.dictionaries().unwrap().unwrap().len(), 0);
    assert_eq!(footer.version().unwrap(), arrow_format::ipc::MetadataVersion::V5);
    let schema = footer.schema().unwrap().unwrap();
    assert_eq!(schema.fields().unwrap().unwrap().get(0).unwrap().unwrap().name().unwrap(), Some("x"));
}

#[test]
fn same_dictionary_twice_is_written_once() {
    let mut w = FileWriter::try_new(vec![], &dictionary_schema()).unwrap();
    let values = b"abc".to_vec();
    w.write(&vec![dictionary(7, &values)], &message(&[0x20; 4], &int32_values(&[0, 0]))).unwrap();
    w.write(&vec![dictionary(7, &values)], &message(&[0x20; 4], &int32_values(&[0, 0]))).unwrap();
    assert_eq!(w.dictionary_blocks().len(), 1);
    assert_eq!(w.record_blocks().len(), 2);
    let dict = w.dictionary_blocks()[0];
    assert_eq!(w.record_blocks()[0].offset, dict.offset + 16 + 8);
    w.finish().unwrap();
    let out = w.into_inner();
    let footer = FooterRef::read_as_root(footer_of(&out)).unwrap();
    assert_eq!(footer.dictionaries().unwrap().unwrap().len(), 1);
    assert_eq!(footer.record_batches().unwrap().unwrap().len(), 2);
}

#[test]
fn replaced_dictionary_is_refused() {
    let mut w = FileWriter::try_new(vec![], &dictionary_schema()).unwrap();
    w.write(&vec![dictionary(7, b"abc")], &message(&[1], &[])).unwrap();
    let len = w.output_bytes().len();
    let r = w.write(&vec![dictionary(7, b"abd")], &message(&[1], &[]));
    assert!(matches!(r, Err(Error::InvalidArgumentError(_))));
    assert_eq!(w.output_bytes().len(), len);
    assert_eq!(w.record_blocks().len(), 1);
}

#[test]
fn blocks_locate_their_messages() {
    let mut w = FileWriter::try_new(vec![], &dictionary_schema()).unwrap();
    let batches = vec![
        (vec![dictionary(1, b"a"), dictionary(2, b"bcdefghij")], message(&[3; 13], &[4; 3])),
        (vec![dictionary(1, b"a"), dictionary(3, b"")], message(&[5; 1], &[6; 17])),
        (vec![], message(&[], &[])),
    ];
    // the dictionary with id 1 comes twice and is written only the first time
    let fresh: Vec<Vec<usize>> = vec![vec![0, 1], vec![1], vec![]];
    let mut written: Vec<(bool, EncodedData)> = vec![];
    for ((dicts, record), fresh) in batches.iter().zip(fresh.iter()) {
        let before_dicts = w.dictionary_blocks().len();
        w.write(dicts, record).unwrap();
        assert_eq!(w.dictionary_blocks().len() - before_dicts, fresh.len());
        for i in fresh {
            let d = &dicts[*i].data;
            written.push((true, message(&d.ipc_message, &d.arrow_data)));
        }
        written.push((false, message(&record.ipc_message, &record.arrow_data)));
    }
    let out = w.output_bytes().clone();
    let mut dict_blocks = w.dictionary_blocks().iter();
    let mut record_blocks = w.record_blocks().iter();
    let mut offset = 8 + 8 + i32::from_le_bytes([out[12], out[13], out[14], out[15]]) as i64;
    for (is_dict, m) in &written {
        let b = if *is_dict { dict_blocks.next() } else { record_blocks.next() }.unwrap();
        assert_eq!(b.offset, offset);
        let start = b.offset as usize;
        let meta = b.meta_data_length as usize;
        assert_eq!(&out[start..start + 4], &[0xffu8; 4]);
        assert_eq!(&out[start + 8..start + 8 + m.ipc_message.len()], &m.ipc_message[..]);
        let body = start + meta;
        assert_eq!(&out[body..body + m.arrow_data.len()], &m.arrow_data[..]);
        assert_eq!(b.body_length as usize, (m.arrow_data.len() + 7) / 8 * 8);
        offset += b.meta_data_length as i64 + b.body_length;
    }
    assert_eq!(offset as usize, out.len());
}

#[test]
fn finished_file_ends_with_footer_length_and_magic() {
    let mut w = FileWriter::try_new(vec![], &int32_schema()).unwrap();
    w.write(&vec![], &message(&[7; 9], &int32_values(&[1, 2, 3]))).unwrap();
    let before = w.output_bytes().len();
    w.finish().unwrap();
    let out = w.into_inner();
    let n = out.len();
    assert_eq!(&out[n - 6..], &ARROW_MAGIC[..]);
    assert_eq!(&out[before..before + 8], &[0xff, 0xff, 0xff, 0xff, 0, 0, 0, 0]);
    let footer = footer_of(&out);
    assert_eq!(before + 8 + footer.len() + 10, n);
    assert!(FooterRef::read_as_root(footer).is_ok());
}

#[test]
fn taking_output_in_pieces_gives_the_same_file() {
    let batches = vec![
        (vec![dictionary(4, b"xyz")], message(&[1; 5], &int32_values(&[1, 2]))),
        (vec![dictionary(4, b"xyz")], message(&[2; 12], &int32_values(&[3]))),
    ];
    let mut whole = FileWriter::try_new(vec![], &dictionary_schema()).unwrap();
    let mut pieces = FileWriter::try_new(vec![], &dictionary_schema()).unwrap();
    let mut sent = pieces.take_output();
    assert!(pieces.output_bytes().is_empty());
    for (dicts, record) in &batches {
        whole.write(dicts, record).unwrap();
        pieces.write(dicts, record).unwrap();
        sent.extend(pieces.take_output());
    }
    assert_eq!(pieces.record_blocks(), whole.record_blocks());
    assert_eq!(pieces.dictionary_blocks(), whole.dictionary_blocks());
    whole.finish().unwrap();
    pieces.finish().unwrap();
    sent.extend(pieces.take_output());
    assert_eq!(sent, whole.into_inner());
    assert!(pieces.into_inner().is_empty());
}
