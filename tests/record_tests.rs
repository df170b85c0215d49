use mrecordlog::record::{MultiPlexedRecord, MultiRecord, RecordType};

fn collect_items<'a>(mut record: MultiRecord<'a>) -> Vec<(u64, &'a [u8])> {
    let mut items = Vec::new();
    while let Some(item) = record.next() {
        items.push(item.expect("Deserializing item should work"));
    }
    items
}

#[test]
fn test_record_type_serialize() {
    let mut num_record_types = 0;
    for code in 0u8..=255u8 {
        if let Ok(record_type) = RecordType::try_from(code) {
            assert_eq!(record_type.code(), code);
            num_record_types += 1;
        }
    }
    assert_eq!(num_record_types, 4);
}

#[test]
fn test_multirecord_deserialization_ok() {
    let mut buffer: Vec<u8> = vec![];
    MultiRecord::serialize(&[b"123".as_slice(), b"4567".as_slice()], 5, &mut buffer);
    match MultiRecord::new(&buffer) {
        Err(_) => panic!("Parsing serialized buffers should work"),
        Ok(record) => {
            let items = collect_items(record);
            assert_eq!(
                items,
                vec![(5u64, b"123".as_slice()), (6u64, b"4567".as_slice())]
            );
        }
    }
}

#[test]
fn test_multirecord_deserialization_corruption() {
    let mut buffer: Vec<u8> = vec![];
    MultiRecord::serialize(&[b"123".as_slice(), b"4567".as_slice()], 5, &mut buffer);
    for num_truncated_bytes in 1..buffer.len() {
        let _ = MultiRecord::new(&buffer[..buffer.len() - num_truncated_bytes]);
    }
}

#[test]
fn test_multiplexedrecord_deserialization_ok() {
    let mut buffer_multirecord: Vec<u8> = vec![];
    MultiRecord::serialize(&[b"123".as_slice()], 2, &mut buffer_multirecord);
    let record = MultiPlexedRecord::AppendRecords {
        queue: "queue_name",
        position: 10,
        records: MultiRecord::new_unchecked(&buffer_multirecord),
    };
    let mut buffer_multiplexed: Vec<u8> = vec![];
    record.serialize(&mut buffer_multiplexed);
    match MultiPlexedRecord::deserialize(&buffer_multiplexed) {
        None => panic!("Deserialization should work"),
        Some(parsed_record) => assert_eq!(parsed_record, record),
    }
}

#[test]
fn test_multiplexedrecord_deserialization_corruption() {
    let mut buffer_multirecord: Vec<u8> = vec![];
    MultiRecord::serialize(&[b"123".as_slice()], 2, &mut buffer_multirecord);
    let record = MultiPlexedRecord::AppendRecords {
        queue: "queue_name",
        position: 10,
        records: MultiRecord::new_unchecked(&buffer_multirecord),
    };
    let mut buffer_multiplexed: Vec<u8> = vec![];
    record.serialize(&mut buffer_multiplexed);
    for num_truncated_bytes in 1..buffer_multiplexed.len() {
        let _ = MultiPlexedRecord::deserialize(
            &buffer_multiplexed[..buffer_multiplexed.len() - num_truncated_bytes],
        );
    }
}

#[test]
fn blob_bytes_are_little_endian() {
    let mut buffer: Vec<u8> = vec![];
    MultiRecord::serialize(&[b"ab".as_slice()], 0x0102, &mut buffer);
    assert_eq!(buffer, vec![0x02, 0x01, 0, 0, 0, 0, 0, 0, 2, 0, 0, 0, b'a', b'b']);
}

#[test]
fn empty_blob_is_valid() {
    let mut buffer: Vec<u8> = vec![1, 2, 3];
    MultiRecord::serialize(&[], 7, &mut buffer);
    assert!(buffer.is_empty());
    let record = MultiRecord::new(&buffer).expect("empty blob");
    assert!(collect_items(record).is_empty());
}

#[test]
fn blob_prefix_inside_item_is_rejected() {
    let mut buffer: Vec<u8> = vec![];
    MultiRecord::serialize(&[b"123".as_slice(), b"4567".as_slice()], 5, &mut buffer);
    let first_item_len = 12 + 3;
    for len in 1..buffer.len() {
        let result = MultiRecord::new(&buffer[..len]);
        if len == first_item_len {
            let items = collect_items(result.expect("item boundary"));
            assert_eq!(items, vec![(5u64, b"123".as_slice())]);
        } else {
            assert!(result.is_err());
        }
    }
}

#[test]
fn reading_past_a_cut_reports_corruption_once() {
    let buffer: Vec<u8> = vec![1, 2, 3];
    let mut record = MultiRecord::new_unchecked(&buffer);
    assert!(matches!(record.next(), Some(Err(_))));
    assert!(record.next().is_none());
}

#[test]
fn frame_layout_of_truncate() {
    let record = MultiPlexedRecord::Truncate { queue: "q", position: 3 };
    let mut buffer = vec![9u8; 4];
    record.serialize(&mut buffer);
    assert_eq!(buffer, vec![1, 3, 0, 0, 0, 0, 0, 0, 0, 1, 0, b'q']);
}

#[test]
fn every_kind_round_trips() {
    let mut blob: Vec<u8> = vec![];
    MultiRecord::serialize(&[b"x".as_slice(), b"".as_slice()], 4, &mut blob);
    let records = [
        MultiPlexedRecord::AppendRecords { queue: "éq", position: 4, records: MultiRecord::new_unchecked(&blob) },
        MultiPlexedRecord::Truncate { queue: "a", position: u64::MAX },
        MultiPlexedRecord::RecordPosition { queue: "", position: 0 },
        MultiPlexedRecord::DeleteQueue { queue: "queue", position: 77 },
    ];
    for record in records.iter() {
        let mut buffer = vec![];
        record.serialize(&mut buffer);
        assert_eq!(MultiPlexedRecord::deserialize(&buffer), Some(*record));
    }
}

#[test]
fn frame_prefix_shorter_than_header_and_name_is_rejected() {
    let record = MultiPlexedRecord::DeleteQueue { queue: "queue", position: 77 };
    let mut buffer = vec![];
    record.serialize(&mut buffer);
    for len in 0..buffer.len() {
        assert_eq!(MultiPlexedRecord::deserialize(&buffer[..len]), None);
    }
}

#[test]
fn frame_with_unknown_tag_or_bad_name_is_rejected() {
    let mut buffer = vec![];
    MultiPlexedRecord::Truncate { queue: "q", position: 1 }.serialize(&mut buffer);
    let mut unknown = buffer.clone();
    unknown[0] = 5;
    assert_eq!(MultiPlexedRecord::deserialize(&unknown), None);
    let mut bad_name = buffer.clone();
    bad_name[11] = 0xff;
    assert_eq!(MultiPlexedRecord::deserialize(&bad_name), None);
    let mut trailing = buffer.clone();
    trailing.push(42);
    assert_eq!(
        MultiPlexedRecord::deserialize(&trailing),
        Some(MultiPlexedRecord::Truncate { queue: "q", position: 1 })
    );
}
