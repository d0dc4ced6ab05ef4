use lsm_engine::log_reader::{
    read_batches, read_log, read_physical_record, LogError, PhysicalRecord,
};
use lsm_engine::log_writter::{LogWritter, RecordType, BLOCK_SIZE, HEADER_SIZE};
use lsm_engine::write_batch::{Operation, ValueType, WriteBatch};

fn pattern(len: usize) -> Vec<u8> {
    (0..len).map(|i| (i % 251) as u8).collect()
}

fn u16_at(bytes: &[u8], at: usize) -> usize {
    bytes[at] as usize + ((bytes[at + 1] as usize) << 8)
}

fn u32_at(bytes: &[u8], at: usize) -> u32 {
    bytes[at] as u32
        + ((bytes[at + 1] as u32) << 8)
        + ((bytes[at + 2] as u32) << 16)
        + ((bytes[at + 3] as u32) << 24)
}

fn batch_with(sequence: u64, key: &[u8], value: &[u8]) -> WriteBatch {
    let mut batch = WriteBatch::new();
    batch.put(key, value);
    batch.set_sequence(sequence);
    batch
}

#[test]
fn log_constants() {
    assert_eq!(BLOCK_SIZE, 32768);
    assert_eq!(HEADER_SIZE, 7);
}

#[test]
fn record_type_bytes() {
    assert_eq!(RecordType::Zero.to_byte(), 0);
    assert_eq!(RecordType::Full.to_byte(), 1);
    assert_eq!(RecordType::First.to_byte(), 2);
    assert_eq!(RecordType::Middle.to_byte(), 3);
    assert_eq!(RecordType::Last.to_byte(), 4);
    assert_eq!(RecordType::from_byte(0), Some(RecordType::Zero));
    assert_eq!(RecordType::from_byte(1), Some(RecordType::Full));
    assert_eq!(RecordType::from_byte(2), Some(RecordType::First));
    assert_eq!(RecordType::from_byte(3), Some(RecordType::Middle));
    assert_eq!(RecordType::from_byte(4), Some(RecordType::Last));
    assert_eq!(RecordType::from_byte(5), None);
}

#[test]
fn log_small_record_bytes() {
    let mut writer = LogWritter::new();
    assert_eq!(writer.block_offset(), 0);
    let out = writer.add_payload(&[1, 2, 3]);
    assert_eq!(out, vec![1, 3, 0, 29, 121, 176, 213, 1, 2, 3]);
    assert_eq!(writer.block_offset(), 10);
}

#[test]
fn log_checksum_covers_the_type_byte() {
    // the checksum of the bytes 1, 1, 2, 3: the type byte and then the payload
    let mut writer = LogWritter::new();
    let out = writer.add_payload(&[1, 2, 3]);
    assert_eq!(u32_at(&out, 3), 0xd5b0791d);
    // the same payload as a first fragment has another checksum
    let first = &LogWritter::new().add_payload(&pattern(40000))[..7];
    let last = LogWritter::resume(32761).add_payload(&pattern(32761));
    assert_eq!(last[0], 2);
    assert_eq!(last[7], 4);
    assert_eq!(first[0], 2);
    assert_ne!(u32_at(&last, 10), u32_at(first, 3));
}

#[test]
fn log_empty_payload_takes_one_header() {
    let mut writer = LogWritter::new();
    let out = writer.add_payload(&[]);
    assert_eq!(out, vec![1, 0, 0, 108, 211, 147, 80]);
    assert_eq!(writer.block_offset(), 7);
}

#[test]
fn log_batch_record_bytes() {
    let mut writer = LogWritter::new();
    let out = writer.add_record(&batch_with(1, b"123", b"456"));
    assert_eq!(
        out,
        vec![
            1, 21, 0, 26, 227, 191, 153, 1, 0, 0, 0, 0, 0, 0, 0, 1, 0, 0, 0, 1, 3, 49, 50, 51, 3,
            52, 53, 54
        ]
    );
    assert_eq!(writer.block_offset(), 28);
}

#[test]
fn log_fragments_a_long_payload() {
    let payload = pattern(40000);
    let mut writer = LogWritter::new();
    let out = writer.add_payload(&payload);
    assert_eq!(out.len(), 32768 + 7246);
    assert_eq!(out[0], 2);
    assert_eq!(u16_at(&out, 1), 32761);
    assert_eq!(u32_at(&out, 3), 0x7cc04a7d);
    assert_eq!(&out[7..32768], &payload[..32761]);
    assert_eq!(out[32768], 4);
    assert_eq!(u16_at(&out, 32769), 7239);
    assert_eq!(u32_at(&out, 32771), 0xe0657d61);
    assert_eq!(&out[32775..], &payload[32761..]);
    assert_eq!(writer.block_offset(), 7246);
}

#[test]
fn log_fragments_over_three_blocks() {
    let payload = pattern(70000);
    let mut writer = LogWritter::new();
    let out = writer.add_payload(&payload);
    assert_eq!(out[0], 2);
    assert_eq!(out[32768], 3);
    assert_eq!(out[65536], 4);
    assert_eq!(out.len(), 70000 + 3 * 7);
    assert_eq!(read_log(&out).unwrap().records, vec![payload]);
}

#[test]
fn log_pads_the_end_of_a_block() {
    let mut writer = LogWritter::resume(32765);
    assert_eq!(writer.block_offset(), 32765);
    let out = writer.add_payload(&[1, 2, 3]);
    assert_eq!(out, vec![0, 0, 0, 1, 3, 0, 29, 121, 176, 213, 1, 2, 3]);
    assert_eq!(writer.block_offset(), 10);
}

#[test]
fn log_header_alone_at_the_end_of_a_block() {
    // seven bytes are left: the first fragment is empty
    let mut writer = LogWritter::resume(32761);
    let out = writer.add_payload(&[1, 2, 3]);
    assert_eq!(out.len(), 7 + 10);
    assert_eq!(out[0], 2);
    assert_eq!(u16_at(&out, 1), 0);
    assert_eq!(out[7], 4);
    assert_eq!(u16_at(&out, 8), 3);
    assert_eq!(&out[14..], &[1, 2, 3][..]);
    assert_eq!(writer.block_offset(), 10);
}

#[test]
fn log_record_that_fills_the_block() {
    let mut writer = LogWritter::resume(32768 - 10);
    let out = writer.add_payload(&[1, 2, 3]);
    assert_eq!(out, vec![1, 3, 0, 29, 121, 176, 213, 1, 2, 3]);
    // the block is full; the next record starts the next one, without padding
    assert_eq!(writer.block_offset(), 32768);
    let out = writer.add_payload(&[1, 2, 3]);
    assert_eq!(out, vec![1, 3, 0, 29, 121, 176, 213, 1, 2, 3]);
    assert_eq!(writer.block_offset(), 10);
}

#[test]
fn log_payload_that_fills_the_first_block() {
    let mut writer = LogWritter::new();
    let out = writer.add_payload(&pattern(32761));
    assert_eq!(out.len(), 32768);
    assert_eq!(out[0], 1);
    assert_eq!(writer.block_offset(), 32768);
    let mut batch = WriteBatch::new();
    batch.put(&pattern(32761 - 12 - 1 - 3 - 1), b"");
    assert_eq!(batch.get_data().len(), 32761);
    let mut writer = LogWritter::new();
    assert_eq!(writer.add_record(&batch).len(), 32768);
    assert_eq!(writer.block_offset(), 32768);
}

#[test]
fn log_writer_goes_on_after_a_length() {
    assert_eq!(LogWritter::resume(0).block_offset(), 0);
    assert_eq!(LogWritter::resume(1).block_offset(), 1);
    assert_eq!(LogWritter::resume(32767).block_offset(), 32767);
    assert_eq!(LogWritter::resume(32768).block_offset(), 32768);
    assert_eq!(LogWritter::resume(32769).block_offset(), 1);
    assert_eq!(LogWritter::resume(3 * 32768).block_offset(), 32768);
    assert_eq!(LogWritter::resume(3 * 32768 + 5).block_offset(), 5);
}

#[test]
fn log_round_trip_of_payloads() {
    let payloads =
        vec![pattern(10), Vec::new(), pattern(40000), pattern(32761), pattern(100000), pattern(1)];
    let mut writer = LogWritter::new();
    let mut log = Vec::new();
    for payload in &payloads {
        log.extend_from_slice(&writer.add_payload(payload));
    }
    let found = read_log(&log).unwrap();
    assert_eq!(found.records, payloads);
    assert_eq!(found.durable_len, log.len());
    assert_eq!(found.torn, false);
    assert_eq!(writer.block_offset() % 32768, log.len() % 32768);
    assert_eq!(writer.block_offset(), LogWritter::resume(log.len()).block_offset());
}

#[test]
fn log_round_trip_of_batches() {
    let mut batches = Vec::new();
    batches.push(batch_with(1, b"a", b"1"));
    batches.push(batch_with(2, b"big", &pattern(50000)));
    let mut third = WriteBatch::new();
    third.delete(b"a");
    third.put(b"b", b"2");
    third.set_sequence(3);
    batches.push(third);
    batches.push(WriteBatch::new());
    let mut writer = LogWritter::new();
    let mut log = Vec::new();
    for batch in &batches {
        log.extend_from_slice(&writer.add_record(batch));
    }
    assert!(log.len() > 32768);
    let found = read_batches(&log).unwrap();
    assert_eq!(found.batches.len(), 4);
    for (read, written) in found.batches.iter().zip(batches.iter()) {
        assert_eq!(read.get_sequence(), written.get_sequence());
        assert_eq!(read.operations(), written.operations());
        assert_eq!(read.get_data(), written.get_data());
    }
    assert_eq!(
        found.batches[2].operations(),
        vec![
            Operation { k_type: ValueType::KTypeDeletion, key: b"a".to_vec(), value: Vec::new() },
            Operation { k_type: ValueType::KTypeValue, key: b"b".to_vec(), value: b"2".to_vec() },
        ]
    );
    assert_eq!(found.durable_len, log.len());
    assert_eq!(found.torn, false);
}

#[test]
fn log_empty_reads_as_nothing() {
    let found = read_log(&[]).unwrap();
    assert_eq!(found.records, Vec::<Vec<u8>>::new());
    assert_eq!(found.durable_len, 0);
    assert_eq!(found.torn, false);
}

#[test]
fn log_torn_tail_at_every_cut() {
    let payloads = vec![pattern(100), pattern(33000)];
    let mut writer = LogWritter::new();
    let mut log = Vec::new();
    for payload in &payloads {
        log.extend_from_slice(&writer.add_payload(payload));
    }
    let before = log.len();
    log.extend_from_slice(&writer.add_payload(&pattern(40000)));
    let mut cut = before;
    while cut < log.len() {
        let found = read_log(&log[..cut]).unwrap();
        assert_eq!(found.records, payloads);
        assert_eq!(found.durable_len, before);
        assert_eq!(found.torn, cut > before);
        cut += if cut < before + 20 || cut + 20 > log.len() { 1 } else { 997 };
    }
    assert_eq!(read_log(&log).unwrap().records.len(), 3);
}

#[test]
fn log_torn_tail_inside_the_padding() {
    let mut writer = LogWritter::new();
    let mut log = writer.add_payload(&pattern(32768 - 7 - 3));
    assert_eq!(writer.block_offset(), 32765);
    let whole = log.len();
    log.extend_from_slice(&writer.add_payload(&[1, 2, 3]));
    for cut in whole..whole + 4 {
        let found = read_log(&log[..cut]).unwrap();
        assert_eq!(found.records.len(), 1);
        assert_eq!(found.durable_len, whole);
        assert_eq!(found.torn, false);
    }
    let found = read_log(&log[..whole + 4]).unwrap();
    assert_eq!(found.records.len(), 1);
    assert_eq!(found.torn, true);
    assert_eq!(read_log(&log).unwrap().records.len(), 2);
}

#[test]
fn log_torn_tail_of_batches() {
    let mut writer = LogWritter::new();
    let mut log = writer.add_record(&batch_with(1, b"a", b"1"));
    let before = log.len();
    log.extend_from_slice(&writer.add_record(&batch_with(2, b"b", b"2")));
    for cut in before..log.len() {
        let found = read_batches(&log[..cut]).unwrap();
        assert_eq!(found.batches.len(), 1);
        assert_eq!(found.batches[0].get_sequence(), 1);
        assert_eq!(found.durable_len, before);
    }
}

#[test]
fn log_failing_checksum_at_the_end_is_a_torn_tail() {
    let mut writer = LogWritter::new();
    let mut log = writer.add_payload(&[1, 2, 3]);
    log.extend_from_slice(&writer.add_payload(&[4, 5, 6]));
    let last = log.len() - 1;
    log[last] ^= 0xff;
    let found = read_log(&log).unwrap();
    assert_eq!(found.records, vec![vec![1, 2, 3]]);
    assert_eq!(found.durable_len, 10);
    assert_eq!(found.torn, true);
}

#[test]
fn log_damage_before_the_end_is_fatal() {
    let mut writer = LogWritter::new();
    let mut log = writer.add_payload(&[1, 2, 3]);
    log.extend_from_slice(&writer.add_payload(&[4, 5, 6]));
    // a payload byte of the first record
    let mut damaged = log.clone();
    damaged[8] ^= 0x01;
    assert_eq!(read_log(&damaged).err(), Some(LogError::CorruptLog));
    assert_eq!(read_batches(&damaged).err(), Some(LogError::CorruptLog));
    // the type byte of the first record: the checksum covers it
    let mut damaged = log.clone();
    damaged[0] = 2;
    assert_eq!(read_log(&damaged).err(), Some(LogError::CorruptLog));
    // a stored checksum
    let mut damaged = log.clone();
    damaged[4] ^= 0x10;
    assert_eq!(read_log(&damaged).err(), Some(LogError::CorruptLog));
    // a length that runs over the end of the block
    let mut damaged = log.clone();
    damaged[1] = 0xff;
    damaged[2] = 0xff;
    assert_eq!(read_log(&damaged).err(), Some(LogError::CorruptLog));
}

#[test]
fn log_fragments_out_of_place_are_fatal() {
    // a last fragment without a first one
    let mut writer = LogWritter::new();
    let log = writer.add_payload(&pattern(40000));
    assert_eq!(read_log(&log[32768..]).err(), Some(LogError::CorruptLog));
    // a whole record inside a fragmented one
    let mut mixed = log[..32768].to_vec();
    mixed.extend_from_slice(&LogWritter::new().add_payload(&[1, 2, 3]));
    assert_eq!(read_log(&mixed).err(), Some(LogError::CorruptLog));
    // sound records of the reserved type and of an unknown type
    assert_eq!(read_log(&[0, 0, 0, 153, 220, 22, 96]).err(), Some(LogError::CorruptLog));
    assert_eq!(read_log(&[5, 1, 0, 106, 8, 60, 240, 1]).err(), Some(LogError::CorruptLog));
}

#[test]
fn log_first_fragment_alone_is_a_torn_tail() {
    let mut writer = LogWritter::new();
    let log = writer.add_payload(&pattern(40000));
    let found = read_log(&log[..32768]).unwrap();
    assert_eq!(found.records, Vec::<Vec<u8>>::new());
    assert_eq!(found.durable_len, 0);
    assert_eq!(found.torn, true);
}

#[test]
fn log_payload_that_is_no_batch() {
    let mut writer = LogWritter::new();
    let mut log = writer.add_record(&batch_with(1, b"a", b"1"));
    log.extend_from_slice(&writer.add_payload(&[1, 2, 3]));
    assert_eq!(read_log(&log).unwrap().records.len(), 2);
    assert_eq!(read_batches(&log).err(), Some(LogError::Malformed));
}

#[test]
fn log_physical_records() {
    let mut writer = LogWritter::new();
    let log = writer.add_payload(&[1, 2, 3]);
    assert_eq!(
        read_physical_record(&log, 0, 0),
        PhysicalRecord::Record { tag: 1, start: 7, len: 3, size: 10 }
    );
    assert_eq!(read_physical_record(&log, 10, 10), PhysicalRecord::End);
    assert_eq!(read_physical_record(&log[..9], 0, 0), PhysicalRecord::Torn);
    assert_eq!(read_physical_record(&log[..5], 0, 0), PhysicalRecord::Torn);
    let mut damaged = log.clone();
    damaged[9] = 0;
    assert_eq!(read_physical_record(&damaged, 0, 0), PhysicalRecord::Torn);
    damaged.push(0);
    assert_eq!(read_physical_record(&damaged, 0, 0), PhysicalRecord::Corrupt);
    // after three bytes of padding
    let padded = LogWritter::resume(32765).add_payload(&[1, 2, 3]);
    assert_eq!(
        read_physical_record(&padded, 0, 32765),
        PhysicalRecord::Record { tag: 1, start: 10, len: 3, size: 13 }
    );
    assert_eq!(read_physical_record(&padded[..2], 0, 32765), PhysicalRecord::End);
    // a place past the end, and an offset past the block
    assert_eq!(read_physical_record(&log, 11, 0), PhysicalRecord::End);
    assert_eq!(read_physical_record(&log, 0, 32769), PhysicalRecord::Corrupt);
    assert_eq!(
        read_physical_record(&[0, 0, 0, 153, 220, 22, 96], 0, 0),
        PhysicalRecord::Record { tag: 0, start: 7, len: 0, size: 7 }
    );
}
