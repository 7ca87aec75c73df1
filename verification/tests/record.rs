use actionkv::fault::Fault;
use actionkv::record::{encode, process_record, read_slot, seal, unseal, KeyValuePair};

/// A byte string one byte longer than a length field can say. It takes 4 GiB
/// of address space; where the allocator refuses that, there is none.
fn oversized() -> Option<Vec<u8>> {
    let len = (u32::MAX as usize) + 1;
    let mut probe: Vec<u8> = Vec::new();
    if probe.try_reserve_exact(len).is_err() {
        return None;
    }
    drop(probe);
    Some(vec![0u8; len])
}

fn frame_of_digits() -> Vec<u8> {
    let mut bytes: Vec<u8> = vec![0x80, 0x76, 0x5e, 0x76, 5, 0, 0, 0, 4, 0, 0, 0];
    bytes.extend_from_slice(b"123456789");
    bytes
}

#[test]
fn encode_lays_out_header_and_payload() {
    assert_eq!(encode(b"12345", b"6789"), Ok(frame_of_digits()));
}

#[test]
fn encode_of_empty_record_is_a_bare_header() {
    assert_eq!(
        encode(b"", b""),
        Ok(vec![0xff, 0xff, 0xff, 0xff, 0, 0, 0, 0, 0, 0, 0, 0])
    );
}

#[test]
fn seal_writes_fields_least_significant_byte_first() {
    assert_eq!(
        seal(0x0102_0304, 0x0a0b_0c0d, 1, b"x"),
        vec![4, 3, 2, 1, 0x0d, 0x0c, 0x0b, 0x0a, 1, 0, 0, 0, b'x']
    );
}

#[test]
fn process_record_reads_back_what_encode_wrote() {
    let bytes = encode(b"key", b"value").unwrap();
    assert_eq!(
        process_record(&bytes, 0),
        Ok(KeyValuePair { key: b"key".to_vec(), value: b"value".to_vec() })
    );
}

#[test]
fn process_record_reads_at_an_offset() {
    let mut bytes = encode(b"a", b"1").unwrap();
    bytes.extend_from_slice(&encode(b"bb", b"").unwrap());
    assert_eq!(
        process_record(&bytes, 14),
        Ok(KeyValuePair { key: b"bb".to_vec(), value: Vec::new() })
    );
}

#[test]
fn process_record_on_short_header_is_end_of_log() {
    let bytes = frame_of_digits();
    assert_eq!(process_record(&bytes[..11], 0), Err(Fault::EndOfLog));
    assert_eq!(process_record(&[], 0), Err(Fault::EndOfLog));
}

#[test]
fn process_record_on_short_payload_is_end_of_log() {
    let bytes = frame_of_digits();
    assert_eq!(process_record(&bytes[..bytes.len() - 1], 0), Err(Fault::EndOfLog));
    assert_eq!(process_record(&bytes[..12], 0), Err(Fault::EndOfLog));
}

#[test]
fn process_record_past_the_end_is_end_of_log() {
    let bytes = frame_of_digits();
    assert_eq!(process_record(&bytes, 21), Err(Fault::EndOfLog));
    assert_eq!(process_record(&bytes, 22), Err(Fault::EndOfLog));
    assert_eq!(process_record(&bytes, u64::MAX), Err(Fault::EndOfLog));
}

#[test]
fn process_record_rejects_a_wrong_checksum() {
    let mut bytes = frame_of_digits();
    bytes[0] ^= 1;
    assert_eq!(process_record(&bytes, 0), Err(Fault::Corrupt));
}

#[test]
fn every_flipped_payload_bit_is_detected() {
    let clean = encode(b"key", b"value").unwrap();
    for at in 12..clean.len() {
        for bit in 0..8 {
            let mut damaged = clean.clone();
            damaged[at] ^= 1 << bit;
            assert_eq!(process_record(&damaged, 0), Err(Fault::Corrupt));
        }
    }
}

#[test]
fn read_slot_borrows_the_payload() {
    let bytes = frame_of_digits();
    let raw = read_slot(&bytes, 0).unwrap();
    assert_eq!(raw.sum, 0x765e_7680);
    assert_eq!(raw.key_len, 5);
    assert_eq!(raw.payload, b"123456789");
    assert!(read_slot(&bytes, 1).is_none());
}

#[test]
fn unseal_goes_by_the_checksum_it_is_given() {
    let bytes = frame_of_digits();
    let raw = read_slot(&bytes, 0).unwrap();
    assert_eq!(
        unseal(&raw, 0x765e_7680),
        Ok(KeyValuePair { key: b"12345".to_vec(), value: b"6789".to_vec() })
    );
    assert_eq!(unseal(&raw, 0x765e_7681), Err(Fault::Corrupt));
}

#[test]
fn encode_refuses_a_key_beyond_the_length_field() {
    if let Some(big) = oversized() {
        assert_eq!(encode(&big, b""), Err(Fault::TooLarge));
        assert_eq!(encode(b"", &big), Err(Fault::TooLarge));
    }
}
