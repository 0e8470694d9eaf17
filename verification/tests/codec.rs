use stark_proof::codec::{
    write_block, write_bytes, write_u16, write_u32, write_u64, write_u8, LengthPrefix,
};
use stark_proof::trace::is_trace_length;
use stark_proof::arith::{checked_pow2, floor_log2};
use stark_proof::{DeserializationError, SliceReader};

#[test]
fn integers_are_written_least_significant_byte_first() {
    let mut target = vec![0xee];
    write_u8(&mut target, 7);
    write_u16(&mut target, 0x0102);
    write_u32(&mut target, 0x03040506);
    write_u64(&mut target, 0x0708090a0b0c0d0e);
    assert_eq!(
        target,
        vec![0xee, 7, 2, 1, 6, 5, 4, 3, 0x0e, 0x0d, 0x0c, 0x0b, 0x0a, 9, 8, 7]
    );
    let mut target = Vec::new();
    write_u16(&mut target, u16::MAX);
    write_u32(&mut target, u32::MAX);
    write_u64(&mut target, u64::MAX);
    write_u64(&mut target, 1 << 32);
    assert_eq!(&target[..14], &[0xff; 14][..]);
    assert_eq!(&target[14..], &[0, 0, 0, 0, 1, 0, 0, 0][..]);
}

#[test]
fn integers_are_read_as_they_were_written() {
    for value in [0u64, 1, 0xff, 0x100, 0xdead_beef, 0x0123_4567_89ab_cdef, u64::MAX] {
        let mut target = Vec::new();
        write_u64(&mut target, value);
        write_u32(&mut target, value as u32);
        write_u16(&mut target, value as u16);
        write_u8(&mut target, value as u8);
        assert_eq!(target[..8], value.to_le_bytes());
        let mut reader = SliceReader::new(&target);
        assert_eq!(reader.read_u64(), Ok(value));
        assert_eq!(reader.read_u32(), Ok(value as u32));
        assert_eq!(reader.read_u16(), Ok(value as u16));
        assert!(reader.has_more_bytes());
        assert_eq!(reader.read_u8(), Ok(value as u8));
        assert!(!reader.has_more_bytes());
        assert_eq!(reader.read_u8(), Err(DeserializationError::UnexpectedEOF));
    }
}

#[test]
fn reading_past_the_end_is_an_underrun() {
    let source = [1u8, 2, 3];
    assert_eq!(SliceReader::new(&source).read_u32(), Err(DeserializationError::UnexpectedEOF));
    assert_eq!(SliceReader::new(&source).read_u64(), Err(DeserializationError::UnexpectedEOF));
    assert_eq!(SliceReader::new(&source).read_vec(4), Err(DeserializationError::UnexpectedEOF));
    assert_eq!(
        SliceReader::new(&source).read_vec(usize::MAX),
        Err(DeserializationError::UnexpectedEOF)
    );
    let mut reader = SliceReader::new(&source);
    assert_eq!(reader.read_u16(), Ok(0x0201));
    assert_eq!(reader.read_u16(), Err(DeserializationError::UnexpectedEOF));
    assert_eq!(reader.read_vec(1), Ok(vec![3]));
    assert_eq!(reader.read_vec(0), Ok(vec![]));
    assert_eq!(SliceReader::new(&[]).read_u8(), Err(DeserializationError::UnexpectedEOF));
}

#[test]
fn blocks_carry_their_length() {
    let mut target = Vec::new();
    write_block(&mut target, LengthPrefix::U8, &[1, 2]);
    write_block(&mut target, LengthPrefix::U16, &[3]);
    write_block(&mut target, LengthPrefix::U32, &[]);
    write_bytes(&mut target, &[9, 9]);
    assert_eq!(target, vec![2, 1, 2, 1, 0, 3, 0, 0, 0, 0, 9, 9]);
    let mut reader = SliceReader::new(&target);
    assert_eq!(reader.read_block(LengthPrefix::U8), Ok(vec![1, 2]));
    assert_eq!(reader.read_block(LengthPrefix::U16), Ok(vec![3]));
    assert_eq!(reader.read_block(LengthPrefix::U32), Ok(vec![]));
    assert_eq!(reader.read_block(LengthPrefix::U8), Err(DeserializationError::UnexpectedEOF));
    assert_eq!(LengthPrefix::U8.max_len(), 255);
    assert_eq!(LengthPrefix::U16.max_len(), 65535);
    assert_eq!(LengthPrefix::U32.max_len(), 4294967295);
}

#[test]
fn floor_log2_rounds_down() {
    assert_eq!(floor_log2(1), 0);
    assert_eq!(floor_log2(2), 1);
    assert_eq!(floor_log2(3), 1);
    assert_eq!(floor_log2(4), 2);
    assert_eq!(floor_log2(255), 7);
    assert_eq!(floor_log2(256), 8);
    assert_eq!(floor_log2((1 << 20) - 1), 19);
    assert_eq!(floor_log2(1 << 20), 20);
    assert_eq!(floor_log2(u128::MAX), 127);
    for x in 1u128..2000 {
        assert_eq!(floor_log2(x), x.ilog2());
    }
}

#[test]
fn checked_pow2_stops_at_the_word_size() {
    assert_eq!(checked_pow2(0), Some(1));
    assert_eq!(checked_pow2(3), Some(8));
    assert_eq!(checked_pow2(20), Some(1 << 20));
    assert_eq!(checked_pow2((usize::BITS - 1) as u8), Some(1 << (usize::BITS - 1)));
    assert_eq!(checked_pow2(usize::BITS as u8), None);
    assert_eq!(checked_pow2(255), None);
}

#[test]
fn trace_lengths_are_powers_of_two_from_8_on() {
    for length in 0usize..5000 {
        assert_eq!(is_trace_length(length), length >= 8 && length.is_power_of_two());
    }
    assert!(is_trace_length(1 << 20));
    assert!(!is_trace_length((1 << 20) + 1));
    assert!(!is_trace_length((1 << 20) - 1));
    assert!(is_trace_length(1 << (usize::BITS - 1)));
    assert!(!is_trace_length(usize::MAX));
}
