use huffman::bit_stream::{BitStream, Error, bin_string_LSBF, create_error};

/// The bits of `bytes` in stream order (bit 0 of byte 0 first), truncated
/// to `n` bits.
fn bits_of_bytes(bytes: &[u8], n: usize) -> Vec<bool> {
    let mut out = Vec::new();
    for k in 0..n {
        out.push((bytes[k / 8] >> (k % 8)) & 1 == 1);
    }
    out
}

/// Packs bits into bytes in stream order, unused high bits clear.
fn pack(bits: &[bool]) -> Vec<u8> {
    let mut out: Vec<u8> = Vec::new();
    for (k, &b) in bits.iter().enumerate() {
        if k % 8 == 0 {
            out.push(0);
        }
        if b {
            let last = out.len() - 1;
            out[last] |= 1 << (k % 8);
        }
    }
    out
}

#[test]
fn write_then_read_inverse_all_lengths_and_alignments() {
    let payload: [u8; 8] = [0xC5, 0x3A, 0x99, 0x0F, 0x77, 0xE1, 0x24, 0x5B];
    let prefix: [u8; 1] = [0b0110_1011];
    for offset in 0..8usize {
        for l in 0..=64usize {
            let mut w = BitStream::new(Vec::new(), false);
            w.write_bit_sequence(&prefix, offset).unwrap();
            w.write_bit_sequence(&payload, l).unwrap();
            let stored = w.flush().unwrap();

            let mut r = BitStream::new(stored, true);
            let before = r.read_bit_sequence(offset).unwrap();
            assert_eq!(before, pack(&bits_of_bytes(&prefix, offset)));
            let got = r.read_bit_sequence(l).unwrap();
            assert_eq!(got, pack(&bits_of_bytes(&payload, l)));
        }
    }
}

#[test]
fn read_past_end_returns_short_result() {
    let mut r = BitStream::new(vec![0xAB], true);
    let first = r.read_bit_sequence(16).unwrap();
    assert_eq!(first, vec![0xAB]);
    let second = r.read_bit_sequence(8).unwrap();
    assert!(second.is_empty());
    let third = r.read_bit_sequence(1).unwrap();
    assert!(third.is_empty());
}

#[test]
fn read_on_empty_stream_is_empty() {
    let mut r = BitStream::new(Vec::new(), true);
    assert!(r.read_bit_sequence(64).unwrap().is_empty());
}

#[test]
fn partial_tail_read_is_masked() {
    let mut r = BitStream::new(vec![0xFF, 0xFF], true);
    let got = r.read_bit_sequence(11).unwrap();
    assert_eq!(got, vec![0xFF, 0b0000_0111]);
    let rest = r.read_bit_sequence(11).unwrap();
    assert_eq!(rest, vec![0b0001_1111]);
}

#[test]
fn rewind_replays_the_source() {
    let mut r = BitStream::new(vec![0x12, 0x34], true);
    let a = r.read_bit_sequence(13).unwrap();
    r.rewind_read_stream().unwrap();
    let b = r.read_bit_sequence(13).unwrap();
    assert_eq!(a, b);
}

#[test]
fn wrong_direction_operations_fail() {
    let mut r = BitStream::new(vec![1, 2, 3], true);
    assert_eq!(r.write_bit_sequence(&[0xFF], 3), Err(Error::InvalidMode));
    assert_eq!(r.flush(), Err(Error::InvalidMode));
    assert_eq!(r.clear_output_file(), Err(Error::InvalidMode));

    let mut w = BitStream::new(Vec::new(), false);
    assert_eq!(w.read_bit_sequence(8), Err(Error::InvalidMode));
    assert_eq!(w.rewind_read_stream(), Err(Error::InvalidMode));
}

#[test]
fn clear_output_file_resets_the_session() {
    let mut w = BitStream::new(Vec::new(), false);
    w.write_bit_sequence(&[0xFF], 5).unwrap();
    w.clear_output_file().unwrap();
    let stored = w.flush().unwrap();
    assert!(stored.is_empty());
}

#[test]
fn flush_masks_unused_high_bits() {
    let mut w = BitStream::new(Vec::new(), false);
    w.write_bit_sequence(&[0xFF], 3).unwrap();
    let stored = w.flush().unwrap();
    assert_eq!(stored, vec![0b0000_0111]);
}

#[test]
fn bin_string_renders_low_bit_first() {
    assert_eq!(bin_string_LSBF(&[]), "");
    assert_eq!(bin_string_LSBF(&[1]), "10000000");
    assert_eq!(bin_string_LSBF(&[1, 2]), "10000000 01000000");
    assert_eq!(bin_string_LSBF(&[0x80]), "00000001");
}

#[test]
fn create_error_reports_invalid_mode() {
    assert_eq!(create_error("whatever"), Err(Error::InvalidMode));
}
