use huffman::bit_stream::Error;
use huffman::codec::{
    HuffmanDecoder, HuffmanEncoder, parse_frequency_table, serialize_frequency_table,
};

fn round_trip(input: &[u8]) {
    let owned: Vec<u8> = input.to_vec();
    let encoded = HuffmanEncoder::encode(&owned).unwrap();
    let decoded = HuffmanDecoder::decode(&encoded).unwrap();
    assert_eq!(decoded, owned);
}

#[test]
fn round_trip_empty() {
    round_trip(&[]);
}

#[test]
fn round_trip_single_byte() {
    round_trip(&[0x42]);
}

#[test]
fn round_trip_all_identical() {
    round_trip(&[7u8; 1000]);
}

#[test]
fn round_trip_all_256_values() {
    let mut input = Vec::new();
    for v in 0..=255u8 {
        input.push(v);
        input.push(v);
        input.push(255 - v);
    }
    round_trip(&input);
}

#[test]
fn round_trip_mixed_text() {
    round_trip(b"the quick brown fox jumps over the lazy dog 0123456789");
}

#[test]
fn empty_input_encodes_to_bare_header() {
    let encoded = HuffmanEncoder::encode(&Vec::new()).unwrap();
    assert_eq!(encoded.len(), 1024);
    assert!(encoded.iter().all(|&b| b == 0));
}

#[test]
fn single_symbol_input_has_empty_body() {
    let encoded = HuffmanEncoder::encode(&vec![b'a'; 4]).unwrap();
    assert_eq!(encoded.len(), 1024);
    let decoded = HuffmanDecoder::decode(&encoded).unwrap();
    assert_eq!(decoded, vec![b'a'; 4]);
}

#[test]
fn two_symbol_codes_are_one_bit() {
    // eight symbols, two distinct values: the body must be exactly one byte
    let input = b"abababab".to_vec();
    let encoded = HuffmanEncoder::encode(&input).unwrap();
    assert_eq!(encoded.len(), 1025);
    let decoded = HuffmanDecoder::decode(&encoded).unwrap();
    assert_eq!(decoded, input);
}

#[test]
fn concrete_scenario_aaab() {
    let input = b"aaab".to_vec();
    let encoded = HuffmanEncoder::encode(&input).unwrap();
    // 1024-byte header followed by four bits packed into one byte
    assert_eq!(encoded.len(), 1025);
    let a = b'a' as usize;
    let b = b'b' as usize;
    assert_eq!(&encoded[4 * a..4 * a + 4], &3u32.to_le_bytes());
    assert_eq!(&encoded[4 * b..4 * b + 4], &1u32.to_le_bytes());
    for v in 0..256usize {
        if v != a && v != b {
            assert_eq!(&encoded[4 * v..4 * v + 4], &[0u8; 4]);
        }
    }
    // `b` is the lighter leaf, so it takes the 0 branch and `a` the 1:
    // the body "aaab" is the bits 1,1,1,0 packed low-bit-first.
    assert_eq!(encoded[1024], 0b0000_0111);
    let decoded = HuffmanDecoder::decode(&encoded).unwrap();
    assert_eq!(decoded, input);
}

#[test]
fn frequency_table_round_trips() {
    let mut table: Vec<u32> = Vec::new();
    for i in 0..256u32 {
        table.push(match i % 4 {
            0 => 0,
            1 => u32::MAX,
            2 => i * 7919,
            _ => 1,
        });
    }
    let header = serialize_frequency_table(&table);
    assert_eq!(header.len(), 1024);
    let parsed = parse_frequency_table(&header).unwrap();
    assert_eq!(parsed, table);
}

#[test]
fn frequency_table_all_zero_and_all_max() {
    let zeros = vec![0u32; 256];
    assert_eq!(
        parse_frequency_table(&serialize_frequency_table(&zeros)).unwrap(),
        zeros
    );
    let maxed = vec![u32::MAX; 256];
    assert_eq!(
        parse_frequency_table(&serialize_frequency_table(&maxed)).unwrap(),
        maxed
    );
}

#[test]
fn short_header_is_malformed() {
    assert_eq!(
        parse_frequency_table(&vec![0u8; 10]),
        Err(Error::MalformedHeader)
    );
    assert_eq!(
        HuffmanDecoder::decode(&vec![0u8; 100]),
        Err(Error::MalformedHeader)
    );
    assert_eq!(HuffmanDecoder::decode(&Vec::new()), Err(Error::MalformedHeader));
}

#[test]
fn truncated_body_is_malformed() {
    // the table promises two symbols but the body holds no bits
    let mut table = vec![0u32; 256];
    table[0] = 1;
    table[1] = 1;
    let header = serialize_frequency_table(&table);
    assert_eq!(HuffmanDecoder::decode(&header), Err(Error::MalformedHeader));
}

#[test]
fn decode_ignores_padding_bits() {
    // body of "aaab" is four bits; the other four bits of its byte are
    // padding, which the count-driven decoder must not turn into symbols
    let input = b"aaab".to_vec();
    let encoded = HuffmanEncoder::encode(&input).unwrap();
    let decoded = HuffmanDecoder::decode(&encoded).unwrap();
    assert_eq!(decoded.len(), 4);
}

#[test]
fn all_zero_table_decodes_to_empty_even_with_body() {
    let mut data = vec![0u8; 1024];
    data.push(0xFF);
    assert_eq!(HuffmanDecoder::decode(&data).unwrap(), Vec::<u8>::new());
}
