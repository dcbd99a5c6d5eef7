use shannon_fano::decode::decode_bytes;
use shannon_fano::encode::encode_bytes;

fn roundtrip(input: Vec<u8>) {
    let encoded = encode_bytes(&input);
    let decoded = decode_bytes(&encoded).expect("decode");
    assert_eq!(decoded, input);
}

#[test]
fn roundtrip_small_mixed() {
    roundtrip(b"abracadabra".to_vec());
}

#[test]
fn roundtrip_two_distinct_bytes() {
    roundtrip(vec![0u8, 255u8, 0u8, 0u8, 255u8]);
}

#[test]
fn roundtrip_all_byte_values() {
    let mut input: Vec<u8> = Vec::new();
    for round in 0..3u32 {
        for b in 0..=255u8 {
            for _ in 0..(1 + (b as u32 % (round + 1))) {
                input.push(b);
            }
        }
    }
    roundtrip(input);
}

#[test]
fn roundtrip_single_byte_input() {
    roundtrip(vec![42u8]);
}

#[test]
fn degenerate_single_distinct_byte() {
    // 1000 bytes of one value engage the degenerate one-statistic path:
    // one statistic, a one-bit placeholder code, and a lossless round trip.
    let input = vec![0x41u8; 1000];
    let stats = shannon_fano::encode::build_statistics(&input);
    assert_eq!(stats.len(), 1);
    assert_eq!(stats[0].byte, 0x41);
    assert_eq!(stats[0].count, 1000);
    roundtrip(input);
}

#[test]
fn empty_input_header_and_empty_decode() {
    // An empty input produces a valid degenerate header with an empty tree
    // and a zero-length body, and decodes back to nothing.
    let encoded = encode_bytes(&Vec::new());
    assert_eq!(encoded, vec![0u8, 0u8, 0u8, 0u8]);
    let decoded = decode_bytes(&encoded).expect("decode");
    assert!(decoded.is_empty());
}

#[test]
fn empty_compressed_stream_decodes_to_empty() {
    let decoded = decode_bytes(&Vec::new()).expect("decode");
    assert!(decoded.is_empty());
}

#[test]
fn roundtrip_exact_encode_chunk_multiple() {
    // Input length an exact multiple of the encoder's 4096-byte chunk: the
    // final chunk is still recognized and the redundant bits applied once.
    let mut input: Vec<u8> = Vec::new();
    for i in 0..4096u32 {
        input.push((i % 7) as u8);
    }
    assert_eq!(input.len() % 4096, 0);
    roundtrip(input);
    let mut input2: Vec<u8> = Vec::new();
    for i in 0..8192u32 {
        input2.push((i % 13) as u8);
    }
    assert_eq!(input2.len() % 4096, 0);
    roundtrip(input2);
}

#[test]
fn roundtrip_large_uneven_input() {
    let mut input: Vec<u8> = Vec::new();
    let mut state: u32 = 11;
    for _ in 0..10007 {
        state = state.wrapping_mul(1103515245).wrapping_add(12345);
        input.push((state >> 16) as u8);
    }
    roundtrip(input);
}

#[test]
fn header_redundant_bit_counts_in_range() {
    // Header consistency: both redundant-bit counts sit in [0, 7] and the
    // declared tree length fits the file.
    for input in [
        b"hello world".to_vec(),
        vec![9u8; 50],
        vec![0u8, 1, 2, 3],
        b"the quick brown fox jumps over the lazy dog".to_vec(),
    ] {
        let encoded = encode_bytes(&input);
        assert!(encoded.len() >= 4);
        let t = ((encoded[0] as usize) << 8) + encoded[1] as usize;
        assert!(encoded.len() >= 4 + t);
        let tree_red = encoded[2];
        let body_red = encoded[3 + t];
        assert!(tree_red <= 7);
        assert!(body_red <= 7);
    }
}

#[test]
fn truncated_header_is_malformed() {
    for len in 1..4usize {
        let input = vec![0u8; len];
        assert_eq!(
            decode_bytes(&input),
            Err(shannon_fano::DecodeError::MalformedHeader)
        );
    }
}

#[test]
fn tree_length_beyond_file_is_malformed() {
    // Declared tree length exceeds the available bytes.
    let input = vec![0xFFu8, 0xFF, 0, 1, 2, 3];
    assert_eq!(
        decode_bytes(&input),
        Err(shannon_fano::DecodeError::MalformedHeader)
    );
}

#[test]
fn truncated_leaf_byte_is_malformed() {
    // One tree byte 0x80 with 7 redundant bits leaves a single 1 bit: a
    // leaf marker whose byte value is cut short.
    let input = vec![0u8, 1, 7, 0x80, 0, 0xAA];
    assert_eq!(
        decode_bytes(&input),
        Err(shannon_fano::DecodeError::MalformedHeader)
    );
}

#[test]
fn open_child_slots_are_malformed() {
    // One tree byte 0x00 with 7 redundant bits is a single 0 bit: a
    // childless internal root, a tree bitstream that ended before its
    // queued child slots were filled.  The header is rejected before the
    // body is read, even when the body is empty.
    let input = vec![0u8, 1, 7, 0x00, 0, 0xFF];
    assert_eq!(
        decode_bytes(&input),
        Err(shannon_fano::DecodeError::MalformedHeader)
    );
    let no_body = vec![0u8, 1, 7, 0x00, 0];
    assert_eq!(
        decode_bytes(&no_body),
        Err(shannon_fano::DecodeError::MalformedHeader)
    );
}

#[test]
fn walk_off_a_leaf_root_is_out_of_range() {
    // Tree bits 1 01000010 (9 bits, 7 redundant): a lone leaf root, a full
    // tree; any body bit then walks into a child the leaf does not have.
    let input = vec![0u8, 2, 7, 0xA1, 0x00, 0, 0xFF];
    assert_eq!(
        decode_bytes(&input),
        Err(shannon_fano::DecodeError::TreeWalkOutOfRange)
    );
}

#[test]
fn walk_without_a_root_is_out_of_range() {
    // An empty tree bitstream leaves no root to walk a nonempty body from.
    let input = vec![0u8, 0, 0, 0, 0xFF];
    assert_eq!(
        decode_bytes(&input),
        Err(shannon_fano::DecodeError::TreeWalkOutOfRange)
    );
}

#[test]
fn corrupt_body_redundancy_is_malformed() {
    // A redundant-bit count larger than the final chunk's bits is rejected.
    let mut encoded = encode_bytes(&b"abc".to_vec());
    let t = ((encoded[0] as usize) << 8) + encoded[1] as usize;
    encoded[3 + t] = 250;
    assert_eq!(
        decode_bytes(&encoded),
        Err(shannon_fano::DecodeError::MalformedHeader)
    );
}

#[test]
fn exact_wire_format_of_a_one_byte_input() {
    // One byte 0x41: header [0x00, 0x03] (tree length 3), tree redundancy 5,
    // tree bits 0 1 01000001 1 01000001 packed, body redundancy 7, and a
    // one-bit body packed as one zero byte.
    let encoded = encode_bytes(&vec![0x41u8]);
    assert_eq!(
        encoded,
        vec![0x00u8, 0x03, 0x05, 0x50, 0x68, 0x20, 0x07, 0x00]
    );
    let decoded = decode_bytes(&encoded).expect("decode");
    assert_eq!(decoded, vec![0x41u8]);
}
