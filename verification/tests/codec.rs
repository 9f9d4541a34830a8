use merkle_service::codec::{
    decode_level, decode_levels, decode_node, encode_level, encode_levels, encode_node,
    CodecError, SerializedNode,
};

fn node(data: &[u8], digest: &[u8], level: u32) -> SerializedNode {
    SerializedNode { data: data.to_vec(), digest: digest.to_vec(), level }
}

#[test]
fn node_wire_layout() {
    let n = node(&[1, 2], &[3, 4], 7);
    let bytes = encode_node(&n);
    assert_eq!(bytes, vec![4, 0, 0, 0, 7, 0, 0, 0, 1, 2, 3, 4]);
}

#[test]
fn node_round_trip_equal_lengths() {
    let n = node(&[10, 20, 30, 40], &[50, 60, 70, 80], 3);
    let bytes = encode_node(&n);
    let back = decode_node(&bytes).expect("well-formed record");
    assert_eq!(back.data, n.data);
    assert_eq!(back.digest, n.digest);
    assert_eq!(back.level, n.level);
}

#[test]
fn node_empty_round_trip() {
    let n = node(&[], &[], 0);
    let bytes = encode_node(&n);
    let back = decode_node(&bytes).expect("well-formed record");
    assert_eq!(back.data, n.data);
    assert_eq!(back.digest, n.digest);
}

#[test]
fn unequal_lengths_do_not_round_trip() {
    // The midpoint split supports only records whose data and digest have
    // the same byte length; for others the decoded fields differ from the
    // encoded ones. That documented failure is asserted here.
    let n = node(&[1, 2], &[3, 4, 5, 6], 1);
    let bytes = encode_node(&n);
    let back = decode_node(&bytes).expect("structurally valid record");
    assert_ne!(back.data, n.data);
    assert_ne!(back.digest, n.digest);
    assert_eq!(back.data, vec![1, 2, 3]);
    assert_eq!(back.digest, vec![4, 5, 6]);
}

#[test]
fn truncated_header_is_an_error() {
    let bytes: Vec<u8> = vec![1, 2, 3];
    assert_eq!(decode_node(&bytes), Err(CodecError::TruncatedHeader));
}

#[test]
fn declared_length_mismatch_is_an_error() {
    // Declares 10 bytes of payload but carries only 2.
    let bytes: Vec<u8> = vec![10, 0, 0, 0, 0, 0, 0, 0, 1, 2];
    assert_eq!(decode_node(&bytes), Err(CodecError::LengthMismatch));
    // Declares 2 bytes of payload but carries 4: trailing bytes are refused
    // by the single-record decoder.
    let bytes: Vec<u8> = vec![2, 0, 0, 0, 0, 0, 0, 0, 1, 2, 3, 4];
    assert_eq!(decode_node(&bytes), Err(CodecError::LengthMismatch));
}

#[test]
fn level_round_trip() {
    let nodes = vec![node(&[1, 2], &[3, 4], 0), node(&[5], &[6], 0), node(&[], &[], 0)];
    let bytes = encode_level(&nodes);
    let back = decode_level(&bytes).expect("well-formed level");
    assert_eq!(back.len(), 3);
    for (a, b) in nodes.iter().zip(back.iter()) {
        assert_eq!(a.data, b.data);
        assert_eq!(a.digest, b.digest);
        assert_eq!(a.level, b.level);
    }
}

#[test]
fn empty_level_round_trip() {
    let bytes = encode_level(&Vec::new());
    assert!(bytes.is_empty());
    let back = decode_level(&bytes).expect("empty level");
    assert!(back.is_empty());
}

#[test]
fn level_with_trailing_garbage_is_an_error() {
    let nodes = vec![node(&[1], &[2], 0)];
    let mut bytes = encode_level(&nodes);
    bytes.push(9);
    assert!(decode_level(&bytes).is_err());
}

#[test]
fn levels_round_trip() {
    let levels = vec![
        vec![node(&[1], &[2], 0), node(&[3], &[4], 0)],
        vec![node(&[5, 6], &[7, 8], 1)],
    ];
    let buffers = encode_levels(&levels);
    assert_eq!(buffers.len(), 2);
    let back = decode_levels(&buffers).expect("well-formed levels");
    assert_eq!(back.len(), 2);
    for (la, lb) in levels.iter().zip(back.iter()) {
        assert_eq!(la.len(), lb.len());
        for (a, b) in la.iter().zip(lb.iter()) {
            assert_eq!(a.data, b.data);
            assert_eq!(a.digest, b.digest);
            assert_eq!(a.level, b.level);
        }
    }
}

#[test]
fn levels_with_one_bad_buffer_is_an_error() {
    let levels = vec![vec![node(&[1], &[2], 0)]];
    let mut buffers = encode_levels(&levels);
    buffers.push(vec![1, 2, 3]);
    assert!(decode_levels(&buffers).is_err());
}
