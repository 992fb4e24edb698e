use near_graph::codec::{decode, encode, Codec, Dup, Serilazer};
use near_graph::edge::Edge;
use near_graph::error::ComError;
use near_graph::example::MyEmpty;

fn round_trip<T: Codec + PartialEq + std::fmt::Debug>(v: T) {
    let bytes = encode(&v);
    let back: T = decode(&bytes).expect("an encoding must decode");
    assert_eq!(back, v);
}

#[test]
fn u32_round_trips_across_width_boundaries() {
    for v in [0u32, 1, 5, 250, 251, 252, 255, 256, 65535, 65536, 1_000_000, u32::MAX] {
        round_trip(v);
    }
}

#[test]
fn u64_round_trips_across_width_boundaries() {
    for v in [
        0u64,
        250,
        251,
        65535,
        65536,
        u32::MAX as u64,
        u32::MAX as u64 + 1,
        u64::MAX,
    ] {
        round_trip(v);
    }
}

#[test]
fn string_round_trips() {
    round_trip(String::new());
    round_trip(String::from("0.0.0"));
    round_trip(String::from("a longer message with spaces and \u{e9} accents"));
}

#[test]
fn edge_round_trips() {
    round_trip(Edge { from: 1u32, to: 2u32, data: MyEmpty {} });
    round_trip(Edge { from: 0u32, to: u32::MAX, data: String::from("payload") });
    round_trip(Edge { from: 7u32, to: 7u32, data: 42u64 });
}

#[test]
fn edge_list_round_trips() {
    let edges = vec![
        Edge { from: 0u32, to: 1u32, data: MyEmpty {} },
        Edge { from: 1u32, to: 2u32, data: MyEmpty {} },
        Edge { from: 2u32, to: 3u32, data: MyEmpty {} },
    ];
    round_trip(edges);
    let empty: Vec<Edge<MyEmpty>> = vec![];
    round_trip(empty);
    let strings = vec![
        Edge { from: 4u32, to: 5u32, data: String::from("x") },
        Edge { from: 5u32, to: 6u32, data: String::from("") },
    ];
    round_trip(strings);
}

#[test]
fn trailing_bytes_are_rejected() {
    let mut bytes = encode(&5u32);
    bytes.push(0);
    let r: Result<u32, ComError> = decode(&bytes);
    assert_eq!(r, Err(ComError::Codec));
}

#[test]
fn malformed_payload_is_a_codec_error() {
    // 254 is the widest width marker; a u32 decoder must refuse it, and a
    // truncated buffer cannot decode either.
    let r: Result<u32, ComError> = decode(&vec![254u8]);
    assert_eq!(r, Err(ComError::Codec));
    let r2: Result<u32, ComError> = decode(&vec![252u8, 1, 2]);
    assert_eq!(r2, Err(ComError::Codec));
}

#[test]
fn huge_claimed_string_length_is_a_codec_error() {
    // A string whose length prefix claims the whole u64 range: the claim
    // cannot fit the nine remaining bytes, so the round fails with the
    // typed error instead of attempting the allocation.
    let mut bytes = vec![253u8];
    bytes.extend_from_slice(&[0xFF; 8]);
    let r: Result<String, ComError> = decode(&bytes);
    assert_eq!(r, Err(ComError::Codec));

    // The same claim buried in an edge payload fails the same way.
    let mut edge_bytes = encode(&Edge { from: 1u32, to: 2u32, data: String::new() });
    edge_bytes.truncate(2);
    edge_bytes.push(253);
    edge_bytes.extend_from_slice(&[0xFF; 8]);
    let r2: Result<Edge<String>, ComError> = decode(&edge_bytes);
    assert_eq!(r2, Err(ComError::Codec));

    // A modest overclaim (more than the buffer holds) is refused too.
    let r3: Result<String, ComError> = decode(&vec![5u8, b'a', b'b']);
    assert_eq!(r3, Err(ComError::Codec));
}

#[test]
fn values_concatenate_and_split_exactly() {
    // Two values back to back in one buffer: each decode must consume
    // exactly its own encoding for the second to come out right.
    let mut buf: Vec<u8> = Vec::new();
    1000u32.encode_into(&mut buf);
    7u32.encode_into(&mut buf);
    String::from("tail").encode_into(&mut buf);
    let (a, p1) = u32::decode_at(&buf, 0).expect("first value");
    let (b, p2) = u32::decode_at(&buf, p1).expect("second value");
    let (c, p3) = String::decode_at(&buf, p2).expect("third value");
    assert_eq!(a, 1000);
    assert_eq!(b, 7);
    assert_eq!(c, "tail");
    assert_eq!(p3, buf.len());
}

#[test]
fn serilazer_facade_round_trips() {
    let serilazer = Serilazer::new();
    let msg = vec![10u64, 20u64];
    let encoded = serilazer.encode(msg.clone());
    let decoded: Vec<u64> = serilazer.decode(encoded).expect("round trip");
    assert_eq!(msg, decoded);
}

#[test]
fn dup_copies_exactly() {
    let e = Edge { from: 3u32, to: 9u32, data: String::from("w") };
    let d = e.dup();
    assert_eq!(e, d);
}

#[test]
fn float_scores_cross_the_boundary_as_bit_patterns() {
    // The codec moves integers; floating-point values travel as their bit
    // patterns and come back bit-exact.
    let scores = vec![1.0f32, 0.15, -3.5, f32::MIN_POSITIVE];
    let bits: Vec<u32> = scores.iter().map(|x| x.to_bits()).collect();
    let bytes = encode(&bits);
    let back: Vec<u32> = decode(&bytes).expect("round trip");
    let restored: Vec<f32> = back.into_iter().map(f32::from_bits).collect();
    assert_eq!(restored, scores);
}
