use near_graph::cluster::ClusterInfo;
use near_graph::error::ComError;
use near_graph::exchange::{deliver_message, exchange_all_ranks, RoundInbox};
use near_graph::frame::{encode_frame_header, parse_frame_header, split_message, Frame};
use near_graph::server::exchange_all_typed;

#[test]
fn frame_wire_header_round_trips() {
    // Origin rank, closing mark, payload length: little-endian, nine bytes.
    let h = encode_frame_header(3, true, 1024);
    assert_eq!(h, vec![3, 0, 0, 0, 1, 0, 4, 0, 0]);
    assert_eq!(parse_frame_header(&h), (3, true, 1024));
    let h2 = encode_frame_header(0xDEADBEEF, false, u32::MAX);
    assert_eq!(parse_frame_header(&h2), (0xDEADBEEF, false, u32::MAX));
}

#[test]
fn empty_message_is_one_closing_frame() {
    let frames = split_message(&Vec::new(), 3);
    assert_eq!(frames.len(), 1);
    assert!(frames[0].finish);
    assert_eq!(frames[0].from, 3);
    assert!(frames[0].val.is_empty());
}

#[test]
fn large_message_is_chunked_and_reassembled() {
    // Three chunks' worth of bytes plus one more: four frames, the last
    // short and closing, the payloads concatenating to the original.
    let n = 3 * 1024 * 1024 + 1;
    let msg: Vec<u8> = (0..n).map(|i| (i % 251) as u8).collect();
    let frames = split_message(&msg, 1);
    assert_eq!(frames.len(), 4);
    for (k, f) in frames.iter().enumerate() {
        assert_eq!(f.from, 1);
        assert_eq!(f.finish, k == 3);
        assert!(f.val.len() <= 1024 * 1024);
    }
    let rebuilt: Vec<u8> = frames.iter().flat_map(|f| f.val.iter().copied()).collect();
    assert_eq!(rebuilt, msg);

    // And the inbox reassembles them the same way.
    let cluster = ClusterInfo::new(2, 0);
    let mut inbox = RoundInbox::new(&cluster, Vec::new());
    deliver_message(&mut inbox, frames).expect("a fresh origin accepts its message");
    assert!(inbox.complete());
    let msgs = inbox.into_messages();
    assert_eq!(msgs[1], msg);
    assert!(msgs[0].is_empty());
}

#[test]
fn duplicate_closing_frame_is_a_protocol_violation() {
    let cluster = ClusterInfo::new(2, 0);
    let mut inbox = RoundInbox::new(&cluster, Vec::new());
    let ok = inbox.accept(Frame { val: vec![1, 2], from: 1, finish: true });
    assert_eq!(ok, Ok(()));
    // Rank 1's message is already complete: a second closing frame must
    // fail the round rather than silently continue.
    let dup = inbox.accept(Frame { val: vec![3], from: 1, finish: true });
    assert_eq!(dup, Err(ComError::Protocol));
}

#[test]
fn frame_from_outside_the_cluster_is_a_protocol_violation() {
    let cluster = ClusterInfo::new(2, 0);
    let mut inbox = RoundInbox::new(&cluster, Vec::new());
    let bad = inbox.accept(Frame { val: vec![1], from: 9, finish: false });
    assert_eq!(bad, Err(ComError::Protocol));
}

#[test]
fn interleaved_origins_assemble_independently() {
    let cluster = ClusterInfo::new(3, 0);
    let mut inbox = RoundInbox::new(&cluster, vec![9]);
    inbox.accept(Frame { val: vec![1], from: 1, finish: false }).unwrap();
    inbox.accept(Frame { val: vec![10], from: 2, finish: false }).unwrap();
    inbox.accept(Frame { val: vec![2], from: 1, finish: true }).unwrap();
    assert!(!inbox.complete());
    inbox.accept(Frame { val: vec![20], from: 2, finish: true }).unwrap();
    assert!(inbox.complete());
    let msgs = inbox.into_messages();
    assert_eq!(msgs, vec![vec![9], vec![1, 2], vec![10, 20]]);
}

#[test]
fn round_trip_two_ranks() {
    // Every rank receives, at index i, exactly the bytes rank i addressed
    // to it; the slot for the rank itself comes back unchanged.
    let a = vec![1u8, 2, 3];
    let b = vec![4u8];
    let c: Vec<u8> = vec![];
    let d = vec![5u8, 6];
    let msgs = vec![vec![a.clone(), b.clone()], vec![c.clone(), d.clone()]];
    let out = exchange_all_ranks(&msgs);
    assert_eq!(out[0], vec![a, c]);
    assert_eq!(out[1], vec![b, d]);
}

#[test]
fn round_trip_three_ranks_with_empty_messages() {
    let msgs: Vec<Vec<Vec<u8>>> = (0..3)
        .map(|i| (0..3).map(|j| if i == j { vec![] } else { vec![(10 * i + j) as u8] }).collect())
        .collect();
    let out = exchange_all_ranks(&msgs);
    for j in 0..3 {
        for i in 0..3 {
            assert_eq!(out[j][i], msgs[i][j], "slot {i} at rank {j}");
        }
    }
}

#[test]
fn typed_round_trip_across_ranks() {
    // Structured values (two integers and a string per record) survive the
    // composed encode / frame-exchange / decode path, rank to rank.
    let record = |a: u32, b: u32, s: &str| near_graph::edge::Edge {
        from: a,
        to: b,
        data: s.to_string(),
    };
    let msgs = vec![
        vec![record(1, 2, "one to one"), record(3, 4, "one to two")],
        vec![record(5, 6, ""), record(7, 8, "two to two")],
    ];
    let out = exchange_all_typed(&msgs);
    assert_eq!(out[0], vec![record(1, 2, "one to one"), record(5, 6, "")]);
    assert_eq!(out[1], vec![record(3, 4, "one to two"), record(7, 8, "two to two")]);
}
