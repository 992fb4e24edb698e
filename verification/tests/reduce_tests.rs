use near_graph::codec::{decode, encode};
use near_graph::exchange::exchange_all_ranks;
use near_graph::graph::{MaxVid, SumEid};
use near_graph::server::{reduce_values, MyMpi};
use near_graph::server::LoopbackComm;

#[test]
fn loopback_reduce_returns_the_contribution() {
    let comm = LoopbackComm::new();
    assert_eq!(comm.partitions(), 1);
    assert_eq!(comm.get_cluster_info().rank, 0);
    assert_eq!(comm.reduce(17u32, &MaxVid), Ok(17u32));
    assert_eq!(comm.reduce(41u64, &SumEid), Ok(41u64));
}

#[test]
fn loopback_send_recv_returns_the_messages() {
    let comm = LoopbackComm::new();
    let out = comm.send_recv(vec![123u64]).expect("loopback round");
    assert_eq!(out, vec![123u64]);
}

/// Every rank broadcasts its value, folds what arrives in rank order, and
/// all ranks agree on the fold of all contributions.
fn simulate_reduce(values: &[u32]) -> Vec<u32> {
    let n = values.len();
    let msgs: Vec<Vec<Vec<u8>>> =
        values.iter().map(|v| (0..n).map(|_| encode(v)).collect()).collect();
    let recv = exchange_all_ranks(&msgs);
    recv.into_iter()
        .map(|rows| {
            let vals: Vec<u32> = rows.iter().map(|b| decode(b).expect("a contribution")).collect();
            reduce_values(vals, &MaxVid)
        })
        .collect()
}

#[test]
fn reduction_agrees_across_ranks_with_max() {
    let results = simulate_reduce(&[5, 17, 9]);
    assert_eq!(results, vec![17, 17, 17]);
    let results2 = simulate_reduce(&[42]);
    assert_eq!(results2, vec![42]);
}

#[test]
fn reduction_with_sum_matches_the_total() {
    let values = [3u64, 0, 25, 14];
    let n = values.len();
    let msgs: Vec<Vec<Vec<u8>>> =
        values.iter().map(|v| (0..n).map(|_| encode(v)).collect()).collect();
    let recv = exchange_all_ranks(&msgs);
    for rows in recv {
        let vals: Vec<u64> = rows.iter().map(|b| decode(b).expect("a contribution")).collect();
        assert_eq!(reduce_values(vals, &SumEid), 42u64);
    }
}

#[test]
fn fold_is_order_independent() {
    // The combiner laws make the fold independent of arrival order.
    let a = reduce_values(vec![1u32, 9, 4, 9, 2], &MaxVid);
    let b = reduce_values(vec![9u32, 2, 9, 1, 4], &MaxVid);
    assert_eq!(a, b);
    assert_eq!(a, 9);
    let c = reduce_values(vec![1u64, 2, 3], &SumEid);
    let d = reduce_values(vec![3u64, 1, 2], &SumEid);
    assert_eq!(c, d);
    assert_eq!(c, 6);
}

#[test]
fn sum_wraps_on_overflow() {
    assert_eq!(reduce_values(vec![u64::MAX, 1u64], &SumEid), 0u64);
    assert_eq!(reduce_values(vec![1u64, u64::MAX, 2], &SumEid), 2u64);
}
