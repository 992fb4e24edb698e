use near_graph::cluster::ClusterInfo;
use near_graph::codec::{decode, encode};
use near_graph::edge::Edge;
use near_graph::error::ComError;
use near_graph::example::MyEmpty;
use near_graph::exchange::exchange_all_ranks;
use near_graph::graph::{
    bucket_edges, vertex_count_from_max, Graph, GraphInfo, NearGraph, Pratition, SeqPartition,
    SeqSPartition,
};
use near_graph::server::LoopbackComm;

fn e(from: u32, to: u32) -> Edge<MyEmpty> {
    Edge { from, to, data: MyEmpty {} }
}

#[test]
fn boundaries_follow_the_chunk_formula() {
    // chunk = ceil(10 / 3) = 4: ranges [0,4), [4,8), [8,10).
    let gi = GraphInfo { vertex_num: 10, edge_num: 0 };
    let ci = ClusterInfo::new(3, 1);
    let part = SeqSPartition::new(Vec::new(), &gi, &ci);
    assert_eq!(part.vertex_partition(&0), 0);
    assert_eq!(part.vertex_partition(&3), 0);
    assert_eq!(part.vertex_partition(&4), 1);
    assert_eq!(part.vertex_partition(&7), 1);
    assert_eq!(part.vertex_partition(&8), 2);
    assert_eq!(part.vertex_partition(&9), 2);
    assert_eq!(part.start_id(), 4);
    assert_eq!(part.end_id(), 8);
    assert_eq!(part.edge_partition(&e(7, 2)), 1);
}

#[test]
fn every_vertex_below_the_count_has_an_owner() {
    for (v, p) in [(4u32, 2usize), (10, 3), (1, 1), (7, 7), (100, 9)] {
        let gi = GraphInfo { vertex_num: v, edge_num: 0 };
        let ci = ClusterInfo::new(p, 0);
        let part = SeqSPartition::new(Vec::new(), &gi, &ci);
        for vid in 0..v {
            let owner = part.vertex_partition(&vid);
            assert!(owner < p, "vertex {vid} of {v} got rank {owner} of {p}");
        }
    }
}

#[test]
fn small_vertex_counts_leave_top_ranks_empty() {
    // One vertex over three ranks: the bounds are capped at the count, so
    // the ranges stay non-decreasing and the two top ranks own nothing.
    let gi = GraphInfo { vertex_num: 1, edge_num: 0 };
    for r in 0..3 {
        let part = SeqSPartition::new(Vec::new(), &gi, &ClusterInfo::new(3, r));
        let (s, e) = (part.start_id(), part.end_id());
        assert!(s <= e && e <= 1, "rank {r} owns [{s},{e})");
    }
    let part0 = SeqSPartition::new(Vec::new(), &gi, &ClusterInfo::new(3, 0));
    assert_eq!(part0.vertex_partition(&0), 0);
    assert_eq!(part0.end_id(), 1);
}

#[test]
fn single_rank_build_assembles_a_symmetric_table() {
    let comm = LoopbackComm::new();
    let edges = vec![e(0, 1), e(1, 2), e(2, 3)];
    let graph: NearGraph<MyEmpty, SeqSPartition> =
        NearGraph::new(edges, &comm).expect("a loopback build succeeds");
    assert_eq!(graph.graph_info.vertex_num, 4);
    assert_eq!(graph.graph_info.edge_num, 3);
    assert_eq!(graph.local_vertexs(), 4);

    // Undirected by construction: each edge appears in both slots.
    let nbrs1: Vec<u32> = graph.nbr(1).iter().map(|n| n.to).collect();
    assert_eq!(nbrs1, vec![0, 2]);
    let nbrs0: Vec<u32> = graph.nbr(0).iter().map(|n| n.to).collect();
    assert_eq!(nbrs0, vec![1]);
    let nbrs3: Vec<u32> = graph.nbr(3).iter().map(|n| n.to).collect();
    assert_eq!(nbrs3, vec![2]);

    // One rank owns everything: degrees cover the whole table and agree
    // with the adjacency slots.
    let degrees = graph.degrees();
    assert_eq!(degrees, vec![1, 2, 2, 1]);
    for v in 0..4usize {
        assert_eq!(degrees[v] as usize, graph.nbr(v).len());
    }

    let arr = graph.get_array(7u32);
    assert_eq!(arr, vec![7, 7, 7, 7]);
    assert_eq!(graph.partition().start_id(), 0);
    assert_eq!(graph.partition().end_id(), 4);
}

#[test]
fn self_loop_is_routed_once_and_materialized_twice() {
    let comm = LoopbackComm::new();
    let graph: NearGraph<MyEmpty, SeqSPartition> =
        NearGraph::new(vec![e(1, 1)], &comm).expect("build");
    let nbrs1: Vec<u32> = graph.nbr(1).iter().map(|n| n.to).collect();
    assert_eq!(nbrs1, vec![1, 1]);
    assert_eq!(graph.degrees(), vec![0, 2]);
}

#[test]
fn assemble_rejects_an_out_of_space_endpoint() {
    let gi = GraphInfo { vertex_num: 4, edge_num: 1 };
    let ci = ClusterInfo::new(1, 0);
    let part = SeqSPartition::new(Vec::new(), &gi, &ci);
    let bad = vec![e(0, 9)];
    let r: Result<NearGraph<MyEmpty, SeqSPartition>, ComError> =
        NearGraph::assemble(gi, part, bad);
    assert!(matches!(r, Err(ComError::Protocol)));
}

#[test]
fn metadata_counts_the_whole_id_space() {
    let comm = LoopbackComm::new();
    let edges = vec![e(0, 7), e(3, 2)];
    let gi = GraphInfo::from(&edges, &comm).expect("metadata");
    assert_eq!(gi.vertex_num, 8);
    assert_eq!(gi.edge_num, 2);

    // A rank with no edges still contributes the default.
    let none: Vec<Edge<MyEmpty>> = vec![];
    let gi2 = GraphInfo::from(&none, &comm).expect("metadata");
    assert_eq!(gi2.vertex_num, 1);
    assert_eq!(gi2.edge_num, 0);
}

#[test]
fn vertex_count_is_one_past_the_maximum() {
    assert_eq!(vertex_count_from_max(41), Ok(42));
    assert_eq!(vertex_count_from_max(0), Ok(1));
    assert_eq!(
        vertex_count_from_max(u32::MAX),
        Err(near_graph::error::ComError::Protocol)
    );
}

#[test]
fn metadata_refuses_an_uncountable_id_space() {
    let comm = LoopbackComm::new();
    let edges = vec![e(0, u32::MAX)];
    let r = GraphInfo::from(&edges, &comm);
    assert_eq!(r, Err(ComError::Protocol));
}

/// The whole two-rank scenario, the collective rounds run through the
/// verified frame machinery: rank 0 holds the entire edge list, rank 1
/// none.
#[test]
fn two_rank_build_end_to_end() {
    let inputs: Vec<Vec<Edge<MyEmpty>>> = vec![vec![e(0, 1), e(1, 2), e(2, 3)], vec![]];
    let n = 2usize;

    // Metadata: each rank broadcasts its local max id and its edge count.
    let maxes: Vec<u32> = inputs
        .iter()
        .map(|es| es.iter().map(|x| x.from.max(x.to)).max().unwrap_or(0))
        .collect();
    let max_msgs: Vec<Vec<Vec<u8>>> =
        maxes.iter().map(|m| (0..n).map(|_| encode(m)).collect()).collect();
    let max_recv = exchange_all_ranks(&max_msgs);
    let vertex_nums: Vec<u32> = max_recv
        .iter()
        .map(|rows| {
            1 + rows.iter().map(|b| decode::<u32>(b).unwrap()).max().unwrap()
        })
        .collect();
    assert_eq!(vertex_nums, vec![4, 4]);

    let counts: Vec<u64> = inputs.iter().map(|es| es.len() as u64).collect();
    let cnt_msgs: Vec<Vec<Vec<u8>>> =
        counts.iter().map(|c| (0..n).map(|_| encode(c)).collect()).collect();
    let cnt_recv = exchange_all_ranks(&cnt_msgs);
    let edge_nums: Vec<u64> = cnt_recv
        .iter()
        .map(|rows| rows.iter().map(|b| decode::<u64>(b).unwrap()).sum())
        .collect();
    assert_eq!(edge_nums, vec![3, 3]);

    // Boundaries: chunk = ceil(4 / 2) = 2, an even split [0,2) and [2,4).
    let infos: Vec<GraphInfo> =
        (0..n).map(|_| GraphInfo { vertex_num: 4, edge_num: 3 }).collect();
    let parts: Vec<SeqSPartition> = (0..n)
        .map(|r| SeqSPartition::new(Vec::new(), &infos[r], &ClusterInfo::new(n, r)))
        .collect();
    assert_eq!(parts[0].start_id(), 0);
    assert_eq!(parts[0].end_id(), 2);
    assert_eq!(parts[1].start_id(), 2);
    assert_eq!(parts[1].end_id(), 4);

    // Redistribution: route each edge to its endpoints' owners; the edge
    // (1,2) is cut and goes to both.
    let bucket_msgs: Vec<Vec<Vec<u8>>> = inputs
        .iter()
        .enumerate()
        .map(|(r, es)| {
            let buckets = bucket_edges(&parts[r], es, n);
            buckets.iter().map(encode).collect()
        })
        .collect();
    let recv = exchange_all_ranks(&bucket_msgs);
    let locals: Vec<Vec<Edge<MyEmpty>>> = recv
        .iter()
        .map(|rows| {
            rows.iter().flat_map(|b| decode::<Vec<Edge<MyEmpty>>>(b).unwrap()).collect()
        })
        .collect();
    assert_eq!(locals[0], vec![e(0, 1), e(1, 2)]);
    assert_eq!(locals[1], vec![e(1, 2), e(2, 3)]);
    // The cut edge reached both owners; across ranks it is counted twice.
    assert!(locals[0].contains(&e(1, 2)) && locals[1].contains(&e(1, 2)));
    assert_eq!(locals[0].len() + locals[1].len(), 4);

    // Assembly: rank 0's table links vertex 1 to both 0 and 2; rank 1's
    // table links vertex 2 to both 1 and 3.
    let graphs: Vec<NearGraph<MyEmpty, SeqSPartition>> = locals
        .into_iter()
        .zip(parts.into_iter())
        .map(|(local, part)| NearGraph::assemble(infos[0], part, local).expect("assembly"))
        .collect();
    let nbrs1: Vec<u32> = graphs[0].nbr(1).iter().map(|x| x.to).collect();
    assert_eq!(nbrs1, vec![0, 2]);
    let r1_nbrs2: Vec<u32> = graphs[1].nbr(2).iter().map(|x| x.to).collect();
    assert_eq!(r1_nbrs2, vec![1, 3]);
    let r1_nbrs3: Vec<u32> = graphs[1].nbr(3).iter().map(|x| x.to).collect();
    assert_eq!(r1_nbrs3, vec![2]);
    assert_eq!(graphs[0].degrees(), vec![1, 2]);
    assert_eq!(graphs[1].degrees(), vec![2, 1]);
}
