//! The distributed graph: globally agreed metadata, the contiguous-range
//! partitioning of the vertex-id space, redistribution of edges to their
//! owners, and the local adjacency table that algorithms read.

use vstd::prelude::*;
use vstd::multiset::Multiset;
use vstd::pervasive::VecAdditionalExecFns;

use crate::cluster::ClusterInfo;
use crate::codec::{Codec, Dup};
use crate::edge::{Edge, EdgeView, Eid, Vid};
use crate::error::ComError;
use crate::server::{fold_combine, Combine, MyMpi};

verus! {

/// Globally agreed measures of the graph, identical at every rank once the
/// metadata protocol has run.
#[derive(Debug, Clone, Copy, PartialEq, Eq, Structural)]
pub struct GraphInfo {
    pub vertex_num: Vid,
    pub edge_num: Eid,
}

/// The combining step of the vertex-count reduction: the larger id wins.
pub struct MaxVid;

impl Combine<Vid> for MaxVid {
    open spec fn combine_spec(&self, a: u32, b: u32) -> u32 {
        if a >= b {
            a
        } else {
            b
        }
    }

    proof fn lemma_commutative(&self, a: u32, b: u32) {
    }

    proof fn lemma_associative(&self, a: u32, b: u32, c: u32) {
    }

    fn combine(&self, a: u32, b: u32) -> (r: u32) {
        if a >= b {
            a
        } else {
            b
        }
    }
}

/// The combining step of the edge-count reduction: addition that wraps on
/// overflow, which keeps it associative and commutative on all inputs.
pub struct SumEid;

impl Combine<Eid> for SumEid {
    open spec fn combine_spec(&self, a: u64, b: u64) -> u64 {
        if a + b > u64::MAX {
            (a + b - 0x1_0000_0000_0000_0000) as u64
        } else {
            (a + b) as u64
        }
    }

    proof fn lemma_commutative(&self, a: u64, b: u64) {
    }

    proof fn lemma_associative(&self, a: u64, b: u64, c: u64) {
    }

    fn combine(&self, a: u64, b: u64) -> (r: u64) {
        a.wrapping_add(b)
    }
}

/// A fold with the max step is at least each of its contributions.
pub proof fn lemma_fold_max_ge(vals: Seq<u32>, i: int)
    requires
        vals.len() >= 1,
        0 <= i < vals.len(),
    ensures
        vals[i] <= fold_combine(MaxVid, vals),
    decreases vals.len(),
{
    if vals.len() == 1 {
    } else {
        assert(fold_combine(MaxVid, vals) == MaxVid.combine_spec(
            fold_combine(MaxVid, vals.drop_last()),
            vals.last(),
        ));
        if i < vals.len() - 1 {
            lemma_fold_max_ge(vals.drop_last(), i);
        }
    }
}

/// The largest endpoint id among a rank's local edges, 0 when it has none:
/// a rank with no local edges still contributes a default to the reduction.
pub open spec fn local_max_vid<D>(edges: Seq<EdgeView<D>>) -> u32
    decreases edges.len(),
{
    if edges.len() == 0 {
        0
    } else {
        let m = local_max_vid(edges.drop_last());
        let e = edges.last();
        let em: u32 = if e.from >= e.to {
            e.from
        } else {
            e.to
        };
        if m >= em {
            m
        } else {
            em
        }
    }
}

/// Every local endpoint is bounded by the local maximum.
pub proof fn lemma_local_max_bounds<D>(edges: Seq<EdgeView<D>>, i: int)
    requires
        0 <= i < edges.len(),
    ensures
        edges[i].from <= local_max_vid(edges),
        edges[i].to <= local_max_vid(edges),
    decreases edges.len(),
{
    if i < edges.len() - 1 {
        lemma_local_max_bounds(edges.drop_last(), i);
    }
}

/// The largest endpoint id among the local edges, 0 when there are none.
pub fn local_max_endpoint<EDATA: DeepView>(edges: &Vec<Edge<EDATA>>) -> (r: Vid)
    ensures
        r == local_max_vid(edges.deep_view()),
{
    let ghost all = edges.deep_view();
    let mut m: Vid = 0;
    let mut i: usize = 0;
    proof {
        assert(all.take(0) =~= Seq::<EdgeView<EDATA::V>>::empty());
    }
    while i < edges.len()
        invariant
            i <= edges@.len(),
            all == edges.deep_view(),
            all.len() == edges@.len(),
            m == local_max_vid(all.take(i as int)),
        decreases edges@.len() - i,
    {
        let e = &edges[i];
        proof {
            assert(all[i as int] == edges@[i as int].deep_view());
            assert(all.take(i + 1).drop_last() =~= all.take(i as int));
            assert(all.take(i + 1).last() == all[i as int]);
        }
        let em = if e.from >= e.to {
            e.from
        } else {
            e.to
        };
        if em > m {
            m = em;
        }
        i = i + 1;
    }
    proof {
        assert(all.take(all.len() as int) =~= all);
    }
    m
}

/// Turn the agreed global maximum endpoint id into the vertex count: one
/// past the maximum. A maximum at the very top of the id space leaves no
/// room for the count itself, which peer-supplied ids can force and the
/// local rank cannot repair: that is refused as a protocol violation.
pub fn vertex_count_from_max(max_id: Vid) -> (r: Result<Vid, ComError>)
    ensures
        max_id < u32::MAX ==> r == Ok::<Vid, ComError>((max_id + 1) as u32),
        max_id == u32::MAX ==> r == Err::<Vid, ComError>(ComError::Protocol),
{
    if max_id == u32::MAX {
        Err(ComError::Protocol)
    } else {
        Ok(max_id + 1)
    }
}

impl GraphInfo {
    /// The graph metadata protocol: agree with all peers on the vertex
    /// count (one more than the globally largest endpoint id) and the
    /// total edge count, by one reduction each. Fails when a collective
    /// round fails, or when the agreed maximum id leaves no room for the
    /// vertex count itself.
    pub fn from<EDATA: DeepView, C: MyMpi>(
        edges: &Vec<Edge<EDATA>>,
        communication: &C,
    ) -> (r: Result<GraphInfo, ComError>)
        requires
            communication.wf(),
        ensures
            r matches Ok(gi) ==> {
                &&& gi.vertex_num >= 1
                &&& forall|i: int|
                    0 <= i < edges.deep_view().len() ==> ((#[trigger] edges.deep_view()[i]).from
                        < gi.vertex_num && edges.deep_view()[i].to < gi.vertex_num)
                &&& exists|vals: Seq<u32>|
                    {
                        &&& vals.len() == communication.spec_cluster().partitions
                        &&& vals[communication.spec_cluster().rank as int] == local_max_vid(
                            edges.deep_view(),
                        )
                        &&& gi.vertex_num == 1 + fold_combine(MaxVid, vals)
                    }
                &&& exists|cnts: Seq<u64>|
                    {
                        &&& cnts.len() == communication.spec_cluster().partitions
                        &&& cnts[communication.spec_cluster().rank as int]
                            == edges.deep_view().len() as u64
                        &&& gi.edge_num == fold_combine(SumEid, cnts)
                    }
            },
    {
        proof {
            communication.lemma_wf();
        }
        let max_id = local_max_endpoint(edges);
        let local_edge: Eid = edges.len() as Eid;
        let vmax = match communication.reduce(max_id, &MaxVid) {
            Ok(v) => v,
            Err(e) => {
                return Err(e);
            },
        };
        let vertex_num = match vertex_count_from_max(vmax) {
            Ok(v) => v,
            Err(e) => {
                return Err(e);
            },
        };
        let edge_num = match communication.reduce(local_edge, &SumEid) {
            Ok(v) => v,
            Err(e) => {
                return Err(e);
            },
        };
        proof {
            let vals = choose|vals: Seq<u32>|
                {
                    &&& vals.len() == communication.spec_cluster().partitions
                    &&& vals[communication.spec_cluster().rank as int] == max_id
                    &&& vmax == fold_combine(MaxVid, vals)
                };
            lemma_fold_max_ge(vals, communication.spec_cluster().rank as int);
            assert forall|i: int| 0 <= i < edges.deep_view().len() implies ((
            #[trigger] edges.deep_view()[i]).from < vertex_num && edges.deep_view()[i].to
                < vertex_num) by {
                lemma_local_max_bounds(edges.deep_view(), i);
            }
        }
        Ok(GraphInfo { vertex_num, edge_num })
    }
}

/// The value binary search settles on when hunting for the first bound
/// strictly greater than `vid`. On a sorted sequence that is exactly the
/// first such index; on any sequence it is a well-defined index with the
/// two point properties of `lemma_bsearch_bounds`.
pub open spec fn bsearch_spec(bounds: Seq<Vid>, vid: Vid, lo: int, hi: int) -> int
    decreases hi - lo,
{
    if lo >= hi {
        lo
    } else {
        let mid = lo + (hi - lo) / 2;
        if bounds[mid] <= vid {
            bsearch_spec(bounds, vid, mid + 1, hi)
        } else {
            bsearch_spec(bounds, vid, lo, mid)
        }
    }
}

/// Which rank owns `vid` under a boundary sequence: the index the binary
/// search over the whole sequence lands on.
pub open spec fn owner_of(bounds: Seq<Vid>, vid: Vid) -> int {
    bsearch_spec(bounds, vid, 0, bounds.len() as int)
}

pub proof fn lemma_bsearch_bounds(bounds: Seq<Vid>, vid: Vid, lo: int, hi: int)
    requires
        0 <= lo <= hi <= bounds.len(),
    ensures
        lo <= bsearch_spec(bounds, vid, lo, hi) <= hi,
        bsearch_spec(bounds, vid, lo, hi) > lo ==> bounds[bsearch_spec(bounds, vid, lo, hi) - 1]
            <= vid,
        bsearch_spec(bounds, vid, lo, hi) < hi ==> vid < bounds[bsearch_spec(bounds, vid, lo, hi)],
    decreases hi - lo,
{
    if lo < hi {
        let mid = lo + (hi - lo) / 2;
        if bounds[mid] <= vid {
            lemma_bsearch_bounds(bounds, vid, mid + 1, hi);
        } else {
            lemma_bsearch_bounds(bounds, vid, lo, mid);
        }
    }
}

/// On a sorted (non-decreasing) boundary sequence, the owner index is the
/// first index whose bound is strictly greater than `vid`: everything
/// before it is at most `vid`, everything from it on is greater.
pub proof fn lemma_owner_sorted(bounds: Seq<Vid>, vid: Vid)
    requires
        forall|i: int, j: int| 0 <= i <= j < bounds.len() ==> bounds[i] <= bounds[j],
    ensures
        0 <= owner_of(bounds, vid) <= bounds.len(),
        forall|i: int| 0 <= i < owner_of(bounds, vid) ==> bounds[i] <= vid,
        forall|i: int| owner_of(bounds, vid) <= i < bounds.len() ==> vid < bounds[i],
{
    lemma_bsearch_bounds(bounds, vid, 0, bounds.len() as int);
    let r = owner_of(bounds, vid);
    assert forall|i: int| 0 <= i < r implies bounds[i] <= vid by {
        assert(bounds[i] <= bounds[r - 1]);
    }
    assert forall|i: int| r <= i < bounds.len() implies vid < bounds[i] by {
        assert(bounds[r] <= bounds[i]);
    }
}

/// A vertex below the final bound is owned by a real rank.
pub proof fn lemma_owner_in_range(bounds: Seq<Vid>, vid: Vid)
    requires
        bounds.len() >= 1,
        vid < bounds[bounds.len() - 1],
    ensures
        0 <= owner_of(bounds, vid) < bounds.len(),
{
    lemma_bsearch_bounds(bounds, vid, 0, bounds.len() as int);
}

/// A strategy that assigns every vertex, and so every edge, to a rank. An
/// edge is routed by its source endpoint; delivery to both endpoint owners
/// is the redistribution step's business.
pub trait Pratition: Sized {
    /// The ascending exclusive upper bounds of the ranks' vertex ranges.
    spec fn boundaries(&self) -> Seq<Vid>;

    fn vertex_partition(&self, vid: &Vid) -> (r: usize)
        requires
            self.boundaries().len() >= 1,
        ensures
            r == owner_of(self.boundaries(), *vid),
            r <= self.boundaries().len(),
            r < self.boundaries().len() ==> *vid < self.boundaries()[r as int],
            r > 0 ==> self.boundaries()[r - 1] <= *vid,
    ;

    fn edge_partition<EDATA>(&self, edge: &Edge<EDATA>) -> (r: usize)
        requires
            self.boundaries().len() >= 1,
        ensures
            r == owner_of(self.boundaries(), edge.from),
    ;
}

/// The chunk of the contiguous-range partitioning: the vertex count split
/// evenly over the ranks, rounded up, and at least one (ranks beyond the
/// vertex count own empty ranges at the top).
pub open spec fn chunk_spec(vertex_num: Vid, partitions: int) -> int {
    let c = vertex_num as int / partitions + if vertex_num as int % partitions == 0 {
        0int
    } else {
        1int
    };
    if c < 1 {
        1
    } else {
        c
    }
}

/// The boundary sequence of the contiguous-range partitioning: rank `i`
/// ends (exclusively) at `chunk * (i + 1)`, capped at the vertex count,
/// and the last rank ends exactly at the vertex count. The ranges are
/// near-equal (off only by the rounding), non-decreasing, and together
/// cover the whole vertex-id space.
pub open spec fn boundaries_spec(vertex_num: Vid, partitions: int) -> Seq<Vid> {
    Seq::new(
        partitions as nat,
        |i: int|
            if i == partitions - 1 {
                vertex_num
            } else if chunk_spec(vertex_num, partitions) * (i + 1) < vertex_num {
                (chunk_spec(vertex_num, partitions) * (i + 1)) as u32
            } else {
                vertex_num
            },
    )
}

/// A contiguous-range partitioning: each rank owns one half-open interval
/// of the vertex-id space.
pub trait SeqPartition: Pratition {
    /// This process's rank.
    spec fn spec_rank(&self) -> int;

    /// The partitioning is usable: one bound per rank, this rank among
    /// them.
    open spec fn inv(&self) -> bool {
        self.boundaries().len() >= 1 && 0 <= self.spec_rank() < self.boundaries().len()
    }

    /// Build the boundaries from the agreed metadata and the topology.
    fn new(degrees: Vec<Vid>, graph_info: &GraphInfo, cluster_info: &ClusterInfo) -> (r: Self)
        requires
            cluster_info.wf(),
        ensures
            r.boundaries() == boundaries_spec(
                graph_info.vertex_num,
                cluster_info.partitions as int,
            ),
            r.spec_rank() == cluster_info.rank,
            r.inv(),
    ;

    /// Redistribute the local edges: each edge goes to its source
    /// endpoint's owner, and a cut edge (endpoints owned by different
    /// ranks) goes to both owners, so that each can build its own
    /// adjacency entry. The flattened concatenation of the buckets every
    /// peer sent this rank is the new local edge set.
    fn impl_partition<EDATA: Codec + Dup, C: MyMpi>(
        &self,
        edges: Vec<Edge<EDATA>>,
        communication: &C,
    ) -> (r: Result<Vec<Edge<EDATA>>, ComError>)
        requires
            self.inv(),
            communication.wf(),
            self.boundaries().len() == communication.spec_cluster().partitions,
            forall|i: int|
                0 <= i < edges.deep_view().len() ==> ((#[trigger] edges.deep_view()[i]).from
                    < self.boundaries()[self.boundaries().len() - 1]
                    && edges.deep_view()[i].to < self.boundaries()[self.boundaries().len() - 1]),
        ensures
            r matches Ok(out) ==> exists|recv: Seq<Seq<EdgeView<EDATA::V>>>|
                {
                    &&& recv.len() == communication.spec_cluster().partitions
                    &&& recv[communication.spec_cluster().rank as int] == bucket_spec(
                        edges.deep_view(),
                        self.boundaries(),
                    )[communication.spec_cluster().rank as int]
                    &&& out.deep_view() == recv.flatten()
                },
    ;

    /// The first vertex id this rank owns.
    open spec fn start_spec(&self) -> int {
        if self.spec_rank() == 0 {
            0
        } else {
            self.boundaries()[self.spec_rank() - 1] as int
        }
    }

    /// One past the last vertex id this rank owns.
    open spec fn end_spec(&self) -> int {
        self.boundaries()[self.spec_rank()] as int
    }

    /// What the owned range is in terms of the bounds, for callers that
    /// hold the partitioning behind this trait.
    proof fn lemma_range(&self)
        requires
            self.inv(),
        ensures
            self.start_spec() == if self.spec_rank() == 0 {
                0int
            } else {
                self.boundaries()[self.spec_rank() - 1] as int
            },
            self.end_spec() == self.boundaries()[self.spec_rank()] as int,
    ;

    fn start_id(&self) -> (r: Vid)
        requires
            self.inv(),
        ensures
            r as int == self.start_spec(),
    ;

    fn end_id(&self) -> (r: Vid)
        requires
            self.inv(),
        ensures
            r as int == self.end_spec(),
    ;
}

/// Where each edge is routed: the bucket for each rank, in input order.
/// An edge whose endpoints share an owner lands once, in that owner's
/// bucket; a cut edge lands in the source owner's bucket and then the
/// target owner's.
pub open spec fn bucket_spec<D>(edges: Seq<EdgeView<D>>, bounds: Seq<Vid>) -> Seq<Seq<EdgeView<D>>>
    decreases edges.len(),
{
    if edges.len() == 0 {
        Seq::new(bounds.len(), |i: int| Seq::<EdgeView<D>>::empty())
    } else {
        let b = bucket_spec(edges.drop_last(), bounds);
        let e = edges.last();
        let p1 = owner_of(bounds, e.from);
        let p2 = owner_of(bounds, e.to);
        if p1 == p2 {
            b.update(p2, b[p2].push(e))
        } else {
            let b1 = b.update(p1, b[p1].push(e));
            b1.update(p2, b1[p2].push(e))
        }
    }
}

/// Append one edge to the bucket for rank `p`.
fn push_bucket<EDATA: DeepView>(buckets: &mut Vec<Vec<Edge<EDATA>>>, p: usize, e: Edge<EDATA>)
    requires
        p < old(buckets)@.len(),
    ensures
        final(buckets)@.len() == old(buckets)@.len(),
        final(buckets).deep_view() == old(buckets).deep_view().update(
            p as int,
            old(buckets).deep_view()[p as int].push(e.deep_view()),
        ),
{
    let ghost before = buckets.deep_view();
    let ghost ev = e.deep_view();
    let mut row: Vec<Edge<EDATA>> = Vec::new();
    buckets.set_and_swap(p, &mut row);
    row.push(e);
    buckets.set_and_swap(p, &mut row);
    proof {
        assert(buckets.deep_view() =~~= before.update(p as int, before[p as int].push(ev)));
    }
}

/// Route every local edge into the outgoing bucket of each endpoint's
/// owner, in input order: an edge whose endpoints share an owner lands
/// once, in that owner's bucket; a cut edge lands in the source owner's
/// bucket and in the target owner's. One bucket per rank.
pub fn bucket_edges<EDATA: Codec + Dup, P: Pratition>(
    part: &P,
    edges: &Vec<Edge<EDATA>>,
    partitions: usize,
) -> (r: Vec<Vec<Edge<EDATA>>>)
    requires
        part.boundaries().len() >= 1,
        part.boundaries().len() == partitions,
        forall|i: int|
            0 <= i < edges.deep_view().len() ==> ((#[trigger] edges.deep_view()[i]).from
                < part.boundaries()[part.boundaries().len() - 1] && edges.deep_view()[i].to
                < part.boundaries()[part.boundaries().len() - 1]),
    ensures
        r@.len() == partitions,
        r.deep_view() == bucket_spec(edges.deep_view(), part.boundaries()),
{
    let ghost all = edges.deep_view();
    let ghost bounds = part.boundaries();
    let mut buckets: Vec<Vec<Edge<EDATA>>> = Vec::new();
    let mut b: usize = 0;
    while b < partitions
        invariant
            b <= partitions,
            buckets@.len() == b,
            buckets.deep_view().len() == b,
            forall|m: int|
                0 <= m < b ==> (#[trigger] buckets.deep_view()[m]) == Seq::<
                    EdgeView<EDATA::V>,
                >::empty(),
        decreases partitions - b,
    {
        let ghost before = buckets.deep_view();
        buckets.push(Vec::new());
        proof {
            assert(buckets.deep_view() =~~= before.push(Seq::<EdgeView<EDATA::V>>::empty()));
        }
        b = b + 1;
    }
    proof {
        assert(all.take(0) =~= Seq::<EdgeView<EDATA::V>>::empty());
        assert(buckets.deep_view() =~~= bucket_spec(all.take(0), bounds));
    }
    let n = edges.len();
    let mut k: usize = 0;
    while k < n
        invariant
            k <= n,
            n == all.len(),
            all == edges.deep_view(),
            bounds == part.boundaries(),
            bounds.len() >= 1,
            bounds.len() == partitions,
            forall|i: int|
                0 <= i < all.len() ==> ((#[trigger] all[i]).from < bounds[bounds.len() - 1]
                    && all[i].to < bounds[bounds.len() - 1]),
            buckets@.len() == partitions,
            buckets.deep_view().len() == partitions,
            buckets.deep_view() == bucket_spec(all.take(k as int), bounds),
        decreases n - k,
    {
        let e = &edges[k];
        proof {
            assert(all[k as int] == edges@[k as int].deep_view());
            lemma_owner_in_range(bounds, e.from);
            lemma_owner_in_range(bounds, e.to);
        }
        let p1 = part.vertex_partition(&e.from);
        let p2 = part.vertex_partition(&e.to);
        if p1 != p2 {
            push_bucket(&mut buckets, p1, e.dup());
            push_bucket(&mut buckets, p2, e.dup());
        } else {
            push_bucket(&mut buckets, p2, e.dup());
        }
        proof {
            assert(all.take(k + 1).drop_last() =~= all.take(k as int));
            assert(all.take(k + 1).last() == all[k as int]);
            assert(buckets.deep_view() =~~= bucket_spec(all.take(k + 1), bounds));
        }
        k = k + 1;
    }
    proof {
        assert(all.take(all.len() as int) =~= all);
    }
    buckets
}

/// The contiguous-range partitioning strategy: rank `i` owns
/// the half-open interval ending (exclusively) at `end_id[i]`.
#[derive(Debug)]
pub struct SeqSPartition {
    rank: usize,
    end_id: Vec<Vid>,
}

impl Pratition for SeqSPartition {
    closed spec fn boundaries(&self) -> Seq<Vid> {
        self.end_id@
    }

    fn vertex_partition(&self, vid: &Vid) -> (r: usize) {
        let ghost bounds = self.end_id@;
        let mut lo: usize = 0;
        let mut hi: usize = self.end_id.len();
        while lo < hi
            invariant
                0 <= lo <= hi <= self.end_id@.len(),
                bounds == self.end_id@,
                owner_of(bounds, *vid) == bsearch_spec(bounds, *vid, lo as int, hi as int),
            decreases hi - lo,
        {
            let mid = lo + (hi - lo) / 2;
            if self.end_id[mid] <= *vid {
                lo = mid + 1;
            } else {
                hi = mid;
            }
        }
        proof {
            lemma_bsearch_bounds(bounds, *vid, 0, bounds.len() as int);
        }
        lo
    }

    fn edge_partition<EDATA>(&self, edge: &Edge<EDATA>) -> (r: usize) {
        self.vertex_partition(&edge.from)
    }
}

impl SeqPartition for SeqSPartition {
    closed spec fn spec_rank(&self) -> int {
        self.rank as int
    }

    proof fn lemma_range(&self) {
    }

    fn new(degrees: Vec<Vid>, graph_info: &GraphInfo, cluster_info: &ClusterInfo) -> (r: Self) {
        let v = graph_info.vertex_num;
        let p = cluster_info.partitions;
        let ghost target = boundaries_spec(v, p as int);
        // The chunk in 64 bits: a rank count above the vertex count still
        // divides cleanly, the extra ranks ending up with empty ranges.
        let v64 = v as u64;
        let p64 = p as u64;
        let c64 = v64 / p64 + (if v64 % p64 == 0 {
            0
        } else {
            1
        });
        proof {
            vstd::arithmetic::div_mod::lemma_fundamental_div_mod(v as int, p as int);
            vstd::arithmetic::div_mod::lemma_mod_bound(v as int, p as int);
            assert((v as int / p as int) * (p as int) <= v as int) by (nonlinear_arith)
                requires
                    (v as int / p as int) * (p as int) + (v as int % p as int) == v as int,
                    0 <= v as int % p as int,
            ;
            assert(v as int / p as int <= v as int) by (nonlinear_arith)
                requires
                    (v as int / p as int) * (p as int) <= v as int,
                    0 <= v as int / p as int,
                    1 <= p as int,
            ;
            assert((v as int / p as int) * (p as int) >= v as int / p as int) by (nonlinear_arith)
                requires
                    0 <= v as int / p as int,
                    1 <= p as int,
            ;
        }
        let chunk: u32 = if c64 < 1 {
            1
        } else {
            c64 as u32
        };
        proof {
            assert(chunk as int == chunk_spec(v, p as int));
        }
        let mut end_id: Vec<Vid> = Vec::new();
        let mut prev: u32 = 0;
        let mut i: usize = 0;
        proof {
            vstd::arithmetic::mul::lemma_mul_basics(chunk as int);
        }
        while i + 1 < p
            invariant
                0 <= i < p,
                p == cluster_info.partitions,
                chunk as int == chunk_spec(v, p as int),
                chunk >= 1,
                target == boundaries_spec(v, p as int),
                end_id@.len() == i,
                forall|m: int| 0 <= m < i ==> end_id@[m] == target[m],
                prev <= v,
                prev as int == (if chunk_spec(v, p as int) * (i as int) < v {
                    chunk_spec(v, p as int) * (i as int)
                } else {
                    v as int
                }),
            decreases p - i,
        {
            proof {
                vstd::arithmetic::mul::lemma_mul_is_distributive_add(
                    chunk as int,
                    i as int,
                    1,
                );
                vstd::arithmetic::mul::lemma_mul_nonnegative(chunk as int, i as int);
            }
            let b: u32 = if v - prev > chunk {
                prev + chunk
            } else {
                v
            };
            end_id.push(b);
            prev = b;
            i = i + 1;
        }
        end_id.push(v);
        proof {
            assert(end_id@ =~= target);
        }
        SeqSPartition { rank: cluster_info.rank, end_id }
    }

    fn impl_partition<EDATA: Codec + Dup, C: MyMpi>(
        &self,
        edges: Vec<Edge<EDATA>>,
        communication: &C,
    ) -> (r: Result<Vec<Edge<EDATA>>, ComError>) {
        proof {
            communication.lemma_wf();
        }
        let partitions = communication.get_cluster_info().partitions;
        let ghost all = edges.deep_view();
        let ghost bounds = self.boundaries();
        let buckets = bucket_edges(self, &edges, partitions);
        let ghost sent = buckets.deep_view();
        let recv = match communication.send_recv::<Vec<Edge<EDATA>>>(buckets) {
            Ok(v) => v,
            Err(e) => {
                return Err(e);
            },
        };
        let ghost rv = recv.deep_view();
        let mut out: Vec<Edge<EDATA>> = Vec::new();
        let mut rows = recv;
        let ghost mut j: int = 0;
        while rows.len() > 0
            invariant
                0 <= j <= rv.len(),
                rows.deep_view() == rv.skip(j),
                out.deep_view() == rv.take(j).flatten_alt(),
            decreases rv.len() - j,
        {
            proof {
                assert(rows.deep_view().len() == rows@.len());
                assert(rv.skip(j).len() == rv.len() - j);
                assert(j < rv.len());
            }
            let ghost pre = rows@;
            let ghost pre_dv = rows.deep_view();
            let ghost out_before = out.deep_view();
            let mut row = rows.remove(0);
            out.append(&mut row);
            proof {
                assert(pre_dv[0] == pre[0].deep_view());
                assert(rv.skip(j) == rv.subrange(j, rv.len() as int));
                assert(rv.subrange(j, rv.len() as int)[0] == rv[j]);
                assert(out.deep_view() =~= out_before + rv[j]);
                assert(rv.take(j + 1).drop_last() =~= rv.take(j));
                assert(rv.take(j + 1).last() == rv[j]);
                assert forall|m: int| 0 <= m < rows@.len() implies rows.deep_view()[m] == rv.skip(
                    j + 1,
                )[m] by {
                    assert(rows@[m] == pre[m + 1]);
                    assert(pre_dv[m + 1] == pre[m + 1].deep_view());
                    assert(rv.subrange(j, rv.len() as int)[m + 1] == rv[j + 1 + m]);
                    assert(rv.subrange(j + 1, rv.len() as int)[m] == rv[j + 1 + m]);
                    assert(rv.skip(j + 1) == rv.subrange(j + 1, rv.len() as int));
                }
                assert(rows.deep_view() =~~= rv.skip(j + 1));
                j = j + 1;
            }
        }
        proof {
            assert(rows.deep_view().len() == rows@.len());
            assert(j == rv.len());
            assert(rv.take(rv.len() as int) =~= rv);
            rv.lemma_flatten_and_flatten_alt_are_equivalent();
            assert(out.deep_view() == rv.flatten());
            assert(rv[communication.spec_cluster().rank as int] == sent[communication.spec_cluster().rank as int]);
        }
        Ok(out)
    }

    fn start_id(&self) -> (r: Vid) {
        if self.rank == 0 {
            0
        } else {
            self.end_id[self.rank - 1]
        }
    }

    fn end_id(&self) -> (r: Vid) {
        self.end_id[self.rank]
    }
}

/// One adjacency entry: a neighbor of the slot's vertex, with the payload
/// of the edge between them.
#[derive(Clone, Debug)]
pub struct NearEdge<EDATA> {
    pub to: Vid,
    data: EDATA,
}

/// The mathematical value of an adjacency entry.
pub struct NearEdgeView<D> {
    pub to: Vid,
    pub data: D,
}

impl<EDATA: DeepView> DeepView for NearEdge<EDATA> {
    type V = NearEdgeView<EDATA::V>;

    closed spec fn deep_view(&self) -> NearEdgeView<EDATA::V> {
        NearEdgeView { to: self.to, data: self.data.deep_view() }
    }
}

/// An adjacency table of `n` slots with nothing materialized yet.
pub open spec fn empty_table<D>(n: int) -> Seq<Seq<NearEdgeView<D>>> {
    Seq::new(n as nat, |i: int| Seq::<NearEdgeView<D>>::empty())
}

/// Materialize one edge as two directed entries: the target in the
/// source's slot, then the source in the target's slot.
pub open spec fn add_edge_spec<D>(
    tbl: Seq<Seq<NearEdgeView<D>>>,
    e: EdgeView<D>,
) -> Seq<Seq<NearEdgeView<D>>> {
    let t1 = tbl.update(
        e.from as int,
        tbl[e.from as int].push(NearEdgeView { to: e.to, data: e.data }),
    );
    t1.update(e.to as int, t1[e.to as int].push(NearEdgeView { to: e.from, data: e.data }))
}

/// The adjacency table assembled from a run of edges, in order.
pub open spec fn adjacency_spec<D>(n: int, edges: Seq<EdgeView<D>>) -> Seq<Seq<NearEdgeView<D>>>
    decreases edges.len(),
{
    if edges.len() == 0 {
        empty_table(n)
    } else {
        add_edge_spec(adjacency_spec(n, edges.drop_last()), edges.last())
    }
}

/// The table always keeps one slot per vertex.
pub proof fn lemma_adjacency_len<D>(n: int, edges: Seq<EdgeView<D>>)
    requires
        n >= 0,
        forall|m: int| 0 <= m < edges.len() ==> ((#[trigger] edges[m]).from < n && edges[m].to < n),
    ensures
        adjacency_spec(n, edges).len() == n,
    decreases edges.len(),
{
    if edges.len() > 0 {
        assert forall|m: int| 0 <= m < edges.drop_last().len() implies ((
        #[trigger] edges.drop_last()[m]).from < n && edges.drop_last()[m].to < n) by {
            assert(edges.drop_last()[m] == edges[m]);
        }
        lemma_adjacency_len(n, edges.drop_last());
        assert(edges[edges.len() - 1] == edges.last());
    }
}

/// Materializing more edges never removes an entry.
pub proof fn lemma_add_edge_monotone<D>(
    tbl: Seq<Seq<NearEdgeView<D>>>,
    e: EdgeView<D>,
    i: int,
    x: NearEdgeView<D>,
)
    requires
        0 <= i < tbl.len(),
        0 <= e.from < tbl.len(),
        0 <= e.to < tbl.len(),
        tbl[i].contains(x),
    ensures
        add_edge_spec(tbl, e)[i].contains(x),
{
    let j = choose|j: int| 0 <= j < tbl[i].len() && tbl[i][j] == x;
    assert(add_edge_spec(tbl, e).len() == tbl.len());
    assert(add_edge_spec(tbl, e)[i][j] == x);
}

/// Adjacency symmetry: every edge of the set the table was assembled from
/// is materialized in both directions — its target appears in the source's
/// slot and its source in the target's slot.
pub proof fn lemma_adjacency_symmetry<D>(n: int, edges: Seq<EdgeView<D>>, k: int)
    requires
        0 <= k < edges.len(),
        forall|m: int|
            0 <= m < edges.len() ==> ((#[trigger] edges[m]).from < n && edges[m].to < n),
    ensures
        adjacency_spec(n, edges)[edges[k].from as int].contains(
            NearEdgeView { to: edges[k].to, data: edges[k].data },
        ),
        adjacency_spec(n, edges)[edges[k].to as int].contains(
            NearEdgeView { to: edges[k].from, data: edges[k].data },
        ),
    decreases edges.len(),
{
    lemma_adjacency_len(n, edges.drop_last());
    let tbl = adjacency_spec(n, edges.drop_last());
    let e = edges.last();
    if k == edges.len() - 1 {
        let t1 = tbl.update(
            e.from as int,
            tbl[e.from as int].push(NearEdgeView { to: e.to, data: e.data }),
        );
        assert(t1[e.from as int].last() == NearEdgeView { to: e.to, data: e.data });
        assert(t1[e.from as int].contains(NearEdgeView { to: e.to, data: e.data }));
        let fin = adjacency_spec(n, edges);
        assert(fin == t1.update(
            e.to as int,
            t1[e.to as int].push(NearEdgeView { to: e.from, data: e.data }),
        ));
        assert(fin[e.to as int].last() == NearEdgeView { to: e.from, data: e.data });
        assert(fin[e.to as int].contains(NearEdgeView { to: e.from, data: e.data }));
        if e.from as int != e.to as int {
            assert(fin[e.from as int] == t1[e.from as int]);
        } else {
            let entry = NearEdgeView { to: e.to, data: e.data };
            assert(fin[e.from as int][t1[e.from as int].len() - 1] == entry);
            assert(fin[e.from as int].contains(entry));
        }
    } else {
        assert(edges.drop_last()[k] == edges[k]);
        lemma_adjacency_symmetry(n, edges.drop_last(), k);
        lemma_add_edge_monotone(tbl, e, edges[k].from as int, NearEdgeView { to: edges[k].to, data: edges[k].data });
        lemma_add_edge_monotone(tbl, e, edges[k].to as int, NearEdgeView { to: edges[k].from, data: edges[k].data });
    }
}

/// Append one adjacency entry to the slot of vertex `v`.
fn push_entry<EDATA: DeepView>(table: &mut Vec<Vec<NearEdge<EDATA>>>, v: usize, entry: NearEdge<EDATA>)
    requires
        v < old(table)@.len(),
    ensures
        final(table)@.len() == old(table)@.len(),
        final(table).deep_view() == old(table).deep_view().update(
            v as int,
            old(table).deep_view()[v as int].push(entry.deep_view()),
        ),
{
    let ghost before = table.deep_view();
    let ghost ev = entry.deep_view();
    let mut slot: Vec<NearEdge<EDATA>> = Vec::new();
    table.set_and_swap(v, &mut slot);
    slot.push(entry);
    table.set_and_swap(v, &mut slot);
    proof {
        assert(table.deep_view() =~~= before.update(v as int, before[v as int].push(ev)));
    }
}

/// The local piece of the distributed graph: a full-length adjacency table
/// indexed by global vertex id (every rank holds all slots; only its owned
/// range is served to algorithms), plus the partitioning it was built with.
pub struct NearGraph<EDATA: DeepView, PART: SeqPartition> {
    pub graph_info: GraphInfo,
    pub g: Vec<Vec<NearEdge<EDATA>>>,
    partition: PART,
    local_edges: Ghost<Seq<EdgeView<EDATA::V>>>,
}

impl<EDATA: DeepView, PART: SeqPartition> NearGraph<EDATA, PART> {
    /// The adjacency table, one slot per global vertex id.
    pub closed spec fn table(&self) -> Seq<Seq<NearEdgeView<EDATA::V>>> {
        self.g.deep_view()
    }

    /// The redistributed edge set this rank's table was assembled from.
    pub closed spec fn spec_local_edges(&self) -> Seq<EdgeView<EDATA::V>> {
        self.local_edges@
    }

    pub closed spec fn spec_partition(&self) -> PART {
        self.partition
    }

    /// The agreed metadata the graph was built with.
    pub closed spec fn spec_graph_info(&self) -> GraphInfo {
        self.graph_info
    }

    /// A usable graph: one slot per vertex of the agreed count, a usable
    /// partitioning whose last bound is that count, edges within bounds,
    /// the table exactly the adjacency of the local edge set, and every
    /// slot short enough for its degree to be counted in a `Vid`.
    pub closed spec fn inv(&self) -> bool {
        &&& self.table().len() == self.graph_info.vertex_num as int
        &&& self.spec_partition().inv()
        &&& 0 <= self.spec_partition().spec_rank() < self.spec_partition().boundaries().len()
        &&& forall|i: int, j: int|
            0 <= i <= j < self.spec_partition().boundaries().len()
                ==> #[trigger] self.spec_partition().boundaries()[i]
                <= #[trigger] self.spec_partition().boundaries()[j]
        &&& self.spec_partition().boundaries()[self.spec_partition().boundaries().len() - 1]
            == self.graph_info.vertex_num
        &&& forall|i: int|
            0 <= i < self.spec_local_edges().len() ==> ((#[trigger] self.spec_local_edges()[i]).from
                < self.graph_info.vertex_num && self.spec_local_edges()[i].to
                < self.graph_info.vertex_num)
        &&& self.table() == adjacency_spec(
            self.graph_info.vertex_num as int,
            self.spec_local_edges(),
        )
        &&& forall|i: int| 0 <= i < self.table().len() ==> (#[trigger] self.table()[i]).len() <= u32::MAX
    }

    /// What a usable graph promises, spelled out for callers: one table
    /// slot per vertex of the agreed count, a usable partitioning whose
    /// last bound is that count, local edges inside the vertex space,
    /// every slot short enough for a `Vid`-counted degree — and the table
    /// exactly the adjacency of the local edge set, so that
    /// `lemma_adjacency_symmetry` speaks of the built graph itself.
    pub proof fn lemma_inv(&self)
        requires
            self.inv(),
        ensures
            self.table().len() == self.spec_graph_info().vertex_num as int,
            self.spec_partition().inv(),
            0 <= self.spec_partition().spec_rank() < self.spec_partition().boundaries().len(),
            forall|i: int, j: int|
                0 <= i <= j < self.spec_partition().boundaries().len()
                    ==> #[trigger] self.spec_partition().boundaries()[i]
                    <= #[trigger] self.spec_partition().boundaries()[j],
            self.spec_partition().boundaries()[self.spec_partition().boundaries().len() - 1]
                == self.spec_graph_info().vertex_num,
            forall|i: int|
                0 <= i < self.spec_local_edges().len() ==> ((
                #[trigger] self.spec_local_edges()[i]).from < self.spec_graph_info().vertex_num
                    && self.spec_local_edges()[i].to < self.spec_graph_info().vertex_num),
            self.table() == adjacency_spec(
                self.spec_graph_info().vertex_num as int,
                self.spec_local_edges(),
            ),
            forall|i: int|
                0 <= i < self.table().len() ==> (#[trigger] self.table()[i]).len() <= u32::MAX,
    {
    }

    /// The adjacency slot of one global vertex id.
    pub fn nbr(&self, id: usize) -> (r: &Vec<NearEdge<EDATA>>)
        requires
            self.inv(),
            id < self.table().len(),
        ensures
            r.deep_view() == self.table()[id as int],
    {
        &self.g[id]
    }
}

impl<EDATA: Codec + Dup, PART: SeqPartition> NearGraph<EDATA, PART> {
    /// Assemble the adjacency table from the redistributed local edges:
    /// every edge becomes two directed entries, symmetric by construction.
    /// An edge whose endpoint lies outside the agreed vertex space came
    /// from a peer that broke the protocol, and a local set too large for
    /// degrees to be counted cannot be represented: both fail loudly
    /// rather than hand algorithms a corrupted graph.
    pub fn assemble(
        graph_info: GraphInfo,
        partition: PART,
        local_edges: Vec<Edge<EDATA>>,
    ) -> (r: Result<Self, ComError>)
        requires
            partition.inv(),
            0 <= partition.spec_rank() < partition.boundaries().len(),
            forall|i: int, j: int|
                0 <= i <= j < partition.boundaries().len() ==> #[trigger] partition.boundaries()[i]
                    <= #[trigger] partition.boundaries()[j],
            partition.boundaries()[partition.boundaries().len() - 1] == graph_info.vertex_num,
        ensures
            r matches Ok(gr) ==> {
                &&& gr.inv()
                &&& gr.spec_graph_info() == graph_info
                &&& gr.spec_partition() == partition
                &&& gr.spec_local_edges() == local_edges.deep_view()
            },
            r matches Err(e) ==> e == ComError::Protocol,
            (local_edges.deep_view().len() <= 0x7FFF_FFFF && forall|i: int|
                0 <= i < local_edges.deep_view().len() ==> ((
                #[trigger] local_edges.deep_view()[i]).from < graph_info.vertex_num
                    && local_edges.deep_view()[i].to < graph_info.vertex_num)) ==> (
            r matches Ok(gr)),
    {
        let ghost all = local_edges.deep_view();
        let vn = graph_info.vertex_num;
        proof {
            assert(all.len() == local_edges@.len());
        }
        if local_edges.len() > 0x7FFF_FFFF {
            return Err(ComError::Protocol);
        }
        let n_us = vn as usize;
        let mut g: Vec<Vec<NearEdge<EDATA>>> = Vec::new();
        let mut b: usize = 0;
        while b < n_us
            invariant
                b <= n_us,
                g.deep_view().len() == b,
                forall|m: int|
                    0 <= m < b ==> (#[trigger] g.deep_view()[m]) == Seq::<
                        NearEdgeView<EDATA::V>,
                    >::empty(),
            decreases n_us - b,
        {
            let ghost before = g.deep_view();
            g.push(Vec::new());
            proof {
                assert(g.deep_view() =~~= before.push(Seq::<NearEdgeView<EDATA::V>>::empty()));
            }
            b = b + 1;
        }
        proof {
            assert(all.take(0) =~= Seq::<EdgeView<EDATA::V>>::empty());
            assert(g.deep_view() =~~= adjacency_spec(vn as int, all.take(0)));
        }
        let n = local_edges.len();
        let mut k: usize = 0;
        while k < n
            invariant
                k <= n,
                n == all.len() <= 0x7FFF_FFFF,
                all == local_edges.deep_view(),
                g@.len() == n_us == vn,
                vn == graph_info.vertex_num,
                g.deep_view().len() == vn,
                forall|m: int|
                    0 <= m < k ==> ((#[trigger] all[m]).from < vn && all[m].to < vn),
                g.deep_view() == adjacency_spec(vn as int, all.take(k as int)),
                forall|i: int|
                    0 <= i < g.deep_view().len() ==> (#[trigger] g.deep_view()[i]).len() <= 2 * k,
            decreases n - k,
        {
            let e = &local_edges[k];
            proof {
                assert(all[k as int] == local_edges@[k as int].deep_view());
            }
            if e.from >= vn || e.to >= vn {
                proof {
                    assert(local_edges.deep_view()[k as int] == all[k as int]);
                    assert(!((local_edges.deep_view()[k as int]).from < vn
                        && local_edges.deep_view()[k as int].to < vn));
                }
                return Err(ComError::Protocol);
            }
            let ghost before = g.deep_view();
            let efrom = e.from as usize;
            let eto = e.to as usize;
            push_entry(&mut g, efrom, NearEdge { to: e.to, data: e.data.dup() });
            push_entry(&mut g, eto, NearEdge { to: e.from, data: e.data.dup() });
            proof {
                assert(all.take(k + 1).drop_last() =~= all.take(k as int));
                assert(all.take(k + 1).last() == all[k as int]);
                assert(g.deep_view() =~~= adjacency_spec(vn as int, all.take(k + 1)));
            }
            k = k + 1;
        }
        proof {
            assert(all.take(all.len() as int) =~= all);
        }
        Ok(
            NearGraph {
                graph_info,
                g,
                partition,
                local_edges: Ghost(all),
            },
        )
    }

    /// Build the distributed graph: agree on the metadata, build the
    /// partition boundaries, redistribute the edges to their owners, and
    /// assemble the local adjacency table.
    pub fn new<C: MyMpi>(edges: Vec<Edge<EDATA>>, communication: &C) -> (r: Result<Self, ComError>)
        requires
            communication.wf(),
        ensures
            r matches Ok(gr) ==> {
                &&& gr.inv()
                &&& gr.spec_graph_info().vertex_num >= 1
                &&& gr.spec_partition().boundaries() == boundaries_spec(
                    gr.spec_graph_info().vertex_num,
                    communication.spec_cluster().partitions as int,
                )
                &&& gr.spec_partition().spec_rank() == communication.spec_cluster().rank
                &&& exists|recv: Seq<Seq<EdgeView<EDATA::V>>>|
                    {
                        &&& recv.len() == communication.spec_cluster().partitions
                        &&& recv[communication.spec_cluster().rank as int] == bucket_spec(
                            edges.deep_view(),
                            gr.spec_partition().boundaries(),
                        )[communication.spec_cluster().rank as int]
                        &&& gr.spec_local_edges() == recv.flatten()
                    }
            },
    {
        proof {
            communication.lemma_wf();
        }
        let graph_info = match GraphInfo::from(&edges, communication) {
            Ok(gi) => gi,
            Err(e) => {
                return Err(e);
            },
        };
        let cluster_info = communication.get_cluster_info();
        let partitions = cluster_info.partitions;
        let partition = PART::new(Vec::new(), &graph_info, cluster_info);
        proof {
            lemma_boundaries_sorted(graph_info.vertex_num, partitions as int);
            assert(partition.boundaries().len() == partitions);
            assert(partition.boundaries()[partition.boundaries().len() - 1]
                == graph_info.vertex_num);
        }
        let local = match partition.impl_partition(edges, communication) {
            Ok(v) => v,
            Err(e) => {
                return Err(e);
            },
        };
        Self::assemble(graph_info, partition, local)
    }
}

/// What algorithm code reads from an assembled local graph: the table's
/// size, per-vertex degrees over this rank's owned range, working arrays,
/// and the partitioning.
pub trait Graph: Sized {
    type PART: SeqPartition;

    /// How many slots the local table holds (the global vertex count).
    spec fn slot_count(&self) -> int;

    /// The length of vertex `i`'s adjacency slot.
    spec fn slot_len(&self, i: int) -> int;

    /// The partitioning the graph was built with.
    spec fn part(&self) -> Self::PART;

    /// The graph is usable.
    spec fn wf(&self) -> bool;

    proof fn lemma_wf(&self)
        requires
            self.wf(),
        ensures
            self.part().inv(),
            0 <= self.slot_count() <= u32::MAX,
            0 <= self.part().start_spec() <= self.part().end_spec() <= self.slot_count(),
            forall|i: int| 0 <= i < self.slot_count() ==> 0 <= #[trigger] self.slot_len(i) <= u32::MAX,
    ;

    /// The global vertex count, which is also the local table length.
    fn local_vertexs(&self) -> (r: Vid)
        requires
            self.wf(),
        ensures
            r as int == self.slot_count(),
    ;

    /// A working array with one slot per vertex of the table, each holding
    /// a copy of the initial value.
    fn get_array<T: Clone>(&self, init_data: T) -> (r: Vec<T>)
        requires
            self.wf(),
        ensures
            r@.len() == self.slot_count(),
            forall|i: int|
                0 <= i < r@.len() ==> vstd::pervasive::cloned(init_data, #[trigger] r@[i]),
    ;

    /// The degree of each vertex in this rank's owned range: entry `i`
    /// counts the adjacency entries of vertex `start + i`. The owned range
    /// lies inside the table: the bounds are non-decreasing and end at the
    /// vertex count.
    fn degrees(&self) -> (r: Vec<Vid>)
        requires
            self.wf(),
        ensures
            r@.len() == self.part().end_spec() - self.part().start_spec(),
            forall|i: int|
                0 <= i < r@.len() ==> (#[trigger] r@[i]) as int == self.slot_len(
                    self.part().start_spec() + i,
                ),
    ;

    /// The partitioning object itself.
    fn partition(&self) -> (r: &Self::PART)
        requires
            self.wf(),
        ensures
            *r == self.part(),
    ;
}

impl<EDATA: DeepView, PART: SeqPartition> Graph for NearGraph<EDATA, PART> {
    type PART = PART;

    open spec fn slot_count(&self) -> int {
        self.table().len() as int
    }

    open spec fn slot_len(&self, i: int) -> int {
        self.table()[i].len() as int
    }

    open spec fn part(&self) -> PART {
        self.spec_partition()
    }

    open spec fn wf(&self) -> bool {
        self.inv()
    }

    proof fn lemma_wf(&self) {
        self.spec_partition().lemma_range();
        let bounds = self.spec_partition().boundaries();
        let rk = self.spec_partition().spec_rank();
        assert(bounds[rk] <= bounds[bounds.len() - 1]);
        if rk > 0 {
            assert(bounds[rk - 1] <= bounds[rk]);
        }
    }

    fn local_vertexs(&self) -> (r: Vid) {
        self.g.len() as Vid
    }

    fn get_array<T: Clone>(&self, init_data: T) -> (r: Vec<T>) {
        let n = self.g.len();
        let mut out: Vec<T> = Vec::new();
        let mut i: usize = 0;
        while i < n
            invariant
                i <= n,
                out@.len() == i,
                forall|m: int|
                    0 <= m < i ==> vstd::pervasive::cloned(init_data, #[trigger] out@[m]),
            decreases n - i,
        {
            out.push(init_data.clone());
            i = i + 1;
        }
        out
    }

    fn degrees(&self) -> (r: Vec<Vid>) {
        proof {
            // The owned range lies inside the table: the bounds are
            // non-decreasing and the last one is the vertex count.
            self.spec_partition().lemma_range();
            let bounds = self.spec_partition().boundaries();
            let rk = self.spec_partition().spec_rank();
            assert(bounds[rk] <= bounds[bounds.len() - 1]);
            if rk > 0 {
                assert(bounds[rk - 1] <= bounds[rk]);
            }
        }
        let start = self.partition.start_id();
        let end = self.partition.end_id();
        let mut out: Vec<Vid> = Vec::new();
        let mut i = start as usize;
        while i < end as usize
            invariant
                self.inv(),
                start as int == self.part().start_spec(),
                end as int == self.part().end_spec(),
                start as int <= self.part().end_spec() <= self.slot_count(),
                start as usize <= i <= end as usize,
                out@.len() == i - start as usize,
                forall|m: int|
                    0 <= m < out@.len() ==> (#[trigger] out@[m]) as int == self.slot_len(
                        start as int + m,
                    ),
            decreases end as int - i,
        {
            let deg = self.g[i].len() as Vid;
            out.push(deg);
            i = i + 1;
        }
        out
    }

    fn partition(&self) -> (r: &PART) {
        &self.partition
    }
}

/// Partition boundary coverage: the generated boundary sequence has one
/// bound per rank, ends exactly at the vertex count, and assigns every
/// vertex id below the count to a real rank.
pub proof fn lemma_boundary_coverage(vertex_num: Vid, partitions: int, vid: Vid)
    requires
        1 <= partitions,
        vid < vertex_num,
    ensures
        boundaries_spec(vertex_num, partitions).len() == partitions,
        boundaries_spec(vertex_num, partitions)[partitions - 1] == vertex_num,
        0 <= owner_of(boundaries_spec(vertex_num, partitions), vid) < partitions,
{
    let bounds = boundaries_spec(vertex_num, partitions);
    lemma_owner_in_range(bounds, vid);
}

/// Partition boundary monotonicity: the bounds are non-decreasing for
/// every vertex count and rank count — the rounded chunks are capped at
/// the vertex count, so no bound overshoots a later one.
pub proof fn lemma_boundaries_sorted(vertex_num: Vid, partitions: int)
    requires
        1 <= partitions,
    ensures
        forall|i: int, j: int|
            0 <= i <= j < partitions ==> boundaries_spec(vertex_num, partitions)[i]
                <= boundaries_spec(vertex_num, partitions)[j],
{
    let c = chunk_spec(vertex_num, partitions);
    let bounds = boundaries_spec(vertex_num, partitions);
    assert(c >= 1);
    assert forall|i: int, j: int| 0 <= i <= j < partitions implies bounds[i] <= bounds[j] by {
        vstd::arithmetic::mul::lemma_mul_nonnegative(c, i + 1);
        vstd::arithmetic::mul::lemma_mul_nonnegative(c, j + 1);
        if j < partitions - 1 {
            vstd::arithmetic::mul::lemma_mul_inequality(i + 1, j + 1, c);
            vstd::arithmetic::mul::lemma_mul_is_commutative(i + 1, c);
            vstd::arithmetic::mul::lemma_mul_is_commutative(j + 1, c);
        }
    }
}

/// The edges a run of inputs places in every rank's bucket, as a multiset.
pub open spec fn multiset_of_rows<T>(rows: Seq<Seq<T>>) -> Multiset<T>
    decreases rows.len(),
{
    if rows.len() == 0 {
        Multiset::empty()
    } else {
        multiset_of_rows(rows.drop_last()).add(rows.last().to_multiset())
    }
}

/// What routing owes the cluster: each input edge once, and once more when
/// its endpoints have different owners.
pub open spec fn routed_multiset<D>(edges: Seq<EdgeView<D>>, bounds: Seq<Vid>) -> Multiset<
    EdgeView<D>,
>
    decreases edges.len(),
{
    if edges.len() == 0 {
        Multiset::empty()
    } else {
        let m = routed_multiset(edges.drop_last(), bounds);
        let e = edges.last();
        if owner_of(bounds, e.from) == owner_of(bounds, e.to) {
            m.insert(e)
        } else {
            m.insert(e).insert(e)
        }
    }
}

/// Appending one element to one row adds exactly that element to the rows'
/// multiset.
pub proof fn lemma_rows_update_push<T>(rows: Seq<Seq<T>>, p: int, x: T)
    requires
        0 <= p < rows.len(),
    ensures
        multiset_of_rows(rows.update(p, rows[p].push(x))) == multiset_of_rows(rows).insert(x),
    decreases rows.len(),
{
    broadcast use vstd::seq_lib::group_to_multiset_ensures;

    let r2 = rows.update(p, rows[p].push(x));
    if p == rows.len() - 1 {
        assert(r2.drop_last() =~= rows.drop_last());
        assert(r2.last() == rows.last().push(x));
        assert(rows.last().push(x).to_multiset() =~= rows.last().to_multiset().insert(x));
        assert(multiset_of_rows(r2) =~= multiset_of_rows(rows).insert(x));
    } else {
        lemma_rows_update_push(rows.drop_last(), p, x);
        assert(r2.drop_last() =~= rows.drop_last().update(p, rows.drop_last()[p].push(x)));
        assert(r2.last() == rows.last());
        assert(multiset_of_rows(r2) =~= multiset_of_rows(rows).insert(x));
    }
}

/// The bucket table keeps one bucket per rank.
pub proof fn lemma_bucket_len<D>(edges: Seq<EdgeView<D>>, bounds: Seq<Vid>)
    requires
        bounds.len() >= 1,
        forall|m: int|
            0 <= m < edges.len() ==> ((#[trigger] edges[m]).from < bounds[bounds.len() - 1]
                && edges[m].to < bounds[bounds.len() - 1]),
    ensures
        bucket_spec(edges, bounds).len() == bounds.len(),
    decreases edges.len(),
{
    if edges.len() > 0 {
        assert forall|m: int| 0 <= m < edges.drop_last().len() implies ((
        #[trigger] edges.drop_last()[m]).from < bounds[bounds.len() - 1]
            && edges.drop_last()[m].to < bounds[bounds.len() - 1]) by {
            assert(edges.drop_last()[m] == edges[m]);
        }
        lemma_bucket_len(edges.drop_last(), bounds);
        assert(edges[edges.len() - 1] == edges.last());
        lemma_owner_in_range(bounds, edges.last().from);
        lemma_owner_in_range(bounds, edges.last().to);
    }
}

/// Routing completeness, the per-rank half: across all buckets a rank
/// fills, every input edge appears exactly once — twice when cut — and
/// nothing else appears.
pub proof fn lemma_bucket_complete<D>(edges: Seq<EdgeView<D>>, bounds: Seq<Vid>)
    requires
        bounds.len() >= 1,
        forall|m: int|
            0 <= m < edges.len() ==> ((#[trigger] edges[m]).from < bounds[bounds.len() - 1]
                && edges[m].to < bounds[bounds.len() - 1]),
    ensures
        multiset_of_rows(bucket_spec(edges, bounds)) == routed_multiset(edges, bounds),
    decreases edges.len(),
{
    if edges.len() == 0 {
        assert(multiset_of_rows(bucket_spec(edges, bounds)) =~= routed_multiset(edges, bounds))
            by {
            lemma_rows_of_empties::<EdgeView<D>>(bucket_spec(edges, bounds));
        }
    } else {
        assert forall|m: int| 0 <= m < edges.drop_last().len() implies ((
        #[trigger] edges.drop_last()[m]).from < bounds[bounds.len() - 1]
            && edges.drop_last()[m].to < bounds[bounds.len() - 1]) by {
            assert(edges.drop_last()[m] == edges[m]);
        }
        lemma_bucket_complete(edges.drop_last(), bounds);
        lemma_bucket_len(edges.drop_last(), bounds);
        assert(edges[edges.len() - 1] == edges.last());
        let e = edges.last();
        lemma_owner_in_range(bounds, e.from);
        lemma_owner_in_range(bounds, e.to);
        let b = bucket_spec(edges.drop_last(), bounds);
        let p1 = owner_of(bounds, e.from);
        let p2 = owner_of(bounds, e.to);
        if p1 == p2 {
            lemma_rows_update_push(b, p2, e);
        } else {
            lemma_rows_update_push(b, p1, e);
            let b1 = b.update(p1, b[p1].push(e));
            lemma_rows_update_push(b1, p2, e);
        }
    }
}

/// A table of empty rows holds nothing.
pub proof fn lemma_rows_of_empties<T>(rows: Seq<Seq<T>>)
    requires
        forall|i: int| 0 <= i < rows.len() ==> (#[trigger] rows[i]).len() == 0,
    ensures
        multiset_of_rows(rows) == Multiset::<T>::empty(),
    decreases rows.len(),
{
    broadcast use vstd::seq_lib::group_to_multiset_ensures;

    if rows.len() > 0 {
        assert forall|i: int| 0 <= i < rows.drop_last().len() implies (#[trigger] rows.drop_last()[
        i]).len() == 0 by {
            assert(rows.drop_last()[i] == rows[i]);
        }
        lemma_rows_of_empties(rows.drop_last());
        assert(rows[rows.len() - 1] == rows.last());
        assert(rows.last().to_multiset().len() == 0);
        assert(multiset_of_rows(rows) =~= Multiset::<T>::empty());
    }
}

/// Each input edge lands in the bucket of its source's owner and in the
/// bucket of its target's owner.
pub proof fn lemma_bucket_routes<D>(edges: Seq<EdgeView<D>>, bounds: Seq<Vid>, k: int)
    requires
        bounds.len() >= 1,
        0 <= k < edges.len(),
        forall|m: int|
            0 <= m < edges.len() ==> ((#[trigger] edges[m]).from < bounds[bounds.len() - 1]
                && edges[m].to < bounds[bounds.len() - 1]),
    ensures
        bucket_spec(edges, bounds)[owner_of(bounds, edges[k].from)].contains(edges[k]),
        bucket_spec(edges, bounds)[owner_of(bounds, edges[k].to)].contains(edges[k]),
    decreases edges.len(),
{
    assert forall|m: int| 0 <= m < edges.drop_last().len() implies ((
    #[trigger] edges.drop_last()[m]).from < bounds[bounds.len() - 1] && edges.drop_last()[m].to
        < bounds[bounds.len() - 1]) by {
        assert(edges.drop_last()[m] == edges[m]);
    }
    lemma_bucket_len(edges.drop_last(), bounds);
    let b = bucket_spec(edges.drop_last(), bounds);
    let e = edges.last();
    assert(edges[edges.len() - 1] == edges.last());
    lemma_owner_in_range(bounds, e.from);
    lemma_owner_in_range(bounds, e.to);
    let p1 = owner_of(bounds, e.from);
    let p2 = owner_of(bounds, e.to);
    if k == edges.len() - 1 {
        if p1 == p2 {
            let fin = b.update(p2, b[p2].push(e));
            assert(fin[p2].last() == e);
            assert(fin[p1].contains(e));
        } else {
            let b1 = b.update(p1, b[p1].push(e));
            let fin = b1.update(p2, b1[p2].push(e));
            assert(fin[p2].last() == e);
            assert(fin[p2].contains(e));
            assert(fin[p1] == b1[p1]);
            assert(b1[p1].last() == e);
            assert(fin[p1].contains(e));
        }
    } else {
        lemma_bucket_routes(edges.drop_last(), bounds, k);
        lemma_owner_in_range(bounds, edges[k].from);
        lemma_owner_in_range(bounds, edges[k].to);
        let q1 = owner_of(bounds, edges[k].from);
        let q2 = owner_of(bounds, edges[k].to);
        lemma_bucket_push_monotone(b, p1, p2, e, q1, edges[k]);
        lemma_bucket_push_monotone(b, p1, p2, e, q2, edges[k]);
    }
}

/// Adding one more edge to the buckets never removes an entry.
proof fn lemma_bucket_push_monotone<D>(
    b: Seq<Seq<EdgeView<D>>>,
    p1: int,
    p2: int,
    e: EdgeView<D>,
    q: int,
    x: EdgeView<D>,
)
    requires
        0 <= p1 < b.len(),
        0 <= p2 < b.len(),
        0 <= q < b.len(),
        b[q].contains(x),
    ensures
        (if p1 == p2 {
            b.update(p2, b[p2].push(e))
        } else {
            let b1 = b.update(p1, b[p1].push(e));
            b1.update(p2, b1[p2].push(e))
        })[q].contains(x),
{
    let j = choose|j: int| 0 <= j < b[q].len() && b[q][j] == x;
    if p1 == p2 {
        assert(b.update(p2, b[p2].push(e))[q][j] == x);
    } else {
        let b1 = b.update(p1, b[p1].push(e));
        let fin = b1.update(p2, b1[p2].push(e));
        assert(fin[q][j] == x);
    }
}

/// Everything a whole matrix of buckets holds, as one multiset.
pub open spec fn matrix_multiset<T>(m: Seq<Seq<Seq<T>>>) -> Multiset<T>
    decreases m.len(),
{
    if m.len() == 0 {
        Multiset::empty()
    } else {
        matrix_multiset(m.drop_last()).add(multiset_of_rows(m.last()))
    }
}

/// A matrix of empty rows holds nothing.
proof fn lemma_matrix_empties<T>(m: Seq<Seq<Seq<T>>>)
    requires
        forall|i: int| 0 <= i < m.len() ==> (#[trigger] m[i]).len() == 0,
    ensures
        matrix_multiset(m) == Multiset::<T>::empty(),
    decreases m.len(),
{
    if m.len() > 0 {
        assert forall|i: int| 0 <= i < m.drop_last().len() implies (#[trigger] m.drop_last()[
        i]).len() == 0 by {
            assert(m.drop_last()[i] == m[i]);
        }
        lemma_matrix_empties(m.drop_last());
        assert(m[m.len() - 1] == m.last());
        assert(matrix_multiset(m) =~= Multiset::<T>::empty());
    }
}

/// Appending one cell to every row of a matrix, in parallel, adds exactly
/// those cells' contents.
proof fn lemma_matrix_push_each<T>(cols: Seq<Seq<Seq<T>>>, row: Seq<Seq<T>>)
    requires
        cols.len() == row.len(),
    ensures
        matrix_multiset(Seq::new(cols.len(), |j: int| cols[j].push(row[j])))
            == matrix_multiset(cols).add(multiset_of_rows(row)),
    decreases cols.len(),
{
    broadcast use vstd::seq_lib::group_to_multiset_ensures;

    let z = Seq::new(cols.len(), |j: int| cols[j].push(row[j]));
    if cols.len() == 0 {
        assert(z =~= Seq::<Seq<Seq<T>>>::empty());
        assert(matrix_multiset(z) =~= matrix_multiset(cols).add(multiset_of_rows(row)));
    } else {
        lemma_matrix_push_each(cols.drop_last(), row.drop_last());
        let z0 = Seq::new(cols.drop_last().len(), |j: int| cols.drop_last()[j].push(
            row.drop_last()[j],
        ));
        assert(z.drop_last() =~~= z0);
        assert(z.last() == cols.last().push(row.last()));
        assert(cols.last().push(row.last()).drop_last() =~= cols.last());
        assert(multiset_of_rows(cols.last().push(row.last())) == multiset_of_rows(
            cols.last(),
        ).add(row.last().to_multiset()));
        assert(row[row.len() - 1] == row.last());
        assert(matrix_multiset(z) =~= matrix_multiset(cols).add(multiset_of_rows(row)));
    }
}

/// The columns of a rectangular matrix whose rows all have width `w`.
pub open spec fn columns_of<T>(m: Seq<Seq<T>>, w: int) -> Seq<Seq<T>> {
    Seq::new(w as nat, |j: int| Seq::new(m.len(), |i: int| m[i][j]))
}

/// Reading a bucket matrix by columns finds exactly what reading it by
/// rows does: one collective round, which hands each rank a column, moves
/// buckets without losing or fabricating any.
proof fn lemma_columns_multiset<T>(m: Seq<Seq<Seq<T>>>, w: int)
    requires
        0 <= w,
        forall|i: int| 0 <= i < m.len() ==> (#[trigger] m[i]).len() == w,
    ensures
        matrix_multiset(columns_of(m, w)) == matrix_multiset(m),
    decreases m.len(),
{
    if m.len() == 0 {
        assert forall|j: int| 0 <= j < w implies (#[trigger] columns_of(m, w)[j]).len() == 0 by {}
        lemma_matrix_empties(columns_of(m, w));
    } else {
        let m0 = m.drop_last();
        let row = m.last();
        assert forall|i: int| 0 <= i < m0.len() implies (#[trigger] m0[i]).len() == w by {
            assert(m0[i] == m[i]);
        }
        lemma_columns_multiset(m0, w);
        assert(m[m.len() - 1] == m.last());
        lemma_matrix_push_each(columns_of(m0, w), row);
        let z = Seq::new(columns_of(m0, w).len(), |j: int| columns_of(m0, w)[j].push(row[j]));
        assert(columns_of(m, w) =~~= z);
    }
}

/// The concatenation of a run of rows holds exactly the rows' multisets.
pub proof fn lemma_flatten_multiset<T>(rows: Seq<Seq<T>>)
    ensures
        rows.flatten().to_multiset() == multiset_of_rows(rows),
    decreases rows.len(),
{
    broadcast use vstd::seq_lib::group_to_multiset_ensures;

    rows.lemma_flatten_and_flatten_alt_are_equivalent();
    if rows.len() == 0 {
        assert(rows.flatten().to_multiset() =~= multiset_of_rows(rows));
    } else {
        lemma_flatten_multiset(rows.drop_last());
        rows.drop_last().lemma_flatten_and_flatten_alt_are_equivalent();
        lemma_concat_multiset(rows.drop_last().flatten_alt(), rows.last());
    }
}

/// Concatenation adds multisets.
pub proof fn lemma_concat_multiset<T>(a: Seq<T>, b: Seq<T>)
    ensures
        (a + b).to_multiset() == a.to_multiset().add(b.to_multiset()),
    decreases b.len(),
{
    broadcast use vstd::seq_lib::group_to_multiset_ensures;

    if b.len() == 0 {
        assert(a + b =~= a);
        assert((a + b).to_multiset() =~= a.to_multiset().add(b.to_multiset()));
    } else {
        lemma_concat_multiset(a, b.drop_last());
        assert(a + b =~= (a + b.drop_last()).push(b.last()));
        assert(b.drop_last().push(b.last()) =~= b);
        assert((a + b).to_multiset() =~= a.to_multiset().add(b.to_multiset()));
    }
}

/// An entry of any row appears in the rows' concatenation.
pub proof fn lemma_flatten_contains<T>(rows: Seq<Seq<T>>, i: int, x: T)
    requires
        0 <= i < rows.len(),
        rows[i].contains(x),
    ensures
        rows.flatten().contains(x),
    decreases rows.len(),
{
    if i == 0 {
        let j = choose|j: int| 0 <= j < rows[0].len() && rows[0][j] == x;
        assert(rows.flatten() == rows.first() + rows.drop_first().flatten());
        assert(rows.flatten()[j] == x);
    } else {
        lemma_flatten_contains(rows.drop_first(), i - 1, x);
        let j = choose|j: int|
            0 <= j < rows.drop_first().flatten().len() && rows.drop_first().flatten()[j] == x;
        assert(rows.flatten() == rows.first() + rows.drop_first().flatten());
        assert(rows.flatten()[rows.first().len() + j] == x);
    }
}

/// The buckets every rank fills, as one matrix: row `i` holds what rank
/// `i` routes to each destination.
pub open spec fn cluster_buckets<D>(
    all_edges: Seq<Seq<EdgeView<D>>>,
    bounds: Seq<Vid>,
) -> Seq<Seq<Seq<EdgeView<D>>>> {
    Seq::new(all_edges.len(), |i: int| bucket_spec(all_edges[i], bounds))
}

/// What rank `j` holds after redistribution: the concatenation, in rank
/// order, of the buckets every rank addressed to it.
pub open spec fn redistributed<D>(
    all_edges: Seq<Seq<EdgeView<D>>>,
    bounds: Seq<Vid>,
    j: int,
) -> Seq<EdgeView<D>> {
    crate::exchange::transpose(cluster_buckets(all_edges, bounds))[j].flatten()
}

/// What routing owes the whole cluster.
pub open spec fn total_routed<D>(all_edges: Seq<Seq<EdgeView<D>>>, bounds: Seq<Vid>) -> Multiset<
    EdgeView<D>,
>
    decreases all_edges.len(),
{
    if all_edges.len() == 0 {
        Multiset::empty()
    } else {
        total_routed(all_edges.drop_last(), bounds).add(
            routed_multiset(all_edges.last(), bounds),
        )
    }
}

/// Edge redistribution completeness: with rank `i` holding `all_edges[i]`,
/// after one collective round every edge appears in the local set of both
/// its endpoints' owners, and the multiset union across all ranks of the
/// redistributed sets is exactly the input multiset with each cut edge
/// counted twice — nothing fabricated, nothing dropped.
pub proof fn lemma_redistribution_complete<D>(all_edges: Seq<Seq<EdgeView<D>>>, bounds: Seq<Vid>)
    requires
        all_edges.len() == bounds.len(),
        bounds.len() >= 1,
        forall|i: int, k: int|
            0 <= i < all_edges.len() && 0 <= k < all_edges[i].len() ==> ((#[trigger] all_edges[i][
            k]).from < bounds[bounds.len() - 1] && all_edges[i][k].to < bounds[bounds.len() - 1]),
    ensures
        matrix_multiset(crate::exchange::transpose(cluster_buckets(all_edges, bounds)))
            == total_routed(all_edges, bounds),
        forall|j: int|
            0 <= j < bounds.len() ==> (#[trigger] redistributed(all_edges, bounds, j)).to_multiset()
                == multiset_of_rows(
                crate::exchange::transpose(cluster_buckets(all_edges, bounds))[j],
            ),
        forall|i: int, k: int|
            0 <= i < all_edges.len() && 0 <= k < all_edges[i].len() ==> {
                let e = #[trigger] all_edges[i][k];
                redistributed(all_edges, bounds, owner_of(bounds, e.from)).contains(e)
                    && redistributed(all_edges, bounds, owner_of(bounds, e.to)).contains(e)
            },
{
    let n = bounds.len() as int;
    let cb = cluster_buckets(all_edges, bounds);
    let tr = crate::exchange::transpose(cb);
    assert forall|i: int| 0 <= i < cb.len() implies (#[trigger] cb[i]).len() == n by {
        assert forall|k: int| 0 <= k < all_edges[i].len() implies ((#[trigger] all_edges[i][
        k]).from < bounds[bounds.len() - 1] && all_edges[i][k].to < bounds[bounds.len() - 1]) by {}
        lemma_bucket_len(all_edges[i], bounds);
    }
    lemma_columns_multiset(cb, n);
    assert(tr =~~= columns_of(cb, n));
    assert(matrix_multiset(cb) == total_routed(all_edges, bounds)) by {
        lemma_cluster_total(all_edges, bounds);
    }
    assert forall|j: int| 0 <= j < bounds.len() implies (#[trigger] redistributed(
        all_edges,
        bounds,
        j,
    )).to_multiset() == multiset_of_rows(tr[j]) by {
        lemma_flatten_multiset(tr[j]);
    }
    assert forall|i: int, k: int|
        0 <= i < all_edges.len() && 0 <= k < all_edges[i].len() implies {
        let e = #[trigger] all_edges[i][k];
        redistributed(all_edges, bounds, owner_of(bounds, e.from)).contains(e) && redistributed(
            all_edges,
            bounds,
            owner_of(bounds, e.to),
        ).contains(e)
    } by {
        let e = all_edges[i][k];
        assert forall|m: int| 0 <= m < all_edges[i].len() implies ((#[trigger] all_edges[i][
        m]).from < bounds[bounds.len() - 1] && all_edges[i][m].to < bounds[bounds.len() - 1]) by {}
        lemma_bucket_routes(all_edges[i], bounds, k);
        lemma_owner_in_range(bounds, e.from);
        lemma_owner_in_range(bounds, e.to);
        let p1 = owner_of(bounds, e.from);
        let p2 = owner_of(bounds, e.to);
        assert(tr[p1][i] == cb[i][p1]);
        assert(tr[p2][i] == cb[i][p2]);
        lemma_flatten_contains(tr[p1], i, e);
        lemma_flatten_contains(tr[p2], i, e);
    }
}

/// Summing the per-rank bucket matrices row by row gives what routing owes.
proof fn lemma_cluster_total<D>(all_edges: Seq<Seq<EdgeView<D>>>, bounds: Seq<Vid>)
    requires
        bounds.len() >= 1,
        forall|i: int, k: int|
            0 <= i < all_edges.len() && 0 <= k < all_edges[i].len() ==> ((#[trigger] all_edges[i][
            k]).from < bounds[bounds.len() - 1] && all_edges[i][k].to < bounds[bounds.len() - 1]),
    ensures
        matrix_multiset(cluster_buckets(all_edges, bounds)) == total_routed(all_edges, bounds),
    decreases all_edges.len(),
{
    let cb = cluster_buckets(all_edges, bounds);
    if all_edges.len() == 0 {
        assert(cb =~~= Seq::<Seq<Seq<EdgeView<D>>>>::empty());
    } else {
        let a0 = all_edges.drop_last();
        assert forall|i: int, k: int|
            0 <= i < a0.len() && 0 <= k < a0[i].len() implies ((#[trigger] a0[i][k]).from < bounds[
        bounds.len() - 1] && a0[i][k].to < bounds[bounds.len() - 1]) by {
            assert(a0[i] == all_edges[i]);
        }
        lemma_cluster_total(a0, bounds);
        assert(cb.drop_last() =~~= cluster_buckets(a0, bounds));
        assert(cb.last() == bucket_spec(all_edges.last(), bounds));
        assert(all_edges[all_edges.len() - 1] == all_edges.last());
        assert forall|m: int| 0 <= m < all_edges.last().len() implies ((
        #[trigger] all_edges.last()[m]).from < bounds[bounds.len() - 1] && all_edges.last()[m].to
            < bounds[bounds.len() - 1]) by {}
        lemma_bucket_complete(all_edges.last(), bounds);
    }
}

} // verus!
