//! The collective-communication substrate as its callers see it: an
//! all-to-all exchange and a reduction, synchronous from the caller's side,
//! over any transport that implements the binary round. The typed layers
//! here are verified once, on top of the transport's contract; the frame
//! protocol that a faithful transport runs is the verified machinery in
//! `frame` and `exchange`.

use vstd::prelude::*;

use crate::cluster::ClusterInfo;
use crate::codec::{decode, encode, Codec, Dup};
use crate::error::ComError;

verus! {

/// A combining step with an exact mathematical meaning. The reduction
/// folds received contributions in rank order, so only steps that are
/// commutative and associative may be used: the trait demands the proofs,
/// which makes the fold's value independent of arrival order.
pub trait Combine<D: DeepView>: Sized {
    /// The mathematical meaning of one combining step.
    spec fn combine_spec(&self, a: D::V, b: D::V) -> D::V;

    proof fn lemma_commutative(&self, a: D::V, b: D::V)
        ensures
            self.combine_spec(a, b) == self.combine_spec(b, a),
    ;

    proof fn lemma_associative(&self, a: D::V, b: D::V, c: D::V)
        ensures
            self.combine_spec(self.combine_spec(a, b), c) == self.combine_spec(
                a,
                self.combine_spec(b, c),
            ),
    ;

    fn combine(&self, a: D, b: D) -> (r: D)
        ensures
            r.deep_view() == self.combine_spec(a.deep_view(), b.deep_view()),
    ;
}

/// The left-to-right (rank-order) fold of a nonempty sequence of
/// contributions.
pub open spec fn fold_combine<D: DeepView, C: Combine<D>>(c: C, vals: Seq<D::V>) -> D::V
    recommends
        vals.len() >= 1,
    decreases vals.len(),
{
    if vals.len() <= 1 {
        vals[0]
    } else {
        c.combine_spec(fold_combine(c, vals.drop_last()), vals.last())
    }
}

/// Any one contribution can be pulled out of the fold.
pub proof fn lemma_fold_pull_out<D: DeepView, C: Combine<D>>(c: C, vals: Seq<D::V>, i: int)
    requires
        vals.len() >= 2,
        0 <= i < vals.len(),
    ensures
        fold_combine(c, vals) == c.combine_spec(fold_combine(c, vals.remove(i)), vals[i]),
    decreases vals.len(),
{
    if i == vals.len() - 1 {
        assert(vals.remove(i) =~= vals.drop_last());
        assert(fold_combine(c, vals) == c.combine_spec(fold_combine(c, vals.drop_last()), vals.last()));
        assert(vals[i] == vals.last());
    } else if vals.len() == 2 {
        assert(vals.remove(0) =~= seq![vals[1]]);
        assert(vals.drop_last() =~= seq![vals[0]]);
        assert(fold_combine(c, vals.drop_last()) == vals[0]);
        assert(fold_combine(c, vals.remove(0)) == vals[1]);
        assert(fold_combine(c, vals) == c.combine_spec(vals[0], vals[1]));
        c.lemma_commutative(vals[0], vals[1]);
    } else {
        let dl = vals.drop_last();
        let last = vals.last();
        lemma_fold_pull_out(c, dl, i);
        assert(dl[i] == vals[i]);
        assert(fold_combine(c, vals) == c.combine_spec(fold_combine(c, dl), last));
        assert(fold_combine(c, dl) == c.combine_spec(fold_combine(c, dl.remove(i)), dl[i]));
        let f = fold_combine(c, dl.remove(i));
        c.lemma_associative(f, dl[i], last);
        c.lemma_commutative(dl[i], last);
        c.lemma_associative(f, last, dl[i]);
        assert(fold_combine(c, vals) == c.combine_spec(c.combine_spec(f, last), dl[i]));
        assert(vals.remove(i).drop_last() =~= dl.remove(i));
        assert(vals.remove(i).last() == last);
        assert(vals.remove(i).len() >= 2);
        assert(fold_combine(c, vals.remove(i)) == c.combine_spec(f, last));
    }
}

/// Reduction correctness, the order half: for a commutative-associative
/// combiner, the fold of a nonempty sequence of contributions depends only
/// on the multiset of contributions — any two arrival orders fold to the
/// same value.
pub proof fn lemma_fold_multiset<D: DeepView, C: Combine<D>>(c: C, s1: Seq<D::V>, s2: Seq<D::V>)
    requires
        s1.len() >= 1,
        s1.to_multiset() == s2.to_multiset(),
    ensures
        fold_combine(c, s1) == fold_combine(c, s2),
    decreases s1.len(),
{
    broadcast use vstd::seq_lib::group_to_multiset_ensures;

    assert(s1.len() == s1.to_multiset().len());
    assert(s2.len() == s2.to_multiset().len());
    assert(s1.len() == s2.len());
    if s1.len() == 1 {
        assert(s1.to_multiset().count(s1[0]) > 0);
        assert(s2.contains(s1[0]));
        assert(s2[0] == s1[0]);
    } else {
        let x = s1.last();
        assert(s1.contains(x));
        assert(s1.to_multiset().count(x) > 0);
        assert(s2.contains(x));
        let i = choose|i: int| 0 <= i < s2.len() && s2[i] == x;
        lemma_fold_pull_out(c, s2, i);
        assert(s1.drop_last() =~= s1.remove(s1.len() - 1));
        assert(s1.remove(s1.len() - 1).to_multiset() == s1.to_multiset().remove(x));
        assert(s2.remove(i).to_multiset() == s2.to_multiset().remove(x));
        lemma_fold_multiset(c, s1.drop_last(), s2.remove(i));
    }
}

/// Fold a nonempty sequence of received contributions in rank order.
pub fn reduce_values<D: Codec, C: Combine<D>>(vals: Vec<D>, c: &C) -> (r: D)
    requires
        vals@.len() >= 1,
    ensures
        r.deep_view() == fold_combine(*c, vals.deep_view()),
{
    let ghost all = vals.deep_view();
    let mut rest = vals;
    let ghost first_dv = rest.deep_view();
    let mut acc = rest.remove(0);
    let ghost mut k: int = 1;
    proof {
        assert(first_dv[0] == all[0]);
        assert(fold_combine(*c, all.take(1)) == all.take(1)[0]);
        assert(acc.deep_view() == fold_combine(*c, all.take(1)));
        assert forall|m: int| 0 <= m < rest@.len() implies rest.deep_view()[m] == all.skip(1)[m] by {
            assert(rest@[m] == vals@[m + 1]);
        }
        assert(rest.deep_view() =~= all.skip(1));
    }
    while rest.len() > 0
        invariant
            1 <= k <= all.len(),
            all == vals.deep_view(),
            rest.deep_view() == all.skip(k),
            acc.deep_view() == fold_combine(*c, all.take(k)),
        decreases all.len() - k,
    {
        proof {
            assert(rest.deep_view().len() == rest@.len());
            assert(all.skip(k).len() == all.len() - k);
            assert(k < all.len());
        }
        let ghost pre = rest@;
        let ghost pre_dv = rest.deep_view();
        let nxt = rest.remove(0);
        proof {
            assert(pre_dv == all.skip(k));
            assert(nxt == pre[0]);
            assert(pre_dv[0] == pre[0].deep_view());
            assert(all.skip(k) == all.subrange(k, all.len() as int));
            assert(all.subrange(k, all.len() as int)[0] == all[k]);
            assert(nxt.deep_view() == all[k]);
            assert forall|m: int| 0 <= m < rest@.len() implies rest.deep_view()[m] == all.skip(
                k + 1,
            )[m] by {
                assert(rest@[m] == pre[m + 1]);
                assert(pre_dv[m + 1] == pre[m + 1].deep_view());
                assert(all.subrange(k, all.len() as int)[m + 1] == all[k + 1 + m]);
                assert(all.subrange(k + 1, all.len() as int)[m] == all[k + 1 + m]);
                assert(all.skip(k + 1) == all.subrange(k + 1, all.len() as int));
            }
            assert(rest.deep_view() =~= all.skip(k + 1));
        }
        acc = c.combine(acc, nxt);
        proof {
            assert(all.take(k + 1).drop_last() =~= all.take(k));
            assert(all.take(k + 1).last() == all[k]);
            assert(fold_combine(*c, all.take(k + 1)) == c.combine_spec(
                fold_combine(*c, all.take(k)),
                all[k],
            ));
            k = k + 1;
        }
    }
    proof {
        assert(all.take(all.len() as int) =~= all);
    }
    acc
}

/// The synchronous collective substrate of the job: identity, an
/// all-to-all exchange, and a reduction built on it. Every rank must
/// invoke each collective with matching arguments in the same round; a
/// successful return is a barrier.
pub trait MyMpi: Sized {
    /// The topology this communicator was configured with.
    spec fn spec_cluster(&self) -> ClusterInfo;

    /// The communicator is usable.
    spec fn wf(&self) -> bool;

    /// A usable communicator has a well-formed topology.
    proof fn lemma_wf(&self)
        requires
            self.wf(),
        ensures
            self.spec_cluster().wf(),
    ;

    /// Total rank count.
    fn partitions(&self) -> (r: usize)
        requires
            self.wf(),
        ensures
            r == self.spec_cluster().partitions,
    ;

    fn get_cluster_info(&self) -> (r: &ClusterInfo)
        requires
            self.wf(),
        ensures
            *r == self.spec_cluster(),
    ;

    /// One synchronous all-to-all round: `msgs[i]` is sent to rank `i`
    /// (the slot for this rank short-circuits locally, never touching the
    /// transport) and slot `i` of the result holds the complete message
    /// received from rank `i`. Every participating rank must enter the
    /// round with `partitions` messages at the same time; the call returns
    /// only once every peer's message is fully received, so a successful
    /// return is a barrier. What a faithful transport delivers cross-rank
    /// is the transpose law proved of the frame machinery in `exchange`;
    /// a local contract can pin only the loopback slot.
    fn send_recv_binary(&self, msgs: Vec<Vec<u8>>) -> (r: Result<Vec<Vec<u8>>, ComError>)
        requires
            self.wf(),
            msgs@.len() == self.spec_cluster().partitions,
        ensures
            r matches Ok(v) ==> {
                &&& v.deep_view().len() == self.spec_cluster().partitions
                &&& v.deep_view()[self.spec_cluster().rank as int] == msgs.deep_view()[self.spec_cluster().rank as int]
            },
    ;

    /// The typed exchange: encode each message, run the binary round,
    /// decode each result. Encoding is total; a payload that does not
    /// decode as `M` fails the round with a codec error rather than
    /// producing a default.
    fn send_recv<M: Codec>(&self, msgs: Vec<M>) -> (r: Result<Vec<M>, ComError>)
        requires
            self.wf(),
            msgs@.len() == self.spec_cluster().partitions,
        ensures
            r matches Ok(v) ==> {
                &&& v.deep_view().len() == self.spec_cluster().partitions
                &&& v.deep_view()[self.spec_cluster().rank as int] == msgs.deep_view()[self.spec_cluster().rank as int]
            },
    {
        proof {
            self.lemma_wf();
        }
        let n = msgs.len();
        let mut bytes: Vec<Vec<u8>> = Vec::new();
        let mut i: usize = 0;
        while i < n
            invariant
                i <= n,
                n == msgs@.len(),
                bytes.deep_view().len() == i,
                forall|m: int|
                    0 <= m < i ==> (#[trigger] bytes.deep_view()[m]) == msgs@[m].enc(),
            decreases n - i,
        {
            let ghost before = bytes.deep_view();
            let enc = encode(&msgs[i]);
            bytes.push(enc);
            proof {
                assert(bytes.deep_view() =~~= before.push(msgs@[i as int].enc()));
            }
            i = i + 1;
        }
        let recv = match self.send_recv_binary(bytes) {
            Ok(v) => v,
            Err(e) => {
                return Err(e);
            },
        };
        let ghost rank = self.spec_cluster().rank as int;
        let mut out: Vec<M> = Vec::new();
        let mut k: usize = 0;
        let rn = recv.len();
        while k < rn
            invariant
                k <= rn,
                rn == recv@.len() == self.spec_cluster().partitions,
                out.deep_view().len() == k,
                recv.deep_view()[rank] == msgs@[rank].enc(),
                0 <= rank < rn,
                rank == self.spec_cluster().rank as int,
                msgs@.len() == self.spec_cluster().partitions,
                forall|m: int|
                    0 <= m < msgs@.len() ==> (#[trigger] recv.deep_view()[m]) == recv@[m]@,
                rank < k ==> out.deep_view()[rank] == msgs.deep_view()[rank],
            decreases rn - k,
        {
            let ghost before = out.deep_view();
            let item = match decode::<M>(&recv[k]) {
                Ok(v) => v,
                Err(e) => {
                    return Err(e);
                },
            };
            proof {
                if k as int == rank {
                    assert(recv@[k as int]@ == msgs@[k as int].enc());
                    assert(item.deep_view() == msgs@[k as int].deep_view());
                }
            }
            out.push(item);
            proof {
                assert(out.deep_view() =~= before.push(item.deep_view()));
            }
            k = k + 1;
        }
        Ok(out)
    }

    /// The reduction: broadcast `data` to every peer and fold the
    /// `partitions` received contributions in rank order with `c`. The
    /// combiner's laws make the fold order-independent; a successful call
    /// returns the fold of a full round of contributions in which this
    /// rank's own slot holds `data`.
    fn reduce<D: Codec + Dup, C: Combine<D>>(&self, data: D, c: &C) -> (r: Result<D, ComError>)
        requires
            self.wf(),
        ensures
            r matches Ok(v) ==> exists|vals: Seq<<D as DeepView>::V>|
                {
                    &&& vals.len() == self.spec_cluster().partitions
                    &&& vals[self.spec_cluster().rank as int] == data.deep_view()
                    &&& v.deep_view() == fold_combine(*c, vals)
                },
    {
        proof {
            self.lemma_wf();
        }
        let n = self.partitions();
        let mut msgs: Vec<D> = Vec::new();
        let mut i: usize = 0;
        while i < n
            invariant
                i <= n,
                msgs.deep_view().len() == i,
                forall|m: int| 0 <= m < i ==> (#[trigger] msgs.deep_view()[m]) == data.deep_view(),
            decreases n - i,
        {
            let ghost before = msgs.deep_view();
            let copy = data.dup();
            msgs.push(copy);
            proof {
                assert(msgs.deep_view() =~= before.push(data.deep_view()));
            }
            i = i + 1;
        }
        let recv = match self.send_recv::<D>(msgs) {
            Ok(v) => v,
            Err(e) => {
                return Err(e);
            },
        };
        let folded = reduce_values(recv, c);
        Ok(folded)
    }
}

/// One whole typed collective round for an in-process cluster: encode
/// every rank's messages, run the frame-level round, decode what each rank
/// received. Every rank ends holding, at index `i`, a value equal to the
/// one rank `i` addressed to it — the typed layer composed with the frame
/// protocol reproduces the transpose exactly, and since every delivered
/// buffer is an exact encoding, no decode can fail.
pub fn exchange_all_typed<M: Codec>(msgs: &Vec<Vec<M>>) -> (r: Vec<Vec<M>>)
    requires
        1 <= msgs@.len() <= u32::MAX,
        forall|i: int| 0 <= i < msgs@.len() ==> (#[trigger] msgs@[i])@.len() == msgs@.len(),
    ensures
        r.deep_view().len() == msgs@.len(),
        forall|j: int| 0 <= j < msgs@.len() ==> (#[trigger] r.deep_view()[j]).len() == msgs@.len(),
        forall|i: int, j: int|
            0 <= i < msgs@.len() && 0 <= j < msgs@.len() ==> #[trigger] r.deep_view()[j][i]
                == msgs.deep_view()[i][j],
{
    let n = msgs.len();
    let mut bytes: Vec<Vec<Vec<u8>>> = Vec::new();
    let mut i: usize = 0;
    while i < n
        invariant
            i <= n,
            n == msgs@.len(),
            forall|k: int| 0 <= k < n ==> (#[trigger] msgs@[k])@.len() == n,
            bytes.deep_view().len() == i,
            forall|k: int| 0 <= k < i ==> (#[trigger] bytes.deep_view()[k]).len() == n,
            forall|k: int, j: int|
                0 <= k < i && 0 <= j < n ==> #[trigger] bytes.deep_view()[k][j] == msgs@[k]@[
                    j].enc(),
        decreases n - i,
    {
        let row = &msgs[i];
        let mut out_row: Vec<Vec<u8>> = Vec::new();
        let mut j: usize = 0;
        while j < row.len()
            invariant
                j <= row@.len(),
                row == &msgs@[i as int],
                i < n == msgs@.len(),
                row@.len() == n,
                out_row.deep_view().len() == j,
                forall|m: int|
                    0 <= m < j ==> (#[trigger] out_row.deep_view()[m]) == row@[m].enc(),
            decreases row@.len() - j,
        {
            let ghost before = out_row.deep_view();
            let enc_cell = encode(&row[j]);
            out_row.push(enc_cell);
            proof {
                assert(out_row.deep_view() =~~= before.push(row@[j as int].enc()));
            }
            j = j + 1;
        }
        let ghost brows = bytes.deep_view();
        bytes.push(out_row);
        proof {
            assert(bytes.deep_view() =~~= brows.push(
                Seq::new(n as nat, |m: int| msgs@[i as int]@[m].enc()),
            ));
        }
        i = i + 1;
    }
    proof {
        assert(bytes@.len() == bytes.deep_view().len());
        assert forall|k: int| 0 <= k < bytes@.len() implies (#[trigger] bytes@[k])@.len()
            == bytes@.len() by {
            assert(bytes.deep_view()[k] == bytes@[k].deep_view());
            assert(bytes@[k].deep_view().len() == bytes@[k]@.len());
        }
    }
    let recv = crate::exchange::exchange_all_ranks(&bytes);
    let ghost rv = recv.deep_view();
    proof {
        assert(rv == crate::exchange::transpose(bytes.deep_view()));
    }
    let mut out: Vec<Vec<M>> = Vec::new();
    let mut jj: usize = 0;
    while jj < n
        invariant
            jj <= n,
            n == msgs@.len(),
            forall|k: int| 0 <= k < n ==> (#[trigger] msgs@[k])@.len() == n,
            recv@.len() == n,
            rv == recv.deep_view(),
            rv.len() == n,
            forall|j: int| 0 <= j < n ==> (#[trigger] rv[j]).len() == n,
            forall|i2: int, j: int|
                0 <= i2 < n && 0 <= j < n ==> #[trigger] rv[j][i2] == msgs@[i2]@[j].enc(),
            out.deep_view().len() == jj,
            forall|j: int| 0 <= j < jj ==> (#[trigger] out.deep_view()[j]).len() == n,
            forall|i2: int, j: int|
                0 <= i2 < n && 0 <= j < jj ==> #[trigger] out.deep_view()[j][i2]
                    == msgs.deep_view()[i2][j],
        decreases n - jj,
    {
        let row = &recv[jj];
        proof {
            assert(row.deep_view() == rv[jj as int]);
            assert(row.deep_view().len() == row@.len());
        }
        let mut typed: Vec<M> = Vec::new();
        let mut i2: usize = 0;
        while i2 < row.len()
            invariant
                i2 <= row@.len(),
                jj < n == msgs@.len(),
                forall|k: int| 0 <= k < n ==> (#[trigger] msgs@[k])@.len() == n,
                row@.len() == n,
                forall|m: int| 0 <= m < n ==> (#[trigger] row.deep_view()[m]) == msgs@[m]@[
                    jj as int].enc(),
                row.deep_view().len() == n,
                typed.deep_view().len() == i2,
                forall|m: int|
                    0 <= m < i2 ==> (#[trigger] typed.deep_view()[m]) == msgs.deep_view()[m][
                        jj as int],
            decreases row@.len() - i2,
        {
            proof {
                assert(row.deep_view()[i2 as int] == row@[i2 as int]@);
            }
            let cell = match decode::<M>(&row[i2]) {
                Ok(v) => v,
                Err(_) => {
                    proof {
                        assert(row@[i2 as int]@ == msgs@[i2 as int]@[jj as int].enc());
                        assert(false);
                    }
                    return Vec::new();
                },
            };
            let ghost before = typed.deep_view();
            typed.push(cell);
            proof {
                assert(msgs.deep_view()[i2 as int][jj as int] == msgs@[i2 as int]@[
                    jj as int].deep_view());
                assert(typed.deep_view() =~= before.push(cell.deep_view()));
            }
            i2 = i2 + 1;
        }
        let ghost orows = out.deep_view();
        out.push(typed);
        proof {
            assert(out.deep_view() =~~= orows.push(
                Seq::new(n as nat, |m: int| msgs.deep_view()[m][jj as int]),
            ));
        }
        jj = jj + 1;
    }
    out
}

/// The substrate for a job of one rank: every collective is the loopback
/// path, moving each value straight into its result slot without touching
/// any transport.
pub struct LoopbackComm {
    cluster_info: ClusterInfo,
}

impl LoopbackComm {
    pub fn new() -> (r: LoopbackComm)
        ensures
            r.wf(),
            r.spec_cluster() == (ClusterInfo { partitions: 1, rank: 0 }),
    {
        LoopbackComm { cluster_info: ClusterInfo { partitions: 1, rank: 0 } }
    }
}

impl MyMpi for LoopbackComm {
    closed spec fn spec_cluster(&self) -> ClusterInfo {
        self.cluster_info
    }

    closed spec fn wf(&self) -> bool {
        self.cluster_info == (ClusterInfo { partitions: 1, rank: 0 })
    }

    proof fn lemma_wf(&self) {
    }

    fn partitions(&self) -> (r: usize) {
        self.cluster_info.partitions
    }

    fn get_cluster_info(&self) -> (r: &ClusterInfo) {
        &self.cluster_info
    }

    fn send_recv_binary(&self, msgs: Vec<Vec<u8>>) -> (r: Result<Vec<Vec<u8>>, ComError>) {
        Ok(msgs)
    }
}

} // verus!
