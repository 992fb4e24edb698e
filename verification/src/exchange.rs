//! Receiving side of one collective round. Inbound frames from all peers,
//! in whatever interleaving the transport produces, are appended into
//! per-origin buffers; a second closing frame from an origin whose message
//! is already complete is a protocol violation and fails the round. The
//! round is complete when every peer's closing frame has been seen.

use vstd::prelude::*;
use vstd::pervasive::VecAdditionalExecFns;

use crate::cluster::ClusterInfo;
use crate::error::ComError;
use crate::frame::{Frame, payload_of, split_message, wf_message_frames};

verus! {

/// How many entries of `s` are set.
pub open spec fn count_true(s: Seq<bool>) -> int
    decreases s.len(),
{
    if s.len() == 0 {
        0
    } else {
        count_true(s.drop_last()) + if s.last() {
            1int
        } else {
            0int
        }
    }
}

pub proof fn lemma_count_true_bounds(s: Seq<bool>)
    ensures
        0 <= count_true(s) <= s.len(),
    decreases s.len(),
{
    if s.len() > 0 {
        lemma_count_true_bounds(s.drop_last());
    }
}

pub proof fn lemma_count_true_update(s: Seq<bool>, i: int, b: bool)
    requires
        0 <= i < s.len(),
    ensures
        count_true(s.update(i, b)) == count_true(s) - (if s[i] {
            1int
        } else {
            0int
        }) + (if b {
            1int
        } else {
            0int
        }),
    decreases s.len(),
{
    if i == s.len() - 1 {
        assert(s.update(i, b).drop_last() =~= s.drop_last());
        assert(s.update(i, b).last() == b);
    } else {
        lemma_count_true_update(s.drop_last(), i, b);
        assert(s.update(i, b).drop_last() =~= s.drop_last().update(i, b));
        assert(s.update(i, b).last() == s.last());
    }
}

/// Every entry is set exactly when the count reaches the length.
pub proof fn lemma_count_true_full(s: Seq<bool>)
    ensures
        count_true(s) == s.len() <==> (forall|k: int| 0 <= k < s.len() ==> s[k]),
    decreases s.len(),
{
    lemma_count_true_bounds(s);
    if s.len() > 0 {
        lemma_count_true_full(s.drop_last());
        lemma_count_true_bounds(s.drop_last());
        if count_true(s) == s.len() {
            assert forall|k: int| 0 <= k < s.len() implies s[k] by {
                if k < s.len() - 1 {
                    assert(s.drop_last()[k]);
                }
            }
        } else {
            if forall|k: int| 0 <= k < s.len() ==> s[k] {
                assert forall|k: int| 0 <= k < s.drop_last().len() implies s.drop_last()[k] by {
                    assert(s[k]);
                }
                assert(s.last());
                assert(false);
            }
        }
    }
}

/// The receive buffers of one collective round: one byte buffer and one
/// completion mark per origin rank, plus the count of completed origins.
pub struct RoundInbox {
    res: Vec<Vec<u8>>,
    finish: Vec<bool>,
    finish_count: usize,
}

impl RoundInbox {
    /// The per-origin buffers assembled so far.
    pub closed spec fn bufs(self) -> Seq<Seq<u8>> {
        self.res.deep_view()
    }

    /// Which origins' messages are complete.
    pub closed spec fn done(self) -> Seq<bool> {
        self.finish@
    }

    pub closed spec fn wf(self) -> bool {
        &&& self.res@.len() == self.finish@.len()
        &&& self.finish_count == count_true(self.finish@)
    }

    /// Open the round's inbox: one empty buffer per peer, and this rank's
    /// own message moved straight into its slot — the loopback path never
    /// touches the transport.
    pub fn new(cluster: &ClusterInfo, self_msg: Vec<u8>) -> (r: RoundInbox)
        requires
            cluster.wf(),
        ensures
            r.wf(),
            r.bufs().len() == cluster.partitions,
            r.done().len() == cluster.partitions,
            r.bufs()[cluster.rank as int] == self_msg@,
            forall|k: int|
                0 <= k < cluster.partitions && k != cluster.rank ==> (#[trigger] r.bufs()[k])
                    == Seq::<u8>::empty(),
            forall|k: int|
                0 <= k < cluster.partitions ==> ((#[trigger] r.done()[k]) <==> k == cluster.rank),
    {
        let n = cluster.partitions;
        let mut res: Vec<Vec<u8>> = Vec::new();
        let mut k: usize = 0;
        while k < n
            invariant
                k <= n,
                res.deep_view().len() == k,
                forall|m: int| 0 <= m < k ==> (#[trigger] res.deep_view()[m]) == Seq::<u8>::empty(),
            decreases n - k,
        {
            let ghost before = res.deep_view();
            res.push(Vec::new());
            proof {
                assert(res.deep_view() =~~= before.push(Seq::<u8>::empty()));
            }
            k = k + 1;
        }
        let ghost empties = res.deep_view();
        res.set(cluster.rank, self_msg);
        proof {
            assert(res.deep_view() =~~= empties.update(cluster.rank as int, self_msg@));
        }
        let mut finish: Vec<bool> = Vec::new();
        let mut k2: usize = 0;
        while k2 < n
            invariant
                k2 <= n,
                finish@.len() == k2,
                count_true(finish@) == 0,
                forall|m: int| 0 <= m < k2 ==> !(#[trigger] finish@[m]),
            decreases n - k2,
        {
            let ghost before = finish@;
            finish.push(false);
            proof {
                assert(finish@.drop_last() =~= before);
            }
            k2 = k2 + 1;
        }
        proof {
            lemma_count_true_update(finish@, cluster.rank as int, true);
        }
        finish.set(cluster.rank, true);
        RoundInbox { res, finish, finish_count: 1 }
    }

    /// How many peers the round involves.
    pub fn partitions(&self) -> (r: usize)
        ensures
            r == self.bufs().len(),
    {
        self.res.len()
    }

    /// Take in one inbound frame: its payload is appended to its origin's
    /// buffer, and its closing mark completes that origin. A frame from an
    /// origin outside the cluster, or from one whose message was already
    /// complete, is a protocol violation: the round must fail rather than
    /// silently continue.
    pub fn accept(&mut self, frame: Frame) -> (r: Result<(), ComError>)
        requires
            old(self).wf(),
        ensures
            final(self).wf(),
            match r {
                Ok(()) => {
                    &&& (frame.from as int) < old(self).bufs().len()
                    &&& !old(self).done()[frame.from as int]
                    &&& final(self).bufs() == old(self).bufs().update(
                        frame.from as int,
                        old(self).bufs()[frame.from as int] + frame.val@,
                    )
                    &&& final(self).done() == old(self).done().update(
                        frame.from as int,
                        frame.finish,
                    )
                },
                Err(e) => {
                    &&& e == ComError::Protocol
                    &&& *final(self) == *old(self)
                    &&& ((frame.from as int) >= old(self).bufs().len() || old(self).done()[frame.from as int])
                },
            },
    {
        let from = frame.from as usize;
        if from >= self.res.len() {
            return Err(ComError::Protocol);
        }
        if self.finish[from] {
            return Err(ComError::Protocol);
        }
        let ghost bufs0 = self.bufs();
        let mut buf: Vec<u8> = Vec::new();
        self.res.set_and_swap(from, &mut buf);
        let mut val = frame.val;
        buf.append(&mut val);
        self.res.set_and_swap(from, &mut buf);
        proof {
            assert(self.bufs() =~~= bufs0.update(from as int, bufs0[from as int] + frame.val@));
        }
        if frame.finish {
            proof {
                lemma_count_true_update(self.finish@, from as int, true);
                lemma_count_true_full(self.finish@);
                lemma_count_true_bounds(self.finish@);
            }
            self.finish.set(from, true);
            self.finish_count = self.finish_count + 1;
        } else {
            proof {
                assert(self.finish@.update(from as int, false) =~= self.finish@);
            }
        }
        Ok(())
    }

    /// Whether every origin's message, this rank's included, is complete.
    pub fn complete(&self) -> (r: bool)
        requires
            self.wf(),
        ensures
            r <==> (forall|k: int| 0 <= k < self.done().len() ==> self.done()[k]),
    {
        proof {
            lemma_count_true_full(self.finish@);
            assert(self.done() =~= self.finish@);
        }
        self.finish_count == self.finish.len()
    }

    /// Hand out the assembled messages, one per origin rank. Only a
    /// complete round may be handed out: there is no partial-result mode.
    pub fn into_messages(self) -> (r: Vec<Vec<u8>>)
        requires
            forall|k: int| 0 <= k < self.done().len() ==> self.done()[k],
        ensures
            r.deep_view() == self.bufs(),
    {
        self.res
    }
}

/// Feed the ordered frames of one peer's logical message into the inbox.
/// On a fresh origin inside the cluster this cannot fail, and the origin's
/// buffer ends holding exactly the message's bytes: what `split_message`
/// cut apart, the inbox reassembles.
pub fn deliver_message(inbox: &mut RoundInbox, frames: Vec<Frame>) -> (r: Result<(), ComError>)
    requires
        old(inbox).wf(),
        wf_message_frames(frames.deep_view(), frames.deep_view()[0].from),
        (frames.deep_view()[0].from as int) < old(inbox).bufs().len(),
        !old(inbox).done()[frames.deep_view()[0].from as int],
    ensures
        r == Ok::<(), ComError>(()),
        final(inbox).wf(),
        final(inbox).bufs() == old(inbox).bufs().update(
            frames.deep_view()[0].from as int,
            old(inbox).bufs()[frames.deep_view()[0].from as int] + payload_of(frames.deep_view()),
        ),
        final(inbox).done() == old(inbox).done().update(frames.deep_view()[0].from as int, true),
{
    let ghost origin = frames.deep_view()[0].from as int;
    let ghost fv = frames.deep_view();
    let n = frames.len();
    let mut k: usize = 0;
    while k < n
        invariant
            old(inbox).wf(),
            inbox.wf(),
            k <= n,
            n == fv.len(),
            fv == frames.deep_view(),
            wf_message_frames(fv, fv[0].from),
            origin == fv[0].from as int,
            0 <= origin < old(inbox).bufs().len(),
            !old(inbox).done()[origin],
            inbox.bufs() == old(inbox).bufs().update(
                origin,
                old(inbox).bufs()[origin] + payload_of(fv.take(k as int)),
            ),
            k < n ==> inbox.done() == old(inbox).done(),
            k == n ==> inbox.done() == old(inbox).done().update(origin, true),
        decreases n - k,
    {
        let frame = Frame {
            val: copy_bytes(&frames[k].val),
            from: frames[k].from,
            finish: frames[k].finish,
        };
        proof {
            assert(fv[k as int].from == fv[0].from);
        }
        let ghost done0 = inbox.done();
        let ghost bufs_before = inbox.bufs();
        let res = inbox.accept(frame);
        match res {
            Ok(()) => {},
            Err(_) => {
                proof {
                    assert(false);
                }
                return Err(ComError::Protocol);
            },
        }
        proof {
            assert(fv.take(k + 1).drop_last() =~= fv.take(k as int));
            assert(fv.take(k + 1).last() == fv[k as int]);
            assert(inbox.bufs() =~~= old(inbox).bufs().update(
                origin,
                old(inbox).bufs()[origin] + payload_of(fv.take(k + 1)),
            ));
            if k + 1 < n {
                assert(!fv[k as int].finish);
                assert(inbox.done() =~= old(inbox).done());
            } else {
                assert(fv[k as int].finish);
                assert(inbox.done() =~= old(inbox).done().update(origin, true));
            }
        }
        k = k + 1;
    }
    proof {
        assert(fv.take(n as int) =~= fv);
    }
    Ok(())
}

/// An exact copy of a byte buffer.
pub fn copy_bytes(v: &Vec<u8>) -> (r: Vec<u8>)
    ensures
        r@ == v@,
{
    let mut out: Vec<u8> = Vec::new();
    let mut i: usize = 0;
    while i < v.len()
        invariant
            i <= v@.len(),
            out@ == v@.take(i as int),
        decreases v@.len() - i,
    {
        out.push(v[i]);
        proof {
            assert(out@ =~= v@.take(i + 1));
        }
        i = i + 1;
    }
    proof {
        assert(v@.take(v@.len() as int) =~= v@);
    }
    out
}

/// What one collective round delivers: at every rank, the message each
/// peer addressed to it — the transpose of the send matrix. (Generic in
/// the cell type: the frame layer moves byte buffers, the typed layers
/// move values.)
pub open spec fn transpose<T>(m: Seq<Seq<T>>) -> Seq<Seq<T>> {
    Seq::new(m.len(), |j: int| Seq::new(m.len(), |i: int| m[i][j]))
}

/// Under a reduction's broadcast pattern — every rank addresses the same
/// value to all of its peers — the round hands every rank the identical
/// sequence of contributions, in rank order. Folding those with a lawful
/// combiner therefore yields the same result at every rank.
pub proof fn lemma_broadcast_agreement<T>(m: Seq<Seq<T>>)
    requires
        forall|i: int| 0 <= i < m.len() ==> (#[trigger] m[i]).len() == m.len(),
        forall|i: int, j: int| 0 <= i < m.len() && 0 <= j < m.len() ==> #[trigger] m[i][j] == m[i][0],
    ensures
        forall|j1: int, j2: int|
            0 <= j1 < m.len() && 0 <= j2 < m.len() ==> #[trigger] transpose(m)[j1] == #[trigger] transpose(m)[j2],
{
    assert forall|j1: int, j2: int|
        0 <= j1 < m.len() && 0 <= j2 < m.len() implies #[trigger] transpose(m)[j1]
        == #[trigger] transpose(m)[j2] by {
        assert forall|i: int| 0 <= i < m.len() implies transpose(m)[j1][i] == transpose(
            m,
        )[j2][i] by {
            assert(m[i][j1] == m[i][0]);
            assert(m[i][j2] == m[i][0]);
        }
        assert(transpose(m)[j1] =~= transpose(m)[j2]);
    }
}

/// Run one whole collective round for an in-process cluster: every rank's
/// outbound messages are split into frames, streamed into each receiver's
/// inbox, and reassembled there. Every rank ends holding, at index `i`,
/// exactly the bytes rank `i` intended for it — no truncation, duplication
/// or reordering.
pub fn exchange_all_ranks(msgs: &Vec<Vec<Vec<u8>>>) -> (r: Vec<Vec<Vec<u8>>>)
    requires
        1 <= msgs@.len() <= u32::MAX,
        forall|i: int| 0 <= i < msgs@.len() ==> (#[trigger] msgs@[i])@.len() == msgs@.len(),
    ensures
        r.deep_view() == transpose(msgs.deep_view()),
{
    let n = msgs.len();
    let mut out: Vec<Vec<Vec<u8>>> = Vec::new();
    let mut j: usize = 0;
    while j < n
        invariant
            j <= n,
            n == msgs@.len() <= u32::MAX,
            forall|i: int| 0 <= i < n ==> (#[trigger] msgs@[i])@.len() == n,
            out.deep_view().len() == j,
            forall|jj: int|
                0 <= jj < j ==> (#[trigger] out.deep_view()[jj]) == transpose(msgs.deep_view())[jj],
        decreases n - j,
    {
        let cluster = ClusterInfo { partitions: n, rank: j };
        let own = copy_bytes(&msgs[j][j]);
        let mut inbox = RoundInbox::new(&cluster, own);
        let mut i: usize = 0;
        while i < n
            invariant
                j < n,
                i <= n,
                n == msgs@.len() <= u32::MAX,
                forall|ii: int| 0 <= ii < n ==> (#[trigger] msgs@[ii])@.len() == n,
                inbox.wf(),
                inbox.bufs().len() == n,
                inbox.done().len() == n,
                forall|k: int|
                    0 <= k < n ==> ((#[trigger] inbox.done()[k]) <==> (k < i || k == j)),
                inbox.bufs()[j as int] == msgs.deep_view()[j as int][j as int],
                forall|k: int|
                    0 <= k < n && k != j ==> (#[trigger] inbox.bufs()[k]) == (if k < i {
                        msgs.deep_view()[k][j as int]
                    } else {
                        Seq::<u8>::empty()
                    }),
            decreases n - i,
        {
            if i != j {
                let frames = split_message(&msgs[i][j], i as u32);
                proof {
                    assert(frames.deep_view()[0].from == i as u32);
                    assert(msgs@[i as int]@[j as int]@ == msgs.deep_view()[i as int][j as int]);
                }
                let ghost bufs0 = inbox.bufs();
                let dr = deliver_message(&mut inbox, frames);
                proof {
                    assert(Seq::<u8>::empty() + msgs.deep_view()[i as int][j as int]
                        =~= msgs.deep_view()[i as int][j as int]);
                    assert(inbox.bufs() =~~= bufs0.update(
                        i as int,
                        Seq::<u8>::empty() + msgs.deep_view()[i as int][j as int],
                    ));
                }
            }
            i = i + 1;
        }
        proof {
            assert forall|k: int| 0 <= k < inbox.done().len() implies inbox.done()[k] by {}
        }
        let row = inbox.into_messages();
        let ghost before = out.deep_view();
        out.push(row);
        proof {
            assert(out.deep_view() =~~= before.push(row.deep_view()));
            assert(row.deep_view() =~~= transpose(msgs.deep_view())[j as int]);
        }
        j = j + 1;
    }
    proof {
        assert(out.deep_view() =~~= transpose(msgs.deep_view()));
    }
    out
}

} // verus!
