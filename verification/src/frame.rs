//! The wire frame: the chunked envelope in which one rank streams a logical
//! message to another during a collective round. A message becomes an
//! ordered run of frames, each bounded in size and tagged with the sender's
//! rank; the final frame carries the closing mark, so an empty message is
//! still one (empty, closing) frame.

use vstd::prelude::*;

use crate::codec::{le16, le32};

verus! {

/// The largest payload one frame may carry. Purely an internal chunking
/// parameter: peers must not assume any particular value.
pub const MAX_BYTE_SEND_PER_MSG: usize = 1024 * 1024;

/// One chunk of a logical message in flight from `from` to some receiver.
#[derive(Debug, Clone)]
pub struct Frame {
    pub val: Vec<u8>,
    pub from: u32,
    pub finish: bool,
}

/// The mathematical value of a frame.
pub struct FrameView {
    pub val: Seq<u8>,
    pub from: u32,
    pub finish: bool,
}

impl DeepView for Frame {
    type V = FrameView;

    open spec fn deep_view(&self) -> FrameView {
        FrameView { val: self.val@, from: self.from, finish: self.finish }
    }
}

/// The bytes carried by a run of frames, in order.
pub open spec fn payload_of(frames: Seq<FrameView>) -> Seq<u8>
    decreases frames.len(),
{
    if frames.len() == 0 {
        Seq::empty()
    } else {
        payload_of(frames.drop_last()) + frames.last().val
    }
}

/// A well-formed encoding of one logical message from `origin`: at least
/// one frame, every frame tagged with `origin` and within the chunk bound,
/// and the closing mark exactly on the final frame.
pub open spec fn wf_message_frames(frames: Seq<FrameView>, origin: u32) -> bool {
    &&& frames.len() >= 1
    &&& forall|k: int| 0 <= k < frames.len() ==> (#[trigger] frames[k]).from == origin
    &&& forall|k: int|
        0 <= k < frames.len() ==> (#[trigger] frames[k]).val.len() <= MAX_BYTE_SEND_PER_MSG
    &&& forall|k: int|
        0 <= k < frames.len() ==> ((#[trigger] frames[k]).finish <==> k == frames.len() - 1)
}

/// Split one logical message into its run of frames: ordered chunks no
/// larger than the frame bound, each tagged with the sender's rank, the
/// last one closing the message. An empty message still yields one closing
/// frame, so the receiver can detect completion.
pub fn split_message(msg: &Vec<u8>, origin: u32) -> (r: Vec<Frame>)
    ensures
        wf_message_frames(r.deep_view(), origin),
        payload_of(r.deep_view()) == msg@,
{
    let mut frames: Vec<Frame> = Vec::new();
    if msg.len() == 0 {
        frames.push(Frame { val: Vec::new(), from: origin, finish: true });
        proof {
            assert(frames.deep_view() =~= seq![
                FrameView { val: Seq::empty(), from: origin, finish: true },
            ]);
            assert(frames.deep_view().drop_last() =~= Seq::<FrameView>::empty());
            assert(payload_of(Seq::<FrameView>::empty()) == Seq::<u8>::empty());
            assert(payload_of(frames.deep_view()) =~= msg@);
        }
        return frames;
    }
    let mut i: usize = 0;
    proof {
        assert(frames.deep_view() =~= Seq::<FrameView>::empty());
        assert(msg@.take(0) =~= Seq::<u8>::empty());
    }
    while i < msg.len()
        invariant
            i <= msg@.len(),
            i < msg@.len() ==> forall|k: int|
                0 <= k < frames.deep_view().len() ==> !(#[trigger] frames.deep_view()[k]).finish,
            i == msg@.len() ==> (frames.deep_view().len() >= 1 && forall|k: int|
                0 <= k < frames.deep_view().len() ==> ((#[trigger] frames.deep_view()[k]).finish
                    <==> k == frames.deep_view().len() - 1)),
            forall|k: int|
                0 <= k < frames.deep_view().len() ==> (#[trigger] frames.deep_view()[k]).from
                    == origin,
            forall|k: int|
                0 <= k < frames.deep_view().len() ==> (#[trigger] frames.deep_view()[k]).val.len()
                    <= MAX_BYTE_SEND_PER_MSG,
            payload_of(frames.deep_view()) == msg@.take(i as int),
        decreases msg@.len() - i,
    {
        let end = if msg.len() - i > MAX_BYTE_SEND_PER_MSG {
            i + MAX_BYTE_SEND_PER_MSG
        } else {
            msg.len()
        };
        let mut chunk: Vec<u8> = Vec::new();
        let mut j = i;
        while j < end
            invariant
                i <= j <= end <= msg@.len(),
                chunk@ == msg@.subrange(i as int, j as int),
            decreases end - j,
        {
            chunk.push(msg[j]);
            proof {
                assert(chunk@ =~= msg@.subrange(i as int, j + 1));
            }
            j = j + 1;
        }
        let ghost old_frames = frames.deep_view();
        let finish = end == msg.len();
        let ghost fv = FrameView { val: chunk@, from: origin, finish };
        frames.push(Frame { val: chunk, from: origin, finish });
        proof {
            assert(frames.deep_view() =~= old_frames.push(fv));
            assert(frames.deep_view().drop_last() =~= old_frames);
            assert(payload_of(frames.deep_view()) == payload_of(old_frames) + chunk@);
            assert(msg@.take(i as int) + msg@.subrange(i as int, end as int) =~= msg@.take(
                end as int,
            ));
        }
        i = end;
    }
    proof {
        assert(msg@.take(msg@.len() as int) =~= msg@);
    }
    frames
}

/// The on-wire size of one frame's header.
pub const FRAME_HEADER_BYTES: usize = 9;

/// The on-wire header of one frame: the origin rank in four little-endian
/// bytes, one byte carrying the closing mark, then the payload length in
/// four little-endian bytes.
pub open spec fn header_bytes(from: u32, finish: bool, len: u32) -> Seq<u8> {
    le32(from as int) + seq![
        if finish {
            1u8
        } else {
            0u8
        },
    ] + le32(len as int)
}

/// Append the low 16 bits of `x` in little-endian order.
fn push_le16(out: &mut Vec<u8>, x: u32)
    requires
        x < 0x10000,
    ensures
        final(out)@ == old(out)@ + le16(x as int),
{
    out.push((x % 256) as u8);
    out.push(((x / 256) % 256) as u8);
    proof {
        assert(out@ =~= old(out)@ + le16(x as int));
    }
}

/// Append `x` in little-endian order.
fn push_le32(out: &mut Vec<u8>, x: u32)
    ensures
        final(out)@ == old(out)@ + le32(x as int),
{
    let lo = x % 0x10000;
    let hi = x / 0x10000;
    push_le16(out, lo);
    push_le16(out, hi);
    proof {
        assert(out@ =~= old(out)@ + le32(x as int));
    }
}

/// Write one frame's wire header.
pub fn encode_frame_header(from: u32, finish: bool, len: u32) -> (r: Vec<u8>)
    ensures
        r@ == header_bytes(from, finish, len),
        r@.len() == FRAME_HEADER_BYTES,
{
    let mut out: Vec<u8> = Vec::new();
    push_le32(&mut out, from);
    out.push(
        if finish {
            1
        } else {
            0
        },
    );
    push_le32(&mut out, len);
    proof {
        assert(out@ =~= header_bytes(from, finish, len));
    }
    out
}

/// Read four little-endian bytes back into the value they encode.
fn read_le32(h: &[u8], off: usize) -> (r: u32)
    requires
        off + 4 <= h@.len(),
    ensures
        forall|x: u32| h@.subrange(off as int, off + 4) == le32(x as int) ==> r == x,
{
    let b0 = h[off] as u32;
    let b1 = h[off + 1] as u32;
    let b2 = h[off + 2] as u32;
    let b3 = h[off + 3] as u32;
    let r = b0 + 256 * b1 + 0x10000 * b2 + 0x1000000 * b3;
    proof {
        assert forall|x: u32| h@.subrange(off as int, off + 4) == le32(x as int) implies r == x by {
            assert(h@.subrange(off as int, off + 4)[0] == h@[off as int]);
            assert(h@.subrange(off as int, off + 4)[1] == h@[off as int + 1]);
            assert(h@.subrange(off as int, off + 4)[2] == h@[off as int + 2]);
            assert(h@.subrange(off as int, off + 4)[3] == h@[off as int + 3]);
            assert(x == (x % 0x10000) % 256 + 256 * (((x % 0x10000) / 256) % 256) + 0x10000 * ((x
                / 0x10000) % 256) + 0x1000000 * (((x / 0x10000) / 256) % 256)) by (bit_vector);
        }
    }
    r
}

/// Read one frame's wire header back: the exact inverse of
/// `encode_frame_header` on every header it writes.
pub fn parse_frame_header(h: &[u8]) -> (r: (u32, bool, u32))
    requires
        h@.len() == FRAME_HEADER_BYTES,
    ensures
        forall|from: u32, finish: bool, len: u32|
            h@ == header_bytes(from, finish, len) ==> r == (from, finish, len),
{
    let from = read_le32(h, 0);
    let finish = h[4] == 1;
    let len = read_le32(h, 5);
    proof {
        assert forall|f: u32, fin: bool, l: u32|
            h@ == header_bytes(f, fin, l) implies (from, finish, len) == (f, fin, l) by {
            assert(h@.subrange(0, 4) =~= le32(f as int));
            assert(h@.subrange(5, 9) =~= le32(l as int));
            assert(h@[4] == (if fin {
                1u8
            } else {
                0u8
            }));
        }
    }
    (from, finish, len)
}

} // verus!
