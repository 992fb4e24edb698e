//! Base graph records: vertex and edge identifiers, the raw edge record
//! exchanged between ranks, and vertex records for vertex-attributed inputs.

use vstd::prelude::*;

use crate::codec::{Codec, Dup, lemma_starts_with_concat, starts_with};
use crate::error::ComError;

verus! {

/// A global vertex identifier.
pub type Vid = u32;

/// A global edge count.
pub type Eid = u64;

/// One undirected edge of the input: both endpoints ultimately receive an
/// adjacency entry for it, whichever rank it is loaded on.
#[derive(Debug, Clone, PartialEq, Eq, Structural)]
pub struct Edge<T> {
    pub from: Vid,
    pub to: Vid,
    pub data: T,
}

/// The mathematical value of an edge: its endpoints and the value of its
/// payload.
pub struct EdgeView<D> {
    pub from: Vid,
    pub to: Vid,
    pub data: D,
}

impl<T: DeepView> DeepView for Edge<T> {
    type V = EdgeView<T::V>;

    open spec fn deep_view(&self) -> EdgeView<T::V> {
        EdgeView { from: self.from, to: self.to, data: self.data.deep_view() }
    }
}

impl<T: Codec> Codec for Edge<T> {
    open spec fn enc(&self) -> Seq<u8> {
        self.from.enc() + self.to.enc() + self.data.enc()
    }

    fn encode_into(&self, out: &mut Vec<u8>) {
        self.from.encode_into(out);
        self.to.encode_into(out);
        self.data.encode_into(out);
        proof {
            assert(out@ =~= old(out)@ + self.enc());
        }
    }

    fn decode_at(buf: &[u8], pos: usize) -> (r: Result<(Self, usize), ComError>) {
        proof {
            assert forall|x: Edge<T>|
                starts_with(buf@.skip(pos as int), x.enc()) implies starts_with(
                buf@.skip(pos as int),
                x.from.enc(),
            ) && starts_with(
                buf@.skip(pos as int).skip(x.from.enc().len() as int),
                x.to.enc() + x.data.enc(),
            ) by {
                assert(x.enc() =~= x.from.enc() + (x.to.enc() + x.data.enc()));
                lemma_starts_with_concat(
                    buf@.skip(pos as int),
                    x.from.enc(),
                    x.to.enc() + x.data.enc(),
                );
            }
        }
        let head_from = u32::decode_at(buf, pos);
        let (ef, p1) = match head_from {
            Ok(z) => z,
            Err(e) => {
                return Err(e);
            },
        };
        proof {
            assert forall|x: Edge<T>|
                starts_with(buf@.skip(pos as int), x.enc()) implies starts_with(
                buf@.skip(p1 as int),
                x.to.enc(),
            ) && starts_with(
                buf@.skip(p1 as int).skip(x.to.enc().len() as int),
                x.data.enc(),
            ) by {
                assert(buf@.skip(pos as int).skip(x.from.enc().len() as int) =~= buf@.skip(
                    p1 as int,
                ));
                lemma_starts_with_concat(buf@.skip(p1 as int), x.to.enc(), x.data.enc());
            }
        }
        let head_to = u32::decode_at(buf, p1);
        let (et, p2) = match head_to {
            Ok(z) => z,
            Err(e) => {
                return Err(e);
            },
        };
        proof {
            assert forall|x: Edge<T>|
                starts_with(buf@.skip(pos as int), x.enc()) implies starts_with(
                buf@.skip(p2 as int),
                x.data.enc(),
            ) by {
                assert(buf@.skip(p1 as int).skip(x.to.enc().len() as int) =~= buf@.skip(p2 as int));
            }
        }
        let head_data = T::decode_at(buf, p2);
        let (ed, p3) = match head_data {
            Ok(z) => z,
            Err(e) => {
                return Err(e);
            },
        };
        let res: Result<(Self, usize), ComError> = Ok((Edge { from: ef, to: et, data: ed }, p3));
        proof {
            assert forall|x: Edge<T>|
                starts_with(buf@.skip(pos as int), x.enc()) implies (res matches Ok((y, pp))
                && y.deep_view() == x.deep_view() && pp == pos + x.enc().len()) by {
                let (y, pp) = res->Ok_0;
                assert(y.deep_view() == x.deep_view());
            }
        }
        res
    }
}

impl<T: Dup> Dup for Edge<T> {
    fn dup(&self) -> (r: Self) {
        Edge { from: self.from, to: self.to, data: self.data.dup() }
    }
}

/// A vertex record with a typed attribute.
pub struct Vertex<T> {
    pub id: Vid,
    pub data: T,
}

/// A vertex record whose attribute is kept as raw text.
pub struct Vertexus {
    pub id: Vid,
    pub data: String,
}

} // verus!
