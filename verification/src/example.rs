//! An edge payload for graphs whose edges carry no data: the common case
//! for plain edge lists, and the cheapest payload to exchange.

use vstd::prelude::*;

use crate::codec::{Codec, Dup, starts_with};
use crate::error::ComError;

verus! {

/// The empty edge payload.
#[derive(Debug, Clone, Copy, PartialEq, Eq, Structural)]
pub struct MyEmpty {}

impl DeepView for MyEmpty {
    type V = MyEmpty;

    open spec fn deep_view(&self) -> MyEmpty {
        MyEmpty {  }
    }
}

impl Codec for MyEmpty {
    /// Nothing to say: the empty payload encodes to no bytes at all.
    open spec fn enc(&self) -> Seq<u8> {
        Seq::empty()
    }

    fn encode_into(&self, out: &mut Vec<u8>) {
        proof {
            assert(out@ =~= old(out)@ + self.enc());
        }
    }

    fn decode_at(buf: &[u8], pos: usize) -> (r: Result<(Self, usize), ComError>) {
        proof {
            assert forall|x: MyEmpty|
                starts_with(buf@.skip(pos as int), x.enc()) implies x.enc().len() == 0 by {}
        }
        Ok((MyEmpty {  }, pos))
    }
}

impl Dup for MyEmpty {
    fn dup(&self) -> (r: Self) {
        MyEmpty {  }
    }
}

} // verus!
