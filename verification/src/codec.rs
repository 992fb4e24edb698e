//! The codec boundary. The core depends on serialization only through the
//! contract that decoding an encoding gives the value back; it does not
//! depend on any particular format. Primitive values go through bincode;
//! composite records and lists are framed here, on top of the primitives,
//! so that the framing itself is verified.
//!
//! Every encoding is self-delimiting: a decoder that starts at the first
//! byte of an encoded value consumes exactly that value's bytes. That is
//! what lets one buffer carry several values back to back.

use vstd::prelude::*;

use crate::error::ComError;

verus! {

/// `p` is an initial segment of `s`.
pub open spec fn starts_with(s: Seq<u8>, p: Seq<u8>) -> bool {
    p.len() <= s.len() && s.subrange(0, p.len() as int) == p
}

/// A prefix made of two parts can be peeled off one part at a time.
pub proof fn lemma_starts_with_concat(s: Seq<u8>, a: Seq<u8>, b: Seq<u8>)
    requires
        starts_with(s, a + b),
    ensures
        starts_with(s, a),
        starts_with(s.skip(a.len() as int), b),
{
    assert(s.subrange(0, a.len() as int) =~= a) by {
        assert forall|i: int| 0 <= i < a.len() implies s[i] == a[i] by {
            assert(s.subrange(0, (a + b).len() as int)[i] == (a + b)[i]);
        }
    }
    assert(s.skip(a.len() as int).subrange(0, b.len() as int) =~= b) by {
        assert forall|i: int| 0 <= i < b.len() implies s.skip(a.len() as int)[i] == b[i] by {
            assert(s.subrange(0, (a + b).len() as int)[a.len() + i] == (a + b)[a.len() + i]);
        }
    }
}

/// Two little-endian bytes of the low 16 bits of `x`.
pub open spec fn le16(x: int) -> Seq<u8> {
    seq![(x % 256) as u8, ((x / 256) % 256) as u8]
}

/// Four little-endian bytes of the low 32 bits of `x`.
pub open spec fn le32(x: int) -> Seq<u8> {
    le16(x % 0x10000) + le16(x / 0x10000)
}

/// Eight little-endian bytes of the low 64 bits of `x`.
pub open spec fn le64(x: int) -> Seq<u8> {
    le32(x % 0x1_0000_0000) + le32(x / 0x1_0000_0000)
}

/// bincode's variable-width encoding of a `u32` under the standard
/// configuration: small values in one byte, larger ones behind a width
/// marker, little-endian.
pub open spec fn varint_u32(x: u32) -> Seq<u8> {
    if x <= 250 {
        seq![x as u8]
    } else if x <= u16::MAX {
        seq![251u8] + le16(x as int)
    } else {
        seq![252u8] + le32(x as int)
    }
}

/// bincode's variable-width encoding of a `u64` under the standard
/// configuration.
pub open spec fn varint_u64(x: u64) -> Seq<u8> {
    if x <= 250 {
        seq![x as u8]
    } else if x <= u16::MAX {
        seq![251u8] + le16(x as int)
    } else if x <= u32::MAX {
        seq![252u8] + le32(x as int)
    } else {
        seq![253u8] + le64(x as int)
    }
}

/// The UTF-8 bytes of a text: what `str::as_bytes` yields. Spelling out
/// UTF-8 is not worth it here; the bytes are a function of the characters
/// alone, so they only get a name.
pub uninterp spec fn utf8_bytes(s: Seq<char>) -> Seq<u8>;

/// bincode's encoding of a string under the standard configuration: the
/// UTF-8 bytes of the text behind their variable-width byte count.
pub open spec fn bincode_str(s: Seq<char>) -> Seq<u8> {
    varint_u64(utf8_bytes(s).len() as u64) + utf8_bytes(s)
}

/// Relies on `bincode::encode_to_vec` with `bincode::config::standard()`:
/// a `u32` is written as its variable-width encoding, and writing into a
/// growable byte vector cannot fail.
#[verifier::external_body]
fn bincode_encode_u32(x: u32) -> (r: Vec<u8>)
    ensures
        r@ == varint_u32(x),
{
    bincode::encode_to_vec(x, bincode::config::standard()).expect("vector write cannot fail")
}

/// Relies on `bincode::encode_to_vec` with `bincode::config::standard()`:
/// a `u64` is written as its variable-width encoding.
#[verifier::external_body]
fn bincode_encode_u64(x: u64) -> (r: Vec<u8>)
    ensures
        r@ == varint_u64(x),
{
    bincode::encode_to_vec(x, bincode::config::standard()).expect("vector write cannot fail")
}

/// Relies on `bincode::encode_to_vec` with `bincode::config::standard()`:
/// a string is written as its UTF-8 bytes behind their variable-width byte
/// count — `bincode_str` of its characters.
#[verifier::external_body]
fn bincode_encode_str(s: &String) -> (r: Vec<u8>)
    ensures
        r@ == varint_u64(utf8_bytes(s@).len() as u64) + utf8_bytes(s@),
        r@ == bincode_str(s@),
{
    bincode::encode_to_vec(s, bincode::config::standard()).expect("vector write cannot fail")
}

/// The decode result `r` is exact at `pos` of `bytes`: the consumed count
/// stays inside the buffer, and whatever `u32`'s encoding begins at `pos`,
/// `r` is that value with exactly its encoding consumed.
pub open spec fn exact_decode_u32(r: Result<(u32, usize), ComError>, bytes: Seq<u8>, pos: int) -> bool {
    &&& (r matches Ok((x, used)) ==> used <= bytes.len() - pos)
    &&& (r matches Err(e) ==> e == ComError::Codec)
    &&& forall|x: u32|
        starts_with(bytes.skip(pos), varint_u32(x)) ==> (r matches Ok((y, used)) && y == x && used
            == varint_u32(x).len())
}

/// Relies on `bincode::decode_from_slice` with the standard configuration:
/// on a slice that begins with the encoding of a `u32` it returns that
/// value and reports exactly the encoding's bytes as consumed; any failure
/// is mapped to a codec error.
#[verifier::external_body]
fn bincode_decode_u32(buf: &[u8], pos: usize) -> (r: Result<(u32, usize), ComError>)
    requires
        pos <= buf@.len(),
    ensures
        exact_decode_u32(r, buf@, pos as int),
{
    match bincode::decode_from_slice::<u32, _>(&buf[pos..], bincode::config::standard()) {
        Ok((v, n)) => Ok((v, n)),
        Err(_) => Err(ComError::Codec),
    }
}

/// As `exact_decode_u32`, for `u64` values.
pub open spec fn exact_decode_u64(r: Result<(u64, usize), ComError>, bytes: Seq<u8>, pos: int) -> bool {
    &&& (r matches Ok((x, used)) ==> used <= bytes.len() - pos)
    &&& (r matches Err(e) ==> e == ComError::Codec)
    &&& forall|x: u64|
        starts_with(bytes.skip(pos), varint_u64(x)) ==> (r matches Ok((y, used)) && y == x && used
            == varint_u64(x).len())
}

/// Relies on `bincode::decode_from_slice` with the standard configuration,
/// as `bincode_decode_u32` does, for `u64` values.
#[verifier::external_body]
fn bincode_decode_u64(buf: &[u8], pos: usize) -> (r: Result<(u64, usize), ComError>)
    requires
        pos <= buf@.len(),
    ensures
        exact_decode_u64(r, buf@, pos as int),
{
    match bincode::decode_from_slice::<u64, _>(&buf[pos..], bincode::config::standard()) {
        Ok((v, n)) => Ok((v, n)),
        Err(_) => Err(ComError::Codec),
    }
}

/// As `exact_decode_u32`, for strings: whatever text's encoding begins at
/// `pos`, `r` carries a string with those characters.
pub open spec fn exact_decode_str(
    r: Result<(String, usize), ComError>,
    bytes: Seq<u8>,
    pos: int,
) -> bool {
    &&& (r matches Ok((x, used)) ==> used <= bytes.len() - pos)
    &&& (r matches Err(e) ==> e == ComError::Codec)
    &&& forall|s: Seq<char>|
        starts_with(bytes.skip(pos), bincode_str(s)) ==> (r matches Ok((y, used)) && y@ == s && used
            == bincode_str(s).len())
}

/// Relies on `bincode::decode_from_slice` with the standard configuration:
/// on a slice that begins with the encoding of a string it returns that
/// text and reports exactly the encoding's bytes as consumed. The decoder
/// allocates whatever byte count the buffer claims before reading, so the
/// caller must first establish that any claim at `pos` fits the remaining
/// buffer; a claim above that is rejected by the verified caller, never
/// handed here. (The bound speaks of claims in canonical form; a claim a
/// non-canonical width marker can carry is below the 32-bit range, so no
/// admitted claim can overflow a vector's capacity.)
#[verifier::external_body]
fn bincode_decode_str(buf: &[u8], pos: usize) -> (r: Result<(String, usize), ComError>)
    requires
        pos <= buf@.len(),
        forall|n: u64|
            starts_with(buf@.skip(pos as int), varint_u64(n)) ==> n <= buf@.len() - pos,
    ensures
        exact_decode_str(r, buf@, pos as int),
{
    match bincode::decode_from_slice::<String, _>(&buf[pos..], bincode::config::standard()) {
        Ok((v, n)) => Ok((v, n)),
        Err(_) => Err(ComError::Codec),
    }
}

/// A value that can cross the codec boundary. `enc` is the value's byte
/// encoding; decoding is exact on any buffer that begins with one.
pub trait Codec: DeepView + Sized {
    /// The byte encoding of this value.
    spec fn enc(&self) -> Seq<u8>;

    /// Append this value's encoding to `out`.
    fn encode_into(&self, out: &mut Vec<u8>)
        ensures
            final(out)@ == old(out)@ + self.enc(),
    ;

    /// Decode one value whose encoding begins at `pos`, returning it with
    /// the position just past its encoding. On a buffer that does not
    /// continue with a valid encoding the result is an error.
    fn decode_at(buf: &[u8], pos: usize) -> (r: Result<(Self, usize), ComError>)
        requires
            pos <= buf@.len(),
        ensures
            (r matches Ok((x, p)) ==> pos <= p <= buf@.len()),
            (r matches Err(e) ==> e == ComError::Codec),
            forall|x: Self|
                starts_with(buf@.skip(pos as int), x.enc()) ==> (r matches Ok((y, p))
                    && y.deep_view() == x.deep_view() && p == pos + x.enc().len()),
    ;
}

impl Codec for u32 {
    open spec fn enc(&self) -> Seq<u8> {
        varint_u32(*self)
    }

    fn encode_into(&self, out: &mut Vec<u8>) {
        let mut bytes = bincode_encode_u32(*self);
        out.append(&mut bytes);
    }

    fn decode_at(buf: &[u8], pos: usize) -> (r: Result<(Self, usize), ComError>) {
        proof {
            assert(buf@.len() == buf.len());
        }
        match bincode_decode_u32(buf, pos) {
            Ok((v, used)) => Ok((v, pos + used)),
            Err(e) => Err(e),
        }
    }
}

impl Codec for u64 {
    open spec fn enc(&self) -> Seq<u8> {
        varint_u64(*self)
    }

    fn encode_into(&self, out: &mut Vec<u8>) {
        let mut bytes = bincode_encode_u64(*self);
        out.append(&mut bytes);
    }

    fn decode_at(buf: &[u8], pos: usize) -> (r: Result<(Self, usize), ComError>) {
        proof {
            assert(buf@.len() == buf.len());
        }
        match bincode_decode_u64(buf, pos) {
            Ok((v, used)) => Ok((v, pos + used)),
            Err(e) => Err(e),
        }
    }
}

impl Codec for String {
    open spec fn enc(&self) -> Seq<u8> {
        bincode_str(self@)
    }

    fn encode_into(&self, out: &mut Vec<u8>) {
        let mut bytes = bincode_encode_str(self);
        out.append(&mut bytes);
    }

    fn decode_at(buf: &[u8], pos: usize) -> (r: Result<(Self, usize), ComError>) {
        // A string's encoding opens with the byte count of its text, and
        // the decoder allocates that count up front. Read the claim with
        // the integer decoder first and refuse one that cannot fit in the
        // rest of the buffer: no honest encoding makes such a claim, and a
        // dishonest one must fail the round, not the process.
        let head = bincode_decode_u64(buf, pos);
        let claim = match head {
            Ok((n, _)) => n,
            Err(e) => {
                proof {
                    assert forall|x: String|
                        starts_with(buf@.skip(pos as int), x.enc()) implies false by {
                        let l: u64 = utf8_bytes(x@).len() as u64;
                        lemma_starts_with_concat(
                            buf@.skip(pos as int),
                            varint_u64(l),
                            utf8_bytes(x@),
                        );
                    }
                }
                return Err(e);
            },
        };
        let remaining = buf.len() - pos;
        if claim > remaining as u64 {
            proof {
                assert forall|x: String|
                    starts_with(buf@.skip(pos as int), x.enc()) implies false by {
                    let bs = utf8_bytes(x@);
                    assert(bs.len() <= buf@.len() - pos);
                    let l: u64 = bs.len() as u64;
                    lemma_starts_with_concat(buf@.skip(pos as int), varint_u64(l), bs);
                    assert(l <= remaining as u64);
                }
            }
            return Err(ComError::Codec);
        }
        proof {
            assert forall|n: u64|
                starts_with(buf@.skip(pos as int), varint_u64(n)) implies n <= buf@.len()
                - pos by {}
        }
        match bincode_decode_str(buf, pos) {
            Ok((v, used)) => Ok((v, pos + used)),
            Err(e) => Err(e),
        }
    }
}

/// The concatenated encodings of a sequence of values, in order.
pub open spec fn encs_of<T: Codec>(s: Seq<T>) -> Seq<u8>
    decreases s.len(),
{
    if s.len() == 0 {
        Seq::empty()
    } else {
        encs_of(s.drop_last()) + s.last().enc()
    }
}

/// Extending the encoded prefix by one element appends that element's
/// encoding.
pub proof fn lemma_encs_of_take_step<T: Codec>(s: Seq<T>, i: int)
    requires
        0 <= i < s.len(),
    ensures
        encs_of(s.take(i + 1)) == encs_of(s.take(i)) + s[i].enc(),
{
    assert(s.take(i + 1).drop_last() =~= s.take(i));
    assert(s.take(i + 1).last() == s[i]);
}

/// Splitting a sequence splits its encodings.
pub proof fn lemma_encs_of_split<T: Codec>(s: Seq<T>, i: int)
    requires
        0 <= i <= s.len(),
    ensures
        encs_of(s) == encs_of(s.take(i)) + encs_of(s.skip(i)),
    decreases s.len() - i,
{
    if i == s.len() {
        assert(s.take(i) =~= s);
        assert(s.skip(i) =~= Seq::<T>::empty());
        assert(encs_of(s) =~= encs_of(s.take(i)) + encs_of(s.skip(i)));
    } else {
        lemma_encs_of_split(s, i + 1);
        lemma_encs_of_take_step(s, i);
        assert(s.skip(i).drop_first() =~= s.skip(i + 1));
        assert(s.skip(i).take(1).drop_last() =~= Seq::<T>::empty());
        assert(s.skip(i).take(1).last() == s[i]);
        assert(encs_of(Seq::<T>::empty()) == Seq::<u8>::empty());
        assert(encs_of(s.skip(i).take(1)) == Seq::<u8>::empty() + s[i].enc());
        lemma_encs_of_split(s.skip(i), 1);
        assert(s.skip(i).skip(1) =~= s.skip(i + 1));
        assert(encs_of(s.skip(i)) == Seq::<u8>::empty() + s[i].enc() + encs_of(s.skip(i + 1)));
        assert(encs_of(s.take(i)) + encs_of(s.skip(i)) =~= encs_of(s.take(i + 1)) + encs_of(
            s.skip(i + 1),
        ));
    }
}

/// Inside a buffer that starts with some header followed by the encodings
/// of a sequence, each element's encoding starts right after the header and
/// the encodings of the elements before it.
pub proof fn lemma_encs_elem_at<T: Codec>(s: Seq<u8>, head: Seq<u8>, xs: Seq<T>, i: int)
    requires
        starts_with(s, head + encs_of(xs)),
        0 <= i < xs.len(),
    ensures
        starts_with(s.skip(head.len() + encs_of(xs.take(i)).len() as int), xs[i].enc()),
{
    lemma_encs_of_split(xs, i);
    assert(xs.skip(i).take(1).drop_last() =~= Seq::<T>::empty());
    assert(xs.skip(i).take(1).last() == xs[i]);
    assert(encs_of(Seq::<T>::empty()) == Seq::<u8>::empty());
    assert(encs_of(xs.skip(i).take(1)) == Seq::<u8>::empty() + xs[i].enc());
    lemma_encs_of_split(xs.skip(i), 1);
    assert(xs.skip(i).skip(1) =~= xs.skip(i + 1));
    assert(head + encs_of(xs) =~= (head + encs_of(xs.take(i)) + xs[i].enc()) + encs_of(
        xs.skip(i + 1),
    ));
    lemma_starts_with_concat(s, head + encs_of(xs.take(i)) + xs[i].enc(), encs_of(xs.skip(i + 1)));
    lemma_starts_with_concat(s, head + encs_of(xs.take(i)), xs[i].enc());
}

impl<T: Codec> Codec for Vec<T> {
    open spec fn enc(&self) -> Seq<u8> {
        varint_u64(self@.len() as u64) + encs_of(self@)
    }

    fn encode_into(&self, out: &mut Vec<u8>) {
        let n: u64 = self.len() as u64;
        n.encode_into(out);
        let ghost mid = out@;
        let mut i: usize = 0;
        while i < self.len()
            invariant
                i <= self@.len(),
                mid == old(out)@ + varint_u64(self@.len() as u64),
                out@ == mid + encs_of(self@.take(i as int)),
            decreases self@.len() - i,
        {
            proof {
                lemma_encs_of_take_step(self@, i as int);
            }
            let elem = &self[i];
            elem.encode_into(out);
            i = i + 1;
        }
        proof {
            assert(self@.take(self@.len() as int) =~= self@);
            assert(out@ =~= old(out)@ + (varint_u64(self@.len() as u64) + encs_of(self@)));
        }
    }

    #[verifier::rlimit(60)]
    fn decode_at(buf: &[u8], pos: usize) -> (r: Result<(Self, usize), ComError>) {
        let head = u64::decode_at(buf, pos);
        let (n, start) = match head {
            Ok(v) => v,
            Err(e) => {
                proof {
                    assert forall|x: Vec<T>|
                        starts_with(buf@.skip(pos as int), x.enc()) implies false by {
                        assert(x.len() == x@.len());
                        let l: u64 = x@.len() as u64;
                        lemma_starts_with_concat(buf@.skip(pos as int), l.enc(), encs_of(x@));
                        assert(starts_with(buf@.skip(pos as int), l.enc()));
                    }
                }
                return Err(e);
            },
        };
        // Any list this buffer could hold has exactly `n` elements.
        proof {
            assert forall|x: Vec<T>|
                starts_with(buf@.skip(pos as int), x.enc()) implies x@.len() as u64 == n && x@.len()
                <= usize::MAX && start == pos + varint_u64(n).len() by {
                assert(x.len() == x@.len());
                let l: u64 = x@.len() as u64;
                lemma_starts_with_concat(buf@.skip(pos as int), l.enc(), encs_of(x@));
                assert(starts_with(buf@.skip(pos as int), l.enc()));
            }
        }
        if n > usize::MAX as u64 {
            return Err(ComError::Codec);
        }
        let count = n as usize;
        let mut v: Vec<T> = Vec::new();
        let mut p = start;
        let mut i: usize = 0;
        while i < count
            invariant
                i <= count,
                pos <= p <= buf@.len(),
                v@.len() == i,
                count as u64 == n,
                forall|x: Vec<T>| #[trigger]
                    starts_with(buf@.skip(pos as int), x.enc()) ==> x@.len() == count,
                forall|x: Vec<T>| #[trigger]
                    starts_with(buf@.skip(pos as int), x.enc()) ==> p == pos + varint_u64(
                        n,
                    ).len() + encs_of(x@.take(i as int)).len() && (forall|j: int|
                        0 <= j < i ==> v@[j].deep_view() == x@[j].deep_view()),
            decreases count - i,
        {
            proof {
                assert forall|x: Vec<T>|
                    starts_with(buf@.skip(pos as int), x.enc()) implies starts_with(
                    buf@.skip(p as int),
                    x@[i as int].enc(),
                ) by {
                    lemma_encs_elem_at(buf@.skip(pos as int), varint_u64(n), x@, i as int);
                    assert(buf@.skip(pos as int).skip(p - pos) =~= buf@.skip(p as int));
                }
            }
            let step = T::decode_at(buf, p);
            let (elem, p2) = match step {
                Ok(z) => z,
                Err(e) => {
                    proof {
                        assert forall|x: Vec<T>|
                            starts_with(buf@.skip(pos as int), x.enc()) implies false by {
                            assert(starts_with(buf@.skip(p as int), x@[i as int].enc()));
                        }
                    }
                    return Err(e);
                },
            };
            proof {
                assert forall|x: Vec<T>| #[trigger]
                    starts_with(buf@.skip(pos as int), x.enc()) implies p2 == pos + varint_u64(
                    n,
                ).len() + encs_of(x@.take(i as int + 1)).len() && elem.deep_view() == x@[
                    i as int].deep_view() by {
                    lemma_encs_of_take_step(x@, i as int);
                }
            }
            v.push(elem);
            p = p2;
            i = i + 1;
        }
        let res: Result<(Self, usize), ComError> = Ok((v, p));
        proof {
            assert forall|x: Vec<T>|
                starts_with(buf@.skip(pos as int), x.enc()) implies (res matches Ok((y, pp))
                && y.deep_view() == x.deep_view() && pp == pos + x.enc().len()) by {
                assert(x@.take(count as int) =~= x@);
                assert(x@.len() as u64 == n);
                let (y, pp) = res->Ok_0;
                assert forall|j: int| 0 <= j < count implies y.deep_view()[j]
                    == x.deep_view()[j] by {
                    assert(y@[j].deep_view() == x@[j].deep_view());
                }
                assert(y.deep_view() =~= x.deep_view());
            }
        }
        res
    }
}

/// Encode one value into a fresh byte vector.
pub fn encode<T: Codec>(val: &T) -> (r: Vec<u8>)
    ensures
        r@ == val.enc(),
{
    let mut out: Vec<u8> = Vec::new();
    val.encode_into(&mut out);
    proof {
        assert(out@ =~= val.enc());
    }
    out
}

/// Decode one value from a byte vector that holds exactly one encoding.
/// Trailing bytes are rejected: a logical message carries one value.
pub fn decode<T: Codec>(buf: &Vec<u8>) -> (r: Result<T, ComError>)
    ensures
        forall|x: T|
            buf@ == x.enc() ==> (r matches Ok(y) && y.deep_view() == x.deep_view()),
        (r matches Err(e) ==> e == ComError::Codec),
{
    proof {
        assert(buf@.skip(0) =~= buf@);
    }
    match T::decode_at(buf.as_slice(), 0) {
        Ok((val, p)) => {
            if p == buf.len() {
                Ok(val)
            } else {
                proof {
                    assert forall|x: T| buf@ == x.enc() implies false by {
                        assert(starts_with(buf@.skip(0), x.enc()));
                    }
                }
                Err(ComError::Codec)
            }
        },
        Err(e) => {
            proof {
                assert forall|x: T| buf@ == x.enc() implies false by {
                    assert(starts_with(buf@.skip(0), x.enc()));
                }
            }
            Err(e)
        },
    }
}

/// The serialization facade the substrate uses: one encoder shared by all
/// message types at the codec boundary.
pub struct Serilazer {}

impl Serilazer {
    pub fn new() -> (r: Serilazer) {
        Serilazer {  }
    }

    pub fn encode<T: Codec>(&self, val: T) -> (r: Vec<u8>)
        ensures
            r@ == val.enc(),
    {
        encode(&val)
    }

    pub fn decode<T: Codec>(&self, val: Vec<u8>) -> (r: Result<T, ComError>)
        ensures
            forall|x: T|
                val@ == x.enc() ==> (r matches Ok(y) && y.deep_view() == x.deep_view()),
            (r matches Err(e) ==> e == ComError::Codec),
    {
        decode(&val)
    }
}

/// Cloning with an exact contract: the copy is the value. Rust's `Clone`
/// says nothing usable about most payload types, so edge payloads that
/// must be duplicated for both endpoint owners implement this instead.
pub trait Dup: Sized {
    fn dup(&self) -> (r: Self)
        ensures
            r == *self,
    ;
}

impl Dup for u32 {
    fn dup(&self) -> (r: Self) {
        *self
    }
}

impl Dup for u64 {
    fn dup(&self) -> (r: Self) {
        *self
    }
}

impl Dup for String {
    fn dup(&self) -> (r: Self) {
        self.clone()
    }
}

} // verus!
