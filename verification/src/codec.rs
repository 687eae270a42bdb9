//! Erasure engines: pure coding primitives operating on one axis at a time.

use crate::Error;
use crate::all_nonempty_len;
use crate::shares_uniform;
use vstd::prelude::*;

verus! {

/// An erasure engine. Conceptually an axis of length 2k is split as k data
/// shares followed by k parity shares: `encode` produces the parity half from
/// the data half, and `decode` fills the unset slots of a full axis from the
/// populated ones.
///
/// The engine is chosen once when a square is constructed and never swapped.
/// `encoded` and `decoded` are the engine's mathematical functions: both
/// operations are pure, so their results depend on the input shares alone.
pub trait Codec: Sized {
    /// Upper bound on the number of data shares the engine supports.
    spec fn max_chunks_spec(&self) -> usize;

    /// Whether the engine accepts shares of the given byte length.
    spec fn chunk_size_ok(&self, chunk_size: usize) -> bool;

    /// Whether `encode` succeeds on this data half.
    spec fn encode_ok(&self, data: Seq<Seq<u8>>) -> bool;

    /// The parity half produced from this data half.
    spec fn encoded(&self, data: Seq<Seq<u8>>) -> Seq<Seq<u8>>;

    /// Whether `decode` succeeds on this axis (empty shares mark unset slots).
    spec fn decode_ok(&self, data: Seq<Seq<u8>>) -> bool;

    /// The fully populated axis recovered from this partially unset axis.
    spec fn decoded(&self, data: Seq<Seq<u8>>) -> Seq<Seq<u8>>;

    /// The engine's name.
    spec fn name_spec(&self) -> Seq<char>;

    /// Produce one parity share per data share. On success the result is the
    /// engine's parity function of the input; uniformly sized data shares
    /// yield parity shares of the same size.
    fn encode(&self, data: &Vec<Vec<u8>>) -> (r: Result<Vec<Vec<u8>>, Error>)
        ensures
            r.is_ok() <==> self.encode_ok(data.deep_view()),
            r matches Ok(parity) ==> ({
                &&& parity.deep_view() == self.encoded(data.deep_view())
                &&& parity@.len() == data@.len()
                &&& (forall|n: nat|
                    #[trigger] all_nonempty_len(data.deep_view(), n) && n > 0
                        ==> all_nonempty_len(parity.deep_view(), n))
                &&& (forall|n: nat|
                    #[trigger] shares_uniform(data.deep_view(), n) ==> shares_uniform(
                        parity.deep_view(),
                        n,
                    ))
            }),
    ;

    /// Fill every unset (empty) slot of `data` in place from the populated
    /// ones. On success the populated shares are unchanged, and if the input
    /// was uniform of some positive share size, every slot ends up populated
    /// at that size. On failure `data` is left as it was.
    fn decode(&self, data: &mut Vec<Vec<u8>>) -> (r: Result<(), Error>)
        ensures
            r.is_ok() <==> self.decode_ok(old(data).deep_view()),
            r.is_ok() ==> ({
                let before = old(data).deep_view();
                let after = final (data).deep_view();
                &&& after == self.decoded(before)
                &&& after.len() == before.len()
                &&& forall|i: int|
                    0 <= i < before.len() && (#[trigger] before[i]).len() > 0 ==> after[i]
                        == before[i]
                &&& forall|n: nat|
                    #[trigger] shares_uniform(before, n) && n > 0 && (exists|i: int|
                        0 <= i < before.len() && (#[trigger] before[i]).len() == n)
                        ==> all_nonempty_len(after, n)
            }),
            r.is_err() ==> final (data).deep_view() == old(data).deep_view(),
    ;

    /// The bound behind [`Codec::max_chunks_spec`].
    fn max_chunks(&self) -> (r: usize)
        ensures
            r == self.max_chunks_spec(),
    ;

    /// The engine's name.
    fn name(&self) -> (r: &str)
        ensures
            r@ == self.name_spec(),
    ;

    /// Accept or reject a share byte length, per [`Codec::chunk_size_ok`].
    fn validate_chunk_size(&self, chunk_size: usize) -> (r: Result<(), Error>)
        ensures
            r.is_ok() <==> self.chunk_size_ok(chunk_size),
    ;
}

/// Binding point for a Leopard-style Reed-Solomon engine. The coding backend
/// is not linked into this crate: `encode` and `decode` report a codec error,
/// while the capacity and share-size checks are functional.
pub struct LeoRSCodec {}

impl LeoRSCodec {
    pub fn new() -> (c: Self)
        ensures
            c == (LeoRSCodec {  }),
    {
        LeoRSCodec {  }
    }
}

impl Default for LeoRSCodec {
    fn default() -> (c: Self)
        ensures
            c == (LeoRSCodec {  }),
    {
        LeoRSCodec::new()
    }
}

impl Codec for LeoRSCodec {
    open spec fn max_chunks_spec(&self) -> usize {
        65536
    }

    open spec fn chunk_size_ok(&self, chunk_size: usize) -> bool {
        true
    }

    open spec fn encode_ok(&self, data: Seq<Seq<u8>>) -> bool {
        false
    }

    open spec fn encoded(&self, data: Seq<Seq<u8>>) -> Seq<Seq<u8>> {
        data
    }

    open spec fn decode_ok(&self, data: Seq<Seq<u8>>) -> bool {
        false
    }

    open spec fn decoded(&self, data: Seq<Seq<u8>>) -> Seq<Seq<u8>> {
        data
    }

    open spec fn name_spec(&self) -> Seq<char> {
        "LeoRS"@
    }

    fn encode(&self, _data: &Vec<Vec<u8>>) -> (r: Result<Vec<Vec<u8>>, Error>) {
        Err(Error::Codec("the LeoRS coding backend is not linked".to_string()))
    }

    fn decode(&self, _data: &mut Vec<Vec<u8>>) -> (r: Result<(), Error>) {
        Err(Error::Codec("the LeoRS coding backend is not linked".to_string()))
    }

    fn max_chunks(&self) -> (r: usize) {
        65536
    }

    fn name(&self) -> (r: &str) {
        "LeoRS"
    }

    fn validate_chunk_size(&self, _chunk_size: usize) -> (r: Result<(), Error>) {
        Ok(())
    }
}

} // verus!
