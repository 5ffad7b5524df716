//! The error-correcting capability: a pair of pure transforms on bitstreams.

use vstd::prelude::*;
use crate::bits::is_bitstream;

verus! {

/// An error-correcting code: `encode` adds redundancy to a bitstream, and
/// `decode` is a best-effort, total reconstruction — it must produce some
/// bitstream for any input bitstream, with no error outcome, even when the
/// corruption is beyond repair. Both transforms are functions of their input
/// alone, so the evaluation harness can treat every scheme uniformly.
pub trait ErrorCorrectingCode: Sized {
    /// The scheme's configuration is acceptable.
    spec fn wf(&self) -> bool;

    /// The bitstream `encode` returns.
    spec fn spec_encode(&self, data: Seq<u8>) -> Seq<u8>;

    /// The bitstream `decode` returns.
    spec fn spec_decode(&self, data: Seq<u8>) -> Seq<u8>;

    fn encode(&self, data: &Vec<u8>) -> (r: Vec<u8>)
        requires
            self.wf(),
            is_bitstream(data@),
            self.spec_encode(data@).len() <= usize::MAX,
        ensures
            r@ == self.spec_encode(data@),
            is_bitstream(r@),
    ;

    fn decode(&self, data: &Vec<u8>) -> (r: Vec<u8>)
        requires
            self.wf(),
            is_bitstream(data@),
        ensures
            r@ == self.spec_decode(data@),
            is_bitstream(r@),
    ;
}

} // verus!
