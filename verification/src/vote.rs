//! The majority-vote code: encode repeats the bitstream, decode takes, per
//! position, the majority value across the replicas.

use vstd::prelude::*;
use crate::bits::is_bitstream;
use crate::ecc::ErrorCorrectingCode;

verus! {

/// The repetition code: `encode` concatenates `votes` copies of its input,
/// and `decode` splits its input into `votes` equal segments (dropping any
/// remainder bits) and takes, per position, the majority of the replica
/// values, a tie with an even `votes` rounding up to 1 (round half up).
pub struct VoteECC {
    /// The repetition count; meaningful schemes have at least 1.
    pub votes: usize,
}

/// Replica `t` of position `i`: the value at offset `i` of segment `t`, the
/// segments having length `seg`.
pub open spec fn replica(data: Seq<u8>, seg: int, i: int, t: int) -> u8 {
    data[i + seg * t]
}

/// The sum of the first `s` replicas of position `i`, one per segment of
/// length `seg`.
pub open spec fn tally(data: Seq<u8>, seg: int, i: int, s: int) -> int
    decreases s,
{
    if s <= 0 {
        0
    } else {
        tally(data, seg, i, s - 1) + replica(data, seg, i, s - 1)
    }
}

impl ErrorCorrectingCode for VoteECC {
    /// A repetition count of zero gives no replicas to vote over.
    open spec fn wf(&self) -> bool {
        self.votes >= 1
    }

    open spec fn spec_encode(&self, data: Seq<u8>) -> Seq<u8> {
        Seq::new((data.len() * self.votes) as nat, |i: int| data[i % (data.len() as int)])
    }

    open spec fn spec_decode(&self, data: Seq<u8>) -> Seq<u8> {
        Seq::new(
            (data.len() / self.votes as nat),
            |i: int|
                if 2 * tally(data, (data.len() / self.votes as nat) as int, i, self.votes as int)
                    >= self.votes {
                    1u8
                } else {
                    0u8
                },
        )
    }

    fn encode(&self, data: &Vec<u8>) -> (r: Vec<u8>)
    {
        let len = data.len();
        let mut r: Vec<u8> = Vec::new();
        let mut c: usize = 0;
        while c < self.votes
            invariant
                c <= self.votes,
                len == data@.len(),
                data@.len() * self.votes <= usize::MAX,
                r@.len() == c * len,
                forall|q: int| 0 <= q < r@.len() ==> #[trigger] r@[q] == data@[q % (len as int)],
                is_bitstream(data@),
                is_bitstream(r@),
            decreases self.votes - c,
        {
            proof {
                assert((c + 1) * len <= self.votes * len && c * len + len == (c + 1) * len)
                    by (nonlinear_arith)
                    requires
                        c < self.votes,
                        0 <= len,
                ;
                assert(self.votes * len == data@.len() * self.votes) by (nonlinear_arith)
                    requires
                        len == data@.len(),
                ;
            }
            let mut i: usize = 0;
            while i < len
                invariant
                    i <= len,
                    c < self.votes,
                    len == data@.len(),
                    c * len + len <= usize::MAX,
                    r@.len() == c * len + i,
                    forall|q: int|
                        0 <= q < r@.len() ==> #[trigger] r@[q] == data@[q % (len as int)],
                    is_bitstream(data@),
                    is_bitstream(r@),
                decreases len - i,
            {
                r.push(data[i]);
                proof {
                    let q = c * len + i;
                    assert(q % (len as int) == i) by {
                        vstd::arithmetic::div_mod::lemma_mod_multiples_vanish(
                            c as int,
                            i as int,
                            len as int,
                        );
                        vstd::arithmetic::div_mod::lemma_small_mod(i as nat, len as nat);
                    }
                    assert(r@[q] == data@[q % (len as int)]);
                }
                i = i + 1;
            }
            c = c + 1;
        }
        proof {
            assert(r@.len() == self.votes * len);
            assert(self.votes * len == data@.len() * self.votes) by (nonlinear_arith)
                requires
                    len == data@.len(),
            ;
            assert(r@ =~= self.spec_encode(data@));
        }
        r
    }

    fn decode(&self, data: &Vec<u8>) -> (r: Vec<u8>)
    {
        let n = data.len() / self.votes;
        proof {
            assert(n * self.votes <= data@.len()) by (nonlinear_arith)
                requires
                    self.votes >= 1,
                    n == data@.len() as int / self.votes as int,
                    data@.len() <= usize::MAX,
            ;
        }
        let mut r: Vec<u8> = Vec::new();
        let mut i: usize = 0;
        while i < n
            invariant
                i <= n,
                self.votes >= 1,
                n == data@.len() / self.votes as nat,
                n * self.votes <= data@.len(),
                data@.len() <= usize::MAX,
                is_bitstream(data@),
                r@.len() == i,
                forall|q: int|
                    0 <= q < i ==> #[trigger] r@[q] == (if 2 * tally(
                        data@,
                        n as int,
                        q,
                        self.votes as int,
                    ) >= self.votes {
                        1u8
                    } else {
                        0u8
                    }),
            decreases n - i,
        {
            let mut sum: usize = 0;
            let mut s: usize = 0;
            while s < self.votes
                invariant
                    s <= self.votes,
                    i < n,
                    n * self.votes <= data@.len(),
                    data@.len() <= usize::MAX,
                    is_bitstream(data@),
                    sum == tally(data@, n as int, i as int, s as int),
                    sum <= s,
                decreases self.votes - s,
            {
                proof {
                    assert(i + n * s < n * self.votes) by (nonlinear_arith)
                        requires
                            i < n,
                            s < self.votes,
                            0 <= s,
                            0 <= n,
                    ;
                }
                let bit = data[i + n * s];
                sum = sum + (bit as usize);
                s = s + 1;
            }
            let bit: u8 = if self.votes - sum <= sum {
                1u8
            } else {
                0u8
            };
            r.push(bit);
            i = i + 1;
        }
        proof {
            assert(r@ =~= self.spec_decode(data@));
        }
        r
    }
}

/// Repeating `v` at every replica of position `i` makes the tally `s`
/// copies of `v`.
proof fn lemma_tally_constant(data: Seq<u8>, seg: int, i: int, v: u8, s: int)
    requires
        0 <= s,
        forall|t: int| 0 <= t < s ==> #[trigger] replica(data, seg, i, t) == v,
    ensures
        tally(data, seg, i, s) == s * v,
    decreases s,
{
    if s <= 0 {
        assert(tally(data, seg, i, s) == 0);
        assert(s * v == 0) by (nonlinear_arith)
            requires
                s == 0,
        ;
    } else {
        lemma_tally_constant(data, seg, i, v, s - 1);
        assert(s * v == (s - 1) * v + v) by (nonlinear_arith);
    }
}

/// Exact reconstruction with no corruption: for any repetition count of at
/// least 1 and any bitstream, decoding an uncorrupted encoding gives the
/// original back exactly.
pub proof fn lemma_vote_round_trip(ecc: VoteECC, data: Seq<u8>)
    requires
        ecc.wf(),
        is_bitstream(data),
    ensures
        ecc.spec_decode(ecc.spec_encode(data)) == data,
{
    let len = data.len() as int;
    let v = ecc.votes as int;
    let e = ecc.spec_encode(data);
    assert(e.len() == len * v);
    let back = ecc.spec_decode(e);
    assert(e.len() as int / v == len) by {
        vstd::arithmetic::div_mod::lemma_div_by_multiple(len, v);
        assert(len * v == v * len) by (nonlinear_arith);
    }
    assert(back.len() == len);
    assert forall|i: int| 0 <= i < len implies back[i] == data[i] by {
        assert forall|t: int| 0 <= t < v implies #[trigger] replica(e, len, i, t) == data[i] by {
            assert(0 <= i + len * t < len * v) by (nonlinear_arith)
                requires
                    0 <= i < len,
                    0 <= t < v,
            ;
            assert((i + len * t) % len == i) by {
                vstd::arithmetic::div_mod::lemma_mod_multiples_vanish(t, i, len);
                vstd::arithmetic::div_mod::lemma_small_mod(i as nat, len as nat);
            }
        }
        lemma_tally_constant(e, len, i, data[i], v);
        if data[i] == 1 {
            assert(2 * (v * 1) >= v);
        } else {
            assert(2 * (v * 0) < v) by (nonlinear_arith)
                requires
                    v >= 1,
            ;
        }
    }
    assert(back =~= data);
}

/// Majority with three replicas: when strictly fewer than two of the three
/// replicas of a position are wrong, that position decodes to the original
/// value.
pub proof fn lemma_three_vote_majority(ecc: VoteECC, original: Seq<u8>, corrupted: Seq<u8>, i: int)
    requires
        ecc.votes == 3,
        is_bitstream(original),
        is_bitstream(corrupted),
        corrupted.len() == 3 * original.len(),
        0 <= i < original.len(),
        (if corrupted[i] != original[i] {
            1int
        } else {
            0int
        }) + (if corrupted[i + original.len()] != original[i] {
            1int
        } else {
            0int
        }) + (if corrupted[i + 2 * original.len()] != original[i] {
            1int
        } else {
            0int
        }) < 2,
    ensures
        ecc.spec_decode(corrupted)[i] == original[i],
{
    let len = original.len() as int;
    let n = corrupted.len() as int / 3;
    assert(n == len) by {
        vstd::arithmetic::div_mod::lemma_div_by_multiple(len, 3);
        assert(3 * len == len * 3) by (nonlinear_arith);
    }
    reveal_with_fuel(tally, 4);
    assert(tally(corrupted, n, i, 3) == corrupted[i] + corrupted[i + n] + corrupted[i + 2 * n]);
}

/// Corruption that flips strictly fewer than two positions of a three-vote
/// encoding leaves every logical position with at most one wrong replica, so
/// the whole stream decodes back to the original exactly.
pub proof fn lemma_light_corruption_decodes_exactly(ecc: VoteECC, data: Seq<u8>, c: Seq<u8>)
    requires
        ecc.votes == 3,
        is_bitstream(data),
        is_bitstream(c),
        c.len() == ecc.spec_encode(data).len(),
        crate::bits::diff_count(c, ecc.spec_encode(data)) < 2,
    ensures
        ecc.spec_decode(c) == data,
{
    let e = ecc.spec_encode(data);
    let len = data.len() as int;
    assert(e.len() == len * 3);
    assert(c.len() as int / 3 == len) by {
        vstd::arithmetic::div_mod::lemma_div_by_multiple(len, 3);
        assert(3 * len == len * 3) by (nonlinear_arith);
    }
    let back = ecc.spec_decode(c);
    assert(back.len() == len);
    assert(vstd::math::min(c.len() as int, e.len() as int) == 3 * len);
    assert forall|i: int| 0 <= i < len implies back[i] == data[i] by {
        assert forall|t: int| 0 <= t < 3 implies #[trigger] replica(e, len, i, t) == data[i] by {
            assert(0 <= i + len * t < len * 3) by (nonlinear_arith)
                requires
                    0 <= i < len,
                    0 <= t < 3,
            ;
            assert((i + len * t) % len == i) by {
                vstd::arithmetic::div_mod::lemma_mod_multiples_vanish(t, i, len);
                vstd::arithmetic::div_mod::lemma_small_mod(i as nat, len as nat);
            }
        }
        let wrong = (if c[i] != data[i] {
            1int
        } else {
            0int
        }) + (if c[i + len] != data[i] {
            1int
        } else {
            0int
        }) + (if c[i + 2 * len] != data[i] {
            1int
        } else {
            0int
        });
        assert(replica(e, len, i, 0) == data[i] && replica(e, len, i, 1) == data[i] && replica(
            e,
            len,
            i,
            2,
        ) == data[i]);
        assert(e[i] == data[i] && e[i + len] == data[i] && e[i + 2 * len] == data[i]);
        if wrong >= 2 {
            if c[i] != data[i] && c[i + len] != data[i] {
                crate::bits::lemma_mismatch_two(c, e, i, i + len, 3 * len);
            } else if c[i] != data[i] && c[i + 2 * len] != data[i] {
                crate::bits::lemma_mismatch_two(c, e, i, i + 2 * len, 3 * len);
            } else {
                crate::bits::lemma_mismatch_two(c, e, i + len, i + 2 * len, 3 * len);
            }
            assert(false);
        }
        lemma_three_vote_majority(ecc, data, c, i);
    }
    assert(back =~= data);
}

} // verus!
