//! Corruption sampling: flip exactly `k` distinct, uniformly chosen bit
//! positions of a bitstream, producing a new owned copy.

use vstd::prelude::*;
use crate::bits::{
    is_bitstream,
    mismatch_count,
    diff_count,
    lemma_mismatch_equal,
    lemma_mismatch_update,
};

verus! {

/// Relies on rand::random: draws a value from the thread-local generator.
/// Nothing is promised of the value drawn.
pub assume_specification<T>[ rand::random::<T> ]() -> (r: T)
    where
        rand::distr::StandardUniform: rand::distr::Distribution<T>,
;

/// The opposite bit value: 0 becomes 1 and 1 becomes 0.
pub open spec fn flip(b: u8) -> u8 {
    if b == 0 {
        1u8
    } else {
        0u8
    }
}

/// A corrupted copy of `data`: equal in length, differing from `data` in
/// exactly `k` positions, chosen distinct and uniformly at random by a
/// partial shuffle of the position pool. `data` itself is not mutated, and
/// corruption with severity zero returns an identical copy.
pub fn corrupt(data: &Vec<u8>, k: usize) -> (r: Vec<u8>)
    requires
        is_bitstream(data@),
        k <= data@.len(),
    ensures
        r@.len() == data@.len(),
        is_bitstream(r@),
        diff_count(r@, data@) == k,
        k == 0 ==> r@ == data@,
{
    let len = data.len();
    let mut ret = data.clone();
    proof {
        assert(ret@ =~= data@);
    }
    let mut positions: Vec<usize> = Vec::new();
    let mut idx: usize = 0;
    while idx < len
        invariant
            idx <= len,
            positions@.len() == idx,
            forall|i: int| 0 <= i < idx ==> positions@[i] == i,
        decreases len - idx,
    {
        positions.push(idx);
        idx = idx + 1;
    }
    proof {
        lemma_mismatch_equal(ret@, data@, len as int);
    }
    let mut t: usize = 0;
    while t < k
        invariant
            t <= k,
            k <= len,
            len == data@.len(),
            ret@.len() == len,
            positions@.len() == len,
            forall|i: int| 0 <= i < len ==> #[trigger] positions@[i] < len,
            forall|i: int, j: int| 0 <= i < j < len ==> positions@[i] != positions@[j],
            forall|p: int|
                0 <= p < len ==> ret@[p] == (if exists|i: int|
                    0 <= i < t && positions@[i] == p {
                    flip(data@[p])
                } else {
                    data@[p]
                }),
            mismatch_count(ret@, data@, len as int) == t,
            is_bitstream(ret@),
        decreases k - t,
    {
        let m = len - t;
        let draw = rand::random::<u64>() % (m as u64);
        let j = t + draw as usize;
        let pt = positions[t];
        let pj = positions[j];
        let ghost oldpos = positions@;
        positions.set(t, pj);
        positions.set(j, pt);
        let p = pj;
        proof {
            assert(forall|i: int| 0 <= i < t ==> #[trigger] positions@[i] == oldpos[i]);
            assert(forall|i: int| 0 <= i < t ==> #[trigger] oldpos[i] != p as int);
            assert(ret@[p as int] == data@[p as int]);
        }
        let v = ret[p];
        let w: u8 = if v == 0 {
            1u8
        } else {
            0u8
        };
        let ghost pre = ret@;
        ret.set(p, w);
        proof {
            assert(w == flip(data@[p as int]));
            assert(w != data@[p as int]);
            lemma_mismatch_update(pre, data@, p as int, w, len as int);
            assert forall|q: int| 0 <= q < len implies ret@[q] == (if exists|i: int|
                0 <= i < t + 1 && positions@[i] == q {
                flip(data@[q])
            } else {
                data@[q]
            }) by {
                if q == p as int {
                    assert(0 <= t < t + 1 && positions@[t as int] == q);
                } else {
                    assert(ret@[q] == pre[q]);
                    if exists|i: int| 0 <= i < t && oldpos[i] == q {
                        let i = choose|i: int| 0 <= i < t && oldpos[i] == q;
                        assert(pre[q] == flip(data@[q]));
                        assert(0 <= i < t + 1 && positions@[i] == q);
                    } else {
                        assert(pre[q] == data@[q]);
                        assert forall|i: int| 0 <= i < t + 1 implies #[trigger] positions@[i]
                            != q by {
                            if i < t {
                                assert(oldpos[i] != q);
                            } else {
                                assert(positions@[i] == p as int);
                            }
                        }
                    }
                }
            }
        }
        t = t + 1;
    }
    proof {
        assert(vstd::math::min(ret@.len() as int, data@.len() as int) == len as int);
        if k == 0 {
            assert(ret@ =~= data@);
        }
    }
    ret
}

/// Corruption with the severity checked first: `Some` of the corrupted copy
/// when `k` does not exceed the bitstream's length, and `None` — never a
/// silently capped or partial result — when it does.
pub fn try_corrupt(data: &Vec<u8>, k: usize) -> (r: Option<Vec<u8>>)
    requires
        is_bitstream(data@),
    ensures
        r is Some <==> k <= data@.len(),
        r matches Some(c) ==> c@.len() == data@.len() && is_bitstream(c@) && diff_count(
            c@,
            data@,
        ) == k && (k == 0 ==> c@ == data@),
{
    if k <= data.len() {
        Some(corrupt(data, k))
    } else {
        None
    }
}

} // verus!
