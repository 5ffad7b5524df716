//! Bitstreams: sequences of single-bit values stored as `u8`, and the
//! position-wise comparison of two bitstreams.

use vstd::prelude::*;
use vstd::arithmetic::power2::pow2;

verus! {

/// Every element of a bitstream is 0 or 1.
pub open spec fn is_bitstream(s: Seq<u8>) -> bool {
    forall|i: int| 0 <= i < s.len() ==> s[i] <= 1
}

/// Number of positions `i < n` at which `a` and `b` hold different values.
pub open spec fn mismatch_count(a: Seq<u8>, b: Seq<u8>, n: int) -> int
    decreases n,
{
    if n <= 0 {
        0
    } else {
        mismatch_count(a, b, n - 1) + if a[n - 1] != b[n - 1] { 1int } else { 0int }
    }
}

/// Number of positions in the common prefix of `a` and `b` that differ:
/// positions past the shorter length are ignored.
pub open spec fn diff_count(a: Seq<u8>, b: Seq<u8>) -> int {
    mismatch_count(a, b, vstd::math::min(a.len() as int, b.len() as int))
}

/// Two sequences that agree at every position below `n` have no mismatches
/// there.
pub proof fn lemma_mismatch_equal(a: Seq<u8>, b: Seq<u8>, n: int)
    requires
        forall|i: int| 0 <= i < n ==> a[i] == b[i],
    ensures
        mismatch_count(a, b, n) == 0,
    decreases n,
{
    if n > 0 {
        lemma_mismatch_equal(a, b, n - 1);
    }
}

/// Replacing position `p` of `a` changes the number of mismatches against
/// `b` by the difference the replacement makes at `p` alone.
pub proof fn lemma_mismatch_update(a: Seq<u8>, b: Seq<u8>, p: int, v: u8, n: int)
    requires
        0 <= p < a.len(),
        n <= a.len(),
        n <= b.len(),
    ensures
        mismatch_count(a.update(p, v), b, n) == mismatch_count(a, b, n) + (if p < n {
            (if v != b[p] {
                1int
            } else {
                0int
            }) - (if a[p] != b[p] {
                1int
            } else {
                0int
            })
        } else {
            0int
        }),
    decreases n,
{
    if n > 0 {
        lemma_mismatch_update(a, b, p, v, n - 1);
    }
}

/// A mismatch count is never negative.
pub proof fn lemma_mismatch_nonneg(a: Seq<u8>, b: Seq<u8>, n: int)
    ensures
        mismatch_count(a, b, n) >= 0,
    decreases n,
{
    if n > 0 {
        lemma_mismatch_nonneg(a, b, n - 1);
    }
}

/// Counting over a longer prefix finds at least as many mismatches.
pub proof fn lemma_mismatch_mono(a: Seq<u8>, b: Seq<u8>, m: int, n: int)
    requires
        m <= n,
    ensures
        mismatch_count(a, b, m) <= mismatch_count(a, b, n),
    decreases n - m,
{
    if m < n {
        lemma_mismatch_mono(a, b, m, n - 1);
    }
}

/// Two distinct mismatching positions make the mismatch count at least 2.
pub proof fn lemma_mismatch_two(a: Seq<u8>, b: Seq<u8>, p: int, q: int, n: int)
    requires
        0 <= p < q < n,
        a[p] != b[p],
        a[q] != b[q],
    ensures
        mismatch_count(a, b, n) >= 2,
{
    lemma_mismatch_nonneg(a, b, p);
    assert(mismatch_count(a, b, p + 1) >= 1);
    lemma_mismatch_mono(a, b, p + 1, q);
    assert(mismatch_count(a, b, q + 1) >= 2);
    lemma_mismatch_mono(a, b, q + 1, n);
}

/// Bit `j` of `byte`, counting the most significant bit as bit 0.
pub open spec fn bit_at(byte: u8, j: int) -> u8 {
    (((byte as int) / (pow2((7 - j) as nat) as int)) % 2) as u8
}

/// The bitstream of `bytes`: each byte decomposed into 8 bits, most
/// significant bit first, in input byte order.
pub open spec fn spec_bytes_to_bits(bytes: Seq<u8>) -> Seq<u8> {
    Seq::new((bytes.len() * 8) as nat, |i: int| bit_at(bytes[i / 8], i % 8))
}

/// The value of the first `n` elements of `s` read as a big-endian number:
/// each step doubles the accumulator and adds the next element.
pub open spec fn horner(s: Seq<u8>, n: int) -> int
    decreases n,
{
    if n <= 0 {
        0
    } else {
        2 * horner(s, n - 1) + s[n - 1]
    }
}

/// The bytes reassembled from a bitstream, 8 bits per byte, most significant
/// bit first; a trailing group of fewer than 8 bits is dropped.
pub open spec fn spec_bits_to_bytes(bits: Seq<u8>) -> Seq<u8> {
    Seq::new((bits.len() / 8) as nat, |i: int| horner(bits.subrange(8 * i, 8 * i + 8), 8) as u8)
}

/// A sequence holding the big-endian bits of `v` evaluates back to `v`.
proof fn lemma_horner_bits(v: int, n: nat, s: Seq<u8>)
    requires
        0 <= v < pow2(n),
        n <= s.len(),
        forall|j: int| 0 <= j < n ==> s[j] == ((v / (pow2((n - 1 - j) as nat) as int)) % 2) as u8,
    ensures
        horner(s, n as int) == v,
    decreases n,
{
    if n == 0 {
        assert(pow2(0) == 1) by {
            vstd::arithmetic::power2::lemma2_to64();
        }
    } else {
        let h = v / 2;
        assert(pow2(n) == 2 * pow2((n - 1) as nat)) by {
            vstd::arithmetic::power2::lemma_pow2_unfold(n);
        }
        assert forall|j: int| 0 <= j < n - 1 implies s[j] == ((h / (pow2((n - 2 - j) as nat)
            as int)) % 2) as u8 by {
            let p = pow2((n - 2 - j) as nat) as int;
            assert(p > 0) by {
                vstd::arithmetic::power2::lemma_pow2_pos((n - 2 - j) as nat);
            }
            assert(pow2((n - 1 - j) as nat) == 2 * pow2((n - 2 - j) as nat)) by {
                vstd::arithmetic::power2::lemma_pow2_unfold((n - 1 - j) as nat);
            }
            assert((v / 2) / p == v / (2 * p)) by {
                vstd::arithmetic::div_mod::lemma_div_denominator(v, 2, p);
            }
        }
        lemma_horner_bits(h, (n - 1) as nat, s);
        assert(s[n - 1] == ((v / (pow2(0) as nat as int)) % 2) as u8);
        assert(pow2(0) == 1) by {
            vstd::arithmetic::power2::lemma2_to64();
        }
        assert(horner(s, n as int) == 2 * h + v % 2);
    }
}

/// Decomposing bytes into bits and reassembling them gives the bytes back.
pub proof fn lemma_bits_bytes_round_trip(bytes: Seq<u8>)
    ensures
        spec_bits_to_bytes(spec_bytes_to_bits(bytes)) == bytes,
{
    let bits = spec_bytes_to_bits(bytes);
    let back = spec_bits_to_bytes(bits);
    assert(back.len() == bytes.len());
    assert forall|i: int| 0 <= i < bytes.len() implies back[i] == bytes[i] by {
        let sub = bits.subrange(8 * i, 8 * i + 8);
        assert forall|j: int| 0 <= j < 8 implies sub[j] == (((bytes[i] as int) / (pow2(
            (7 - j) as nat,
        ) as int)) % 2) as u8 by {
            assert(bits[8 * i + j] == bit_at(bytes[(8 * i + j) / 8], (8 * i + j) % 8));
            assert((8 * i + j) / 8 == i);
            assert((8 * i + j) % 8 == j);
        }
        assert(bytes[i] < pow2(8)) by {
            vstd::arithmetic::power2::lemma2_to64();
        }
        lemma_horner_bits(bytes[i] as int, 8, sub);
    }
    assert(back =~= bytes);
}

/// The bitstream of `bytes`, 8 bits per byte, most significant bit first.
pub fn bytes_to_bits(bytes: &Vec<u8>) -> (r: Vec<u8>)
    requires
        bytes@.len() * 8 <= usize::MAX,
    ensures
        r@ == spec_bytes_to_bits(bytes@),
        r@.len() == bytes@.len() * 8,
        is_bitstream(r@),
{
    let mut r: Vec<u8> = Vec::new();
    let mut i: usize = 0;
    while i < bytes.len()
        invariant
            i <= bytes@.len(),
            bytes@.len() * 8 <= usize::MAX,
            r@.len() == i * 8,
            forall|q: int| 0 <= q < r@.len() ==> #[trigger] r@[q] == bit_at(bytes@[q / 8], q % 8),
            is_bitstream(r@),
        decreases bytes@.len() - i,
    {
        let b = bytes[i];
        proof {
            vstd::arithmetic::power2::lemma2_to64();
        }
        let mut div: u8 = 128;
        let mut j: usize = 0;
        while j < 8
            invariant
                j <= 8,
                i < bytes@.len(),
                b == bytes@[i as int],
                bytes@.len() * 8 <= usize::MAX,
                j < 8 ==> div == pow2((7 - j) as nat),
                r@.len() == i * 8 + j,
                forall|q: int|
                    0 <= q < r@.len() ==> #[trigger] r@[q] == bit_at(bytes@[q / 8], q % 8),
                is_bitstream(r@),
            decreases 8 - j,
        {
            proof {
                vstd::arithmetic::power2::lemma_pow2_pos((7 - j) as nat);
            }
            let bit = (b / div) % 2;
            r.push(bit);
            proof {
                assert(r@[r@.len() - 1] == bit_at(bytes@[i as int], j as int));
                assert((i * 8 + j) / 8 == i && (i * 8 + j) % 8 == j);
                assert forall|q: int| 0 <= q < r@.len() implies #[trigger] r@[q] == bit_at(
                    bytes@[q / 8],
                    q % 8,
                ) by {}
                if j < 7 {
                    vstd::arithmetic::power2::lemma_pow2_unfold((7 - j) as nat);
                }
            }
            div = div / 2;
            j = j + 1;
        }
        i = i + 1;
    }
    proof {
        assert(r@ =~= spec_bytes_to_bits(bytes@));
    }
    r
}

/// The bytes of a bitstream whose length is a whole number of bytes,
/// reassembled most significant bit first.
pub fn bits_to_bytes(bits: &Vec<u8>) -> (r: Vec<u8>)
    requires
        is_bitstream(bits@),
        bits@.len() % 8 == 0,
    ensures
        r@ == spec_bits_to_bytes(bits@),
        r@.len() * 8 == bits@.len(),
{
    let n = bits.len() / 8;
    let mut r: Vec<u8> = Vec::new();
    let mut i: usize = 0;
    while i < n
        invariant
            i <= n,
            n == bits@.len() / 8,
            bits@.len() <= usize::MAX,
            bits@.len() % 8 == 0,
            is_bitstream(bits@),
            r@.len() == i,
            forall|q: int|
                0 <= q < i ==> #[trigger] r@[q] == horner(bits@.subrange(8 * q, 8 * q + 8), 8) as u8,
        decreases n - i,
    {
        let ghost sub = bits@.subrange(8 * i, 8 * i + 8);
        proof {
            vstd::arithmetic::power2::lemma2_to64();
        }
        let mut acc: u8 = 0;
        let mut j: usize = 0;
        while j < 8
            invariant
                j <= 8,
                i < n,
                n == bits@.len() / 8,
                bits@.len() <= usize::MAX,
                bits@.len() % 8 == 0,
                is_bitstream(bits@),
                sub == bits@.subrange(8 * i as int, 8 * i as int + 8),
                acc as int == horner(sub, j as int),
                acc < pow2(j as nat),
            decreases 8 - j,
        {
            proof {
                vstd::arithmetic::power2::lemma2_to64();
                assert(pow2(j as nat) <= pow2(7)) by {
                    if j < 7 {
                        vstd::arithmetic::power2::lemma_pow2_strictly_increases(j as nat, 7);
                    }
                }
                vstd::arithmetic::power2::lemma_pow2_unfold((j + 1) as nat);
                assert(bits@.len() == 8 * n);
                assert(8 * (i as int) + j < bits@.len());
                assert(sub[j as int] == bits@[8 * i + j]);
            }
            let bit = bits[8 * i + j];
            acc = acc * 2 + bit;
            j = j + 1;
        }
        r.push(acc);
        proof {
            assert(r@[i as int] == horner(sub, 8) as u8);
        }
        i = i + 1;
    }
    proof {
        assert(r@ =~= spec_bits_to_bytes(bits@));
    }
    r
}

/// The positions, in increasing order, at which `lhs` and `rhs` differ,
/// restricted to the overlapping length; a length mismatch is not an error.
pub fn diff(lhs: &Vec<u8>, rhs: &Vec<u8>) -> (r: Vec<usize>)
    ensures
        r@.len() == diff_count(lhs@, rhs@),
        forall|j: int|
            0 <= j < r@.len() ==> #[trigger] r@[j] < lhs@.len() && r@[j] < rhs@.len()
                && lhs@[r@[j] as int] != rhs@[r@[j] as int],
        forall|j: int, j2: int| 0 <= j < j2 < r@.len() ==> r@[j] < r@[j2],
        forall|i: int|
            0 <= i < lhs@.len() && i < rhs@.len() && lhs@[i] != rhs@[i] ==> r@.contains(
                i as usize,
            ),
{
    let n = if lhs.len() < rhs.len() {
        lhs.len()
    } else {
        rhs.len()
    };
    let mut r: Vec<usize> = Vec::new();
    let mut i: usize = 0;
    while i < n
        invariant
            i <= n,
            n <= lhs@.len(),
            n <= rhs@.len(),
            r@.len() == mismatch_count(lhs@, rhs@, i as int),
            forall|j: int|
                0 <= j < r@.len() ==> #[trigger] r@[j] < i && lhs@[r@[j] as int] != rhs@[r@[j] as int],
            forall|j: int, j2: int| 0 <= j < j2 < r@.len() ==> r@[j] < r@[j2],
            forall|p: int| 0 <= p < i && lhs@[p] != rhs@[p] ==> r@.contains(p as usize),
        decreases n - i,
    {
        if lhs[i] != rhs[i] {
            let ghost prev = r@;
            r.push(i);
            proof {
                assert forall|p: int| 0 <= p <= i && lhs@[p] != rhs@[p] implies r@.contains(
                    p as usize,
                ) by {
                    if p < i {
                        assert(prev.contains(p as usize));
                        let j = choose|j: int| 0 <= j < prev.len() && prev[j] == p as usize;
                        assert(r@[j] == p as usize);
                    } else {
                        assert(r@[r@.len() - 1] == i as usize);
                    }
                }
            }
        }
        i = i + 1;
    }
    r
}

} // verus!
