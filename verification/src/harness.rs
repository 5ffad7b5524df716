//! The statistics harness: repeated randomized corruption trials at a fixed
//! severity, recording the worst observed corruption, how the scheme fared
//! on exactly that trial, and the total decode time.

use vstd::prelude::*;
use crate::bits::{is_bitstream, diff_count, diff};
use crate::ecc::ErrorCorrectingCode;
use crate::sampler::corrupt;

verus! {

#[verifier::external_type_specification]
#[verifier::external_body]
pub struct ExInstant(std::time::Instant);

/// Relies on std::time::Instant::now: a point on the monotonic clock.
/// Nothing is promised of the value read.
pub assume_specification[ std::time::Instant::now ]() -> std::time::Instant;

/// Relies on std::time::Instant::elapsed: the time since the instant was
/// taken. Nothing is promised of the value.
pub assume_specification[ std::time::Instant::elapsed ](
    this: &std::time::Instant,
) -> std::time::Duration;

/// Relies on std::time::Duration::as_nanos: the whole duration counted in
/// nanoseconds. Nothing is promised of the value.
pub assume_specification[ std::time::Duration::as_nanos ](this: &std::time::Duration) -> u128;

/// What one trial at severity `k` may report: some corrupted bitstream of
/// the encoding's length, differing from the encoding in exactly `k`
/// positions, gives the pair's first count when compared against the
/// original and, once decoded, the pair's second count.
pub open spec fn trial_outcome<E: ErrorCorrectingCode>(
    ecc: E,
    encoded: Seq<u8>,
    original: Seq<u8>,
    k: int,
    pair: (usize, usize),
) -> bool {
    exists|c: Seq<u8>|
        is_bitstream(c) && c.len() == encoded.len() && diff_count(c, encoded) == k && pair.0
            == diff_count(c, original) && pair.1 == diff_count(ecc.spec_decode(c), original)
}

/// The pair with the greatest first count; among equals, the earliest.
pub fn worst_pair(pairs: &Vec<(usize, usize)>) -> (r: (usize, usize))
    requires
        pairs@.len() >= 1,
    ensures
        exists|i: int|
            0 <= i < pairs@.len() && r == #[trigger] pairs@[i] && (forall|j: int|
                0 <= j < pairs@.len() ==> (#[trigger] pairs@[j]).0 <= r.0) && (forall|j: int|
                0 <= j < i ==> (#[trigger] pairs@[j]).0 < r.0),
{
    let mut best = pairs[0];
    let ghost mut best_i: int = 0;
    let mut t: usize = 1;
    while t < pairs.len()
        invariant
            1 <= t <= pairs@.len(),
            0 <= best_i < t,
            best == pairs@[best_i],
            forall|j: int| 0 <= j < t ==> (#[trigger] pairs@[j]).0 <= best.0,
            forall|j: int| 0 <= j < best_i ==> (#[trigger] pairs@[j]).0 < best.0,
        decreases pairs@.len() - t,
    {
        let cand = pairs[t];
        if cand.0 > best.0 {
            best = cand;
            proof {
                best_i = t as int;
            }
        }
        t = t + 1;
    }
    best
}

/// What one severity level produced.
pub struct SeverityReport {
    /// Every trial's pair, in trial order: the corrupted-vs-original
    /// difference count and the decoded-vs-original difference count.
    pub trials: Vec<(usize, usize)>,
    /// The corrupted difference count of the worst-corruption trial.
    pub worst_corrupted: usize,
    /// The decoded difference count of that same trial — how the scheme
    /// fared on exactly the worst observed corruption.
    pub worst_decoded: usize,
    /// Total decode time across the trials, in nanoseconds; the corruption
    /// sampling and difference counting are not timed.
    pub decode_nanos: u128,
}

/// Everything `severity_stats` promises of one severity level's report:
/// `trials` trial pairs, each one a possible outcome at severity `k`, and
/// the worst pair taken from the trial with the greatest corrupted
/// difference, ties going to the earliest trial.
pub open spec fn report_valid<E: ErrorCorrectingCode>(
    ecc: E,
    encoded: Seq<u8>,
    original: Seq<u8>,
    k: int,
    trials: int,
    r: SeverityReport,
) -> bool {
    &&& r.trials@.len() == trials
    &&& (forall|t: int|
        0 <= t < trials ==> trial_outcome(ecc, encoded, original, k, #[trigger] r.trials@[t]))
    &&& (exists|i: int|
        0 <= i < trials && (r.worst_corrupted, r.worst_decoded) == #[trigger] r.trials@[i] && (
        forall|j: int|
            0 <= j < trials ==> (#[trigger] r.trials@[j]).0 <= r.worst_corrupted) && (forall|
            j: int,
        |
            0 <= j < i ==> (#[trigger] r.trials@[j]).0 < r.worst_corrupted))
}

/// Runs `trials` independent corruption trials of `ecc` at severity `k`
/// against `encoded` (in the intended use, the encoding of `original`,
/// though any pair of bitstreams can be compared), and reports every
/// trial's difference pair together with the pair of the trial whose
/// corruption was worst, ties going to the earliest trial.
pub fn severity_stats<E: ErrorCorrectingCode>(
    ecc: &E,
    encoded: &Vec<u8>,
    original: &Vec<u8>,
    k: usize,
    trials: usize,
) -> (r: SeverityReport)
    requires
        ecc.wf(),
        is_bitstream(encoded@),
        is_bitstream(original@),
        k <= encoded@.len(),
        trials >= 1,
    ensures
        report_valid(*ecc, encoded@, original@, k as int, trials as int, r),
{
    let mut results: Vec<(usize, usize)> = Vec::new();
    let mut decode_nanos: u128 = 0;
    let mut t: usize = 0;
    while t < trials
        invariant
            t <= trials,
            ecc.wf(),
            is_bitstream(encoded@),
            is_bitstream(original@),
            k <= encoded@.len(),
            results@.len() == t,
            forall|q: int|
                0 <= q < t ==> trial_outcome(
                    *ecc,
                    encoded@,
                    original@,
                    k as int,
                    #[trigger] results@[q],
                ),
        decreases trials - t,
    {
        let corrupted = corrupt(encoded, k);
        let start = std::time::Instant::now();
        let decoded = ecc.decode(&corrupted);
        let elapsed = start.elapsed();
        let nanos = elapsed.as_nanos();
        decode_nanos = if decode_nanos <= u128::MAX - nanos {
            decode_nanos + nanos
        } else {
            u128::MAX
        };
        let cd = diff(&corrupted, original);
        let dd = diff(&decoded, original);
        let pair = (cd.len(), dd.len());
        results.push(pair);
        proof {
            assert(is_bitstream(corrupted@) && corrupted@.len() == encoded@.len() && diff_count(
                corrupted@,
                encoded@,
            ) == k && pair.0 == diff_count(corrupted@, original@) && pair.1 == diff_count(
                ecc.spec_decode(corrupted@),
                original@,
            ));
            assert(trial_outcome(*ecc, encoded@, original@, k as int, pair));
            assert(results@[t as int] == pair);
        }
        t = t + 1;
    }
    let worst = worst_pair(&results);
    proof {
        // The witness index of the worst pair carries over to the report.
        let i = choose|i: int|
            0 <= i < results@.len() && worst == #[trigger] results@[i] && (forall|j: int|
                0 <= j < results@.len() ==> (#[trigger] results@[j]).0 <= worst.0) && (forall|
                j: int,
            |
                0 <= j < i ==> (#[trigger] results@[j]).0 < worst.0);
        assert((worst.0, worst.1) == results@[i]);
    }
    SeverityReport {
        trials: results,
        worst_corrupted: worst.0,
        worst_decoded: worst.1,
        decode_nanos,
    }
}

/// A whole evaluation of one scheme against one bitstream.
pub struct Evaluation {
    /// Length of the original bitstream.
    pub original_len: usize,
    /// Length of its encoding.
    pub encoded_len: usize,
    /// One report per severity, for severities 1, 2, ... in order.
    pub severities: Vec<SeverityReport>,
}

/// Encodes `original` with `ecc` and runs `trials` independent corruption
/// trials at every severity from 1 to `max_severity` inclusive, reporting
/// each severity level's worst observed corruption and how the scheme fared
/// on exactly that trial.
pub fn evaluate<E: ErrorCorrectingCode>(
    ecc: &E,
    original: &Vec<u8>,
    max_severity: usize,
    trials: usize,
) -> (r: Evaluation)
    requires
        ecc.wf(),
        is_bitstream(original@),
        ecc.spec_encode(original@).len() <= usize::MAX,
        max_severity <= ecc.spec_encode(original@).len(),
        max_severity < usize::MAX,
        trials >= 1,
    ensures
        r.original_len == original@.len(),
        r.encoded_len == ecc.spec_encode(original@).len(),
        r.severities@.len() == max_severity,
        forall|q: int|
            0 <= q < max_severity ==> report_valid(
                *ecc,
                ecc.spec_encode(original@),
                original@,
                q + 1,
                trials as int,
                #[trigger] r.severities@[q],
            ),
{
    let encoded = ecc.encode(original);
    let mut severities: Vec<SeverityReport> = Vec::new();
    let mut k: usize = 1;
    while k <= max_severity
        invariant
            1 <= k <= max_severity + 1,
            ecc.wf(),
            is_bitstream(original@),
            is_bitstream(encoded@),
            encoded@ == ecc.spec_encode(original@),
            max_severity <= encoded@.len(),
            max_severity < usize::MAX,
            trials >= 1,
            severities@.len() == k - 1,
            forall|q: int|
                0 <= q < k - 1 ==> report_valid(
                    *ecc,
                    encoded@,
                    original@,
                    q + 1,
                    trials as int,
                    #[trigger] severities@[q],
                ),
        decreases max_severity + 1 - k,
    {
        let rep = severity_stats(ecc, &encoded, original, k, trials);
        severities.push(rep);
        k = k + 1;
    }
    Evaluation { original_len: original.len(), encoded_len: encoded.len(), severities }
}

} // verus!
