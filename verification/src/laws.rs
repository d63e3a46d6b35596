//! General properties of the engine, stated and proved once for all inputs.

use crate::engine::{matched_count, qualifies, scan_count, Threshold};
use crate::range::{
    lemma_ranges_total_at_least_len, overlap_len, range_len, range_wf, ranges_total, ranges_wf,
    separated, sorted_by_lower, CodepointRange,
};
use crate::table::{entry_wf, LanguageEntry};
use vstd::prelude::*;

verus! {

/// The overlap of one input range with every range in the list, summed with
/// no early exit: the always-correct reference scan.
pub open spec fn full_count(ranges: Seq<CodepointRange>, input: CodepointRange) -> int
    decreases ranges.len(),
{
    if ranges.len() == 0 {
        0
    } else {
        overlap_len(input, ranges.first()) + full_count(ranges.drop_first(), input)
    }
}

proof fn lemma_full_count_zero(ranges: Seq<CodepointRange>, input: CodepointRange)
    requires
        forall|i: int| 0 <= i < ranges.len() ==> (#[trigger] ranges[i]).lower > input.upper,
    ensures
        full_count(ranges, input) == 0,
    decreases ranges.len(),
{
    if ranges.len() > 0 {
        assert(forall|i: int|
            0 <= i < ranges.len() - 1 ==> ranges.drop_first()[i] == #[trigger] ranges[i + 1]);
        lemma_full_count_zero(ranges.drop_first(), input);
    }
}

/// On separated ranges — sorted ascending and pairwise disjoint, as a
/// well-authored language has them — the early-exit scan counts exactly what
/// the full reference scan counts, for every input range.
pub proof fn lemma_early_exit_exact(ranges: Seq<CodepointRange>, input: CodepointRange)
    requires
        separated(ranges),
    ensures
        scan_count(ranges, input) == full_count(ranges, input),
    decreases ranges.len(),
{
    if ranges.len() > 0 {
        assert(forall|i: int|
            0 <= i < ranges.len() - 1 ==> ranges.drop_first()[i] == #[trigger] ranges[i + 1]);
        if input.upper <= ranges.first().upper {
            assert forall|i: int| 0 <= i < ranges.drop_first().len() implies (
            #[trigger] ranges.drop_first()[i]).lower > input.upper by {
                assert(ranges[0].upper < ranges[i + 1].lower);
            }
            lemma_full_count_zero(ranges.drop_first(), input);
        } else {
            lemma_early_exit_exact(ranges.drop_first(), input);
        }
    }
}

/// A language whose sorted ranges include a codepoint always counts it: the
/// early exit never skips the range the codepoint lies in.
pub proof fn lemma_codepoint_counted(ranges: Seq<CodepointRange>, c: u32)
    requires
        sorted_by_lower(ranges),
        exists|j: int|
            0 <= j < ranges.len() && ((#[trigger] ranges[j]).lower <= c) && (c <= ranges[j].upper),
    ensures
        scan_count(ranges, CodepointRange { lower: c, upper: c }) >= 1,
    decreases ranges.len(),
{
    let input = CodepointRange { lower: c, upper: c };
    let j = choose|j: int|
        0 <= j < ranges.len() && ((#[trigger] ranges[j]).lower <= c) && (c <= ranges[j].upper);
    assert(forall|i: int|
        0 <= i < ranges.len() - 1 ==> ranges.drop_first()[i] == #[trigger] ranges[i + 1]);
    if c <= ranges.first().upper {
        assert(ranges[0].lower <= ranges[j].lower);
        assert(overlap_len(input, ranges.first()) >= 1);
    } else {
        assert(j != 0);
        assert(sorted_by_lower(ranges.drop_first()));
        assert(ranges.drop_first()[j - 1] == ranges[j]);
        lemma_codepoint_counted(ranges.drop_first(), c);
        assert(overlap_len(input, ranges.first()) == 0);
    }
}

/// A single-codepoint input that a language includes yields a match for that
/// language at any zero threshold, with at least one counted codepoint. Two
/// languages that share the codepoint therefore both report, independently.
pub proof fn lemma_shared_codepoint(
    e: LanguageEntry,
    c: u32,
    inputs: Seq<CodepointRange>,
    t: Threshold,
)
    requires
        entry_wf(e),
        t.wf(),
        t.num == 0,
        inputs == seq![CodepointRange { lower: c, upper: c }],
        exists|j: int|
            0 <= j < e.ranges@.len() && ((#[trigger] e.ranges@[j]).lower <= c) && (c
                <= e.ranges@[j].upper),
    ensures
        matched_count(inputs, e.ranges@) >= 1,
        qualifies(e, inputs, t),
{
    lemma_codepoint_counted(e.ranges@, c);
    assert(inputs.len() == 1);
    assert(inputs.last() == CodepointRange { lower: c, upper: c });
    assert(inputs.drop_last().len() == 0);
    assert(matched_count(inputs.drop_last(), e.ranges@) == 0);
    assert(matched_count(inputs, e.ranges@) == scan_count(
        e.ranges@,
        CodepointRange { lower: c, upper: c },
    ));
    assert(matched_count(inputs, e.ranges@) * t.den >= 0) by (nonlinear_arith)
        requires
            matched_count(inputs, e.ranges@) >= 1,
            t.den > 0,
    ;
}

/// A single codepoint matching a language's only range, of size one, covers
/// that language completely: the matched count equals the total.
pub proof fn lemma_single_codepoint_full_score(e: LanguageEntry, inputs: Seq<CodepointRange>)
    requires
        entry_wf(e),
        e.total == 1,
        e.ranges@.len() > 0,
        inputs == seq![e.ranges@[0]],
    ensures
        e.ranges@.len() == 1,
        matched_count(inputs, e.ranges@) == e.total,
{
    lemma_ranges_total_at_least_len(e.ranges@);
    assert(e.ranges@.len() == 1) by {
        if e.ranges@.len() >= 2 {
            assert(ranges_total(e.ranges@) >= 2);
        }
    }
    let r = e.ranges@[0];
    assert(e.ranges@.drop_last().len() == 0);
    assert(ranges_total(e.ranges@.drop_last()) == 0);
    assert(e.ranges@.last() == r);
    assert(range_len(r) == 1);
    assert(range_wf(r));
    assert(overlap_len(r, r) == 1);
    assert(e.ranges@.first() == r);
    assert(scan_count(e.ranges@, r) == 1);
    assert(inputs.len() == 1);
    assert(inputs.drop_last().len() == 0);
    assert(matched_count(inputs.drop_last(), e.ranges@) == 0);
    assert(inputs.last() == r);
}

/// Scanning one of a language's own ranges counts it in full when the
/// language's ranges are separated.
proof fn lemma_scan_count_own(ranges: Seq<CodepointRange>, k: int)
    requires
        ranges_wf(ranges),
        separated(ranges),
        0 <= k < ranges.len(),
    ensures
        scan_count(ranges, ranges[k]) == range_len(ranges[k]),
    decreases k,
{
    assert(forall|i: int|
        0 <= i < ranges.len() - 1 ==> ranges.drop_first()[i] == #[trigger] ranges[i + 1]);
    if k == 0 {
        assert(overlap_len(ranges[0], ranges[0]) == range_len(ranges[0]));
    } else {
        assert(ranges[0].upper < ranges[k].lower);
        assert(overlap_len(ranges[k], ranges[0]) == 0);
        assert(ranges_wf(ranges.drop_first()));
        assert(separated(ranges.drop_first()));
        lemma_scan_count_own(ranges.drop_first(), k - 1);
    }
}

proof fn lemma_matched_count_own(ranges: Seq<CodepointRange>, m: int)
    requires
        ranges_wf(ranges),
        separated(ranges),
        0 <= m <= ranges.len(),
    ensures
        matched_count(ranges.take(m), ranges) == ranges_total(ranges.take(m)),
    decreases m,
{
    if m > 0 {
        lemma_matched_count_own(ranges, m - 1);
        assert(ranges.take(m).drop_last() =~= ranges.take(m - 1));
        assert(ranges.take(m).last() == ranges[m - 1]);
        lemma_scan_count_own(ranges, m - 1);
    }
}

/// The round trip: feeding a compiled language its own range list back to the
/// engine at threshold one reports it with full coverage — the matched count
/// equals the total, a score of exactly one. This holds for languages whose
/// authored ranges are pairwise disjoint; a language that lists overlapping
/// ranges inflates both its total and its own round-trip count.
pub proof fn lemma_round_trip(e: LanguageEntry, t: Threshold)
    requires
        entry_wf(e),
        separated(e.ranges@),
        t.wf(),
        t.num == t.den,
    ensures
        matched_count(e.ranges@, e.ranges@) == e.total,
        qualifies(e, e.ranges@, t),
{
    lemma_matched_count_own(e.ranges@, e.ranges@.len() as int);
    assert(e.ranges@.take(e.ranges@.len() as int) =~= e.ranges@);
}

} // verus!
