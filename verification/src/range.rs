//! Inclusive ranges of Unicode codepoints and their basic measures.

use vstd::prelude::*;

verus! {

/// An inclusive range of codepoints; a single codepoint `c` is `(c, c)`.
#[derive(Clone, Copy, Debug, PartialEq, Eq, Structural)]
pub struct CodepointRange {
    pub lower: u32,
    pub upper: u32,
}

/// A range is well formed when its bounds are ordered.
pub open spec fn range_wf(r: CodepointRange) -> bool {
    r.lower <= r.upper
}

/// Number of codepoints an inclusive range covers.
pub open spec fn range_len(r: CodepointRange) -> int {
    r.upper - r.lower + 1
}

/// All ranges in the sequence are well formed.
pub open spec fn ranges_wf(rs: Seq<CodepointRange>) -> bool {
    forall|i: int| 0 <= i < rs.len() ==> range_wf(#[trigger] rs[i])
}

/// Sum of the lengths of the ranges, without deduplication: overlapping
/// ranges inside one sequence are counted as often as they occur.
pub open spec fn ranges_total(rs: Seq<CodepointRange>) -> int
    decreases rs.len(),
{
    if rs.len() == 0 {
        0
    } else {
        ranges_total(rs.drop_last()) + range_len(rs.last())
    }
}

/// Sorted ascending by lower bound (ties allowed).
pub open spec fn sorted_by_lower(rs: Seq<CodepointRange>) -> bool {
    forall|i: int, j: int| 0 <= i < j < rs.len() ==> #[trigger] rs[i].lower <= #[trigger] rs[j].lower
}

/// Each range ends strictly before the next one begins; together with being
/// well formed this means the ranges are sorted and pairwise disjoint.
pub open spec fn separated(rs: Seq<CodepointRange>) -> bool {
    forall|i: int, j: int| 0 <= i < j < rs.len() ==> #[trigger] rs[i].upper < #[trigger] rs[j].lower
}

/// How many codepoints two ranges share.
pub open spec fn overlap_len(input: CodepointRange, r: CodepointRange) -> int {
    if input.lower <= r.upper && r.lower <= input.upper {
        vstd::math::min(input.upper as int, r.upper as int) - vstd::math::max(
            input.lower as int,
            r.lower as int,
        ) + 1
    } else {
        0
    }
}

/// The overlap of two well-formed ranges is at most the length of either.
pub proof fn lemma_overlap_len_bounds(input: CodepointRange, r: CodepointRange)
    requires
        range_wf(input),
        range_wf(r),
    ensures
        0 <= overlap_len(input, r),
        overlap_len(input, r) <= range_len(r),
        overlap_len(input, r) <= range_len(input),
{
}

/// A total is never negative, and never smaller than any prefix's total.
pub proof fn lemma_ranges_total_take(rs: Seq<CodepointRange>, n: int)
    requires
        ranges_wf(rs),
        0 <= n <= rs.len(),
    ensures
        0 <= ranges_total(rs.take(n)),
        ranges_total(rs.take(n)) <= ranges_total(rs),
    decreases rs.len(),
{
    if rs.len() == 0 {
        assert(rs.take(n) =~= rs);
    } else if n == rs.len() {
        assert(rs.take(n) =~= rs);
        lemma_ranges_total_take(rs.drop_last(), rs.len() - 1);
        assert(rs.drop_last().take(rs.len() - 1) =~= rs.drop_last());
    } else {
        assert(rs.drop_last().take(n) =~= rs.take(n));
        lemma_ranges_total_take(rs.drop_last(), n);
    }
}

/// Each well-formed range covers at least one codepoint.
pub proof fn lemma_ranges_total_at_least_len(rs: Seq<CodepointRange>)
    requires
        ranges_wf(rs),
    ensures
        ranges_total(rs) >= rs.len(),
    decreases rs.len(),
{
    if rs.len() > 0 {
        assert(ranges_wf(rs.drop_last())) by {
            assert(forall|i: int| 0 <= i < rs.len() - 1 ==> rs.drop_last()[i] == #[trigger] rs[i]);
        }
        lemma_ranges_total_at_least_len(rs.drop_last());
    }
}

/// The total can also be peeled off at the front.
pub proof fn lemma_ranges_total_first(rs: Seq<CodepointRange>)
    requires
        rs.len() > 0,
    ensures
        ranges_total(rs) == range_len(rs.first()) + ranges_total(rs.drop_first()),
    decreases rs.len(),
{
    if rs.len() == 1 {
        assert(rs.drop_first() =~= Seq::<CodepointRange>::empty());
        assert(rs.drop_last() =~= Seq::<CodepointRange>::empty());
    } else {
        lemma_ranges_total_first(rs.drop_last());
        assert(rs.drop_last().drop_first() =~= rs.drop_first().drop_last());
        assert(rs.drop_last().first() == rs.first());
        assert(rs.drop_first().last() == rs.last());
    }
}

/// Removing one range lowers the total by exactly that range's length.
pub proof fn lemma_ranges_total_remove(rs: Seq<CodepointRange>, i: int)
    requires
        0 <= i < rs.len(),
    ensures
        ranges_total(rs.remove(i)) == ranges_total(rs) - range_len(rs[i]),
    decreases rs.len(),
{
    if i == rs.len() - 1 {
        assert(rs.remove(i) =~= rs.drop_last());
    } else {
        assert(rs.remove(i).drop_last() =~= rs.drop_last().remove(i));
        assert(rs.remove(i).last() == rs.last());
        lemma_ranges_total_remove(rs.drop_last(), i);
    }
}

/// Reordering ranges never changes their total.
pub proof fn lemma_ranges_total_permutation(a: Seq<CodepointRange>, b: Seq<CodepointRange>)
    requires
        a.to_multiset() == b.to_multiset(),
    ensures
        ranges_total(a) == ranges_total(b),
    decreases a.len(),
{
    broadcast use vstd::seq_lib::group_to_multiset_ensures;

    if a.len() == 0 {
        assert(b.to_multiset().len() == 0);
    } else {
        let x = a.last();
        assert(a.to_multiset().contains(x));
        assert(b.contains(x));
        let j = choose|j: int| 0 <= j < b.len() && b[j] == x;
        assert(a.drop_last() =~= a.remove(a.len() - 1));
        assert(a.remove(a.len() - 1).to_multiset() =~= a.to_multiset().remove(x));
        assert(b.remove(j).to_multiset() =~= b.to_multiset().remove(x));
        lemma_ranges_total_permutation(a.drop_last(), b.remove(j));
        lemma_ranges_total_remove(b, j);
    }
}

} // verus!
