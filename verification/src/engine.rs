//! The detection engine: scores an input codepoint-range set against every
//! compiled language and returns ranked matches above a threshold.

use crate::range::{
    lemma_overlap_len_bounds, lemma_ranges_total_first, lemma_ranges_total_take, overlap_len,
    range_wf, ranges_total, ranges_wf, CodepointRange,
};
use crate::table::{entry_wf, table_wf, LanguageEntry};
use vstd::pervasive::VecAdditionalExecFns;
use vstd::prelude::*;

verus! {

/// Minimum score a language must reach to be returned, as the exact rational
/// `num / den`.
#[derive(Clone, Copy, Debug, PartialEq, Eq, Structural)]
pub struct Threshold {
    pub num: u32,
    pub den: u32,
}

impl Threshold {
    /// A threshold is a rational in `[0, 1]`.
    pub open spec fn wf(self) -> bool {
        0 < self.den && self.num <= self.den
    }
}

/// One detected language. Its score is the exact rational `count / total`.
#[derive(Clone, Debug)]
pub struct Match {
    /// Stable short code of the language.
    pub code: String,
    /// Anglicized name.
    pub name: String,
    /// Name in the language's own script.
    pub native: String,
    /// Number of codepoints of this language the input covers.
    pub count: u64,
    /// The language's total codepoint count (the score's denominator).
    pub total: u32,
}

/// Codepoints a single input range shares with a language's range list, as
/// the engine's early-exit scan counts them: ranges are visited in order, and
/// the scan stops after the first range whose upper bound reaches the input's.
pub open spec fn scan_count(ranges: Seq<CodepointRange>, input: CodepointRange) -> int
    decreases ranges.len(),
{
    if ranges.len() == 0 {
        0
    } else {
        overlap_len(input, ranges.first()) + if input.upper <= ranges.first().upper {
            0
        } else {
            scan_count(ranges.drop_first(), input)
        }
    }
}

/// Codepoints of a language the whole input covers: the scan counts of all
/// input ranges, summed.
pub open spec fn matched_count(inputs: Seq<CodepointRange>, ranges: Seq<CodepointRange>) -> int
    decreases inputs.len(),
{
    if inputs.len() == 0 {
        0
    } else {
        matched_count(inputs.drop_last(), ranges) + scan_count(ranges, inputs.last())
    }
}

/// `count / total >= num / den`, compared without division.
pub open spec fn meets_threshold(count: int, total: int, t: Threshold) -> bool {
    count * t.den >= t.num * total
}

/// A language is reported iff it matched at least one codepoint and its score
/// reaches the threshold (inclusively).
pub open spec fn qualifies(e: LanguageEntry, inputs: Seq<CodepointRange>, t: Threshold) -> bool {
    matched_count(inputs, e.ranges@) > 0 && meets_threshold(
        matched_count(inputs, e.ranges@),
        e.total as int,
        t,
    )
}

/// The match record reported for a language.
pub open spec fn match_of(e: LanguageEntry, inputs: Seq<CodepointRange>) -> Match {
    Match {
        code: e.identifier,
        name: e.display_name,
        native: e.native_name,
        count: matched_count(inputs, e.ranges@) as u64,
        total: e.total,
    }
}

/// A reported match always has a positive denominator.
pub open spec fn match_wf(m: Match) -> bool {
    m.total > 0
}

pub open spec fn matches_wf(s: Seq<Match>) -> bool {
    forall|i: int| 0 <= i < s.len() ==> match_wf(#[trigger] s[i])
}

/// `a`'s score is at least `b`'s: `a.count / a.total >= b.count / b.total`,
/// compared by cross multiplication.
pub open spec fn score_ge(a: Match, b: Match) -> bool {
    a.count * b.total >= b.count * a.total
}

/// Sorted by score descending.
pub open spec fn sorted_desc(s: Seq<Match>) -> bool {
    forall|i: int, j: int| 0 <= i < j < s.len() ==> score_ge(#[trigger] s[i], #[trigger] s[j])
}

/// The qualifying languages, in table order.
pub open spec fn survivors(
    table: Seq<LanguageEntry>,
    inputs: Seq<CodepointRange>,
    t: Threshold,
) -> Seq<Match>
    decreases table.len(),
{
    if table.len() == 0 {
        Seq::empty()
    } else {
        let rest = survivors(table.drop_last(), inputs, t);
        if qualifies(table.last(), inputs, t) {
            rest.push(match_of(table.last(), inputs))
        } else {
            rest
        }
    }
}

/// Stable insertion: `m` goes after every element whose score is at least as
/// high, so that equal scores keep table order.
pub open spec fn insert_desc(s: Seq<Match>, m: Match) -> Seq<Match>
    decreases s.len(),
{
    if s.len() == 0 {
        seq![m]
    } else if score_ge(s.first(), m) {
        seq![s.first()] + insert_desc(s.drop_first(), m)
    } else {
        seq![m] + s
    }
}

/// Stable insertion sort by score descending.
pub open spec fn sort_desc(s: Seq<Match>) -> Seq<Match>
    decreases s.len(),
{
    if s.len() == 0 {
        Seq::empty()
    } else {
        insert_desc(sort_desc(s.drop_last()), s.last())
    }
}

/// Everything `detect` returns: the qualifying languages, ranked by score
/// descending, ties kept in table order.
pub open spec fn detect_spec(
    table: Seq<LanguageEntry>,
    inputs: Seq<CodepointRange>,
    t: Threshold,
) -> Seq<Match> {
    sort_desc(survivors(table, inputs, t))
}

/// The early-exit scan never counts fewer than zero codepoints nor more than
/// the language's total.
pub proof fn lemma_scan_count_bounds(ranges: Seq<CodepointRange>, input: CodepointRange)
    requires
        ranges_wf(ranges),
        range_wf(input),
    ensures
        0 <= scan_count(ranges, input) <= ranges_total(ranges),
    decreases ranges.len(),
{
    if ranges.len() > 0 {
        lemma_ranges_total_first(ranges);
        lemma_overlap_len_bounds(input, ranges.first());
        lemma_scan_count_bounds(ranges.drop_first(), input);
        if input.upper <= ranges.first().upper {
            lemma_ranges_total_take(ranges.drop_first(), ranges.len() - 1);
            assert(ranges.drop_first().take(ranges.len() - 1) =~= ranges.drop_first());
        }
    }
}

/// The matched count of a whole input is bounded by one language total per
/// input range.
pub proof fn lemma_matched_count_bounds(inputs: Seq<CodepointRange>, ranges: Seq<CodepointRange>)
    requires
        ranges_wf(ranges),
        ranges_wf(inputs),
    ensures
        0 <= matched_count(inputs, ranges) <= inputs.len() * ranges_total(ranges),
    decreases inputs.len(),
{
    if inputs.len() > 0 {
        lemma_matched_count_bounds(inputs.drop_last(), ranges);
        lemma_scan_count_bounds(ranges, inputs.last());
        assert((inputs.len() - 1) * ranges_total(ranges) + ranges_total(ranges) == inputs.len()
            * ranges_total(ranges)) by (nonlinear_arith);
    }
}

/// Score comparison is total.
pub proof fn lemma_score_ge_total(a: Match, b: Match)
    ensures
        score_ge(a, b) || score_ge(b, a),
{
}

/// Score comparison is transitive when the denominators are positive.
pub proof fn lemma_score_ge_trans(a: Match, b: Match, c: Match)
    requires
        score_ge(a, b),
        score_ge(b, c),
        match_wf(a),
        match_wf(b),
        match_wf(c),
    ensures
        score_ge(a, c),
{
    assert(a.count * c.total >= c.count * a.total) by (nonlinear_arith)
        requires
            a.count * b.total >= b.count * a.total,
            b.count * c.total >= c.count * b.total,
            a.total > 0,
            b.total > 0,
            c.total > 0,
            a.count >= 0,
            b.count >= 0,
            c.count >= 0,
    ;
}

/// Inserting adds exactly the new element.
pub proof fn lemma_insert_desc_multiset(s: Seq<Match>, m: Match)
    ensures
        insert_desc(s, m).len() == s.len() + 1,
        insert_desc(s, m).to_multiset() == s.to_multiset().insert(m),
    decreases s.len(),
{
    broadcast use vstd::seq_lib::group_to_multiset_ensures;
    broadcast use vstd::multiset::group_multiset_axioms;

    if s.len() == 0 {
        assert(seq![m] =~= Seq::<Match>::empty().push(m));
        assert(insert_desc(s, m).to_multiset() =~= s.to_multiset().insert(m));
    } else if score_ge(s.first(), m) {
        lemma_insert_desc_multiset(s.drop_first(), m);
        vstd::seq_lib::lemma_multiset_commutative(seq![s.first()], insert_desc(s.drop_first(), m));
        assert(s =~= seq![s.first()] + s.drop_first());
        vstd::seq_lib::lemma_multiset_commutative(seq![s.first()], s.drop_first());
        assert(insert_desc(s, m).to_multiset() =~= s.to_multiset().insert(m));
    } else {
        vstd::seq_lib::lemma_multiset_commutative(seq![m], s);
        assert(seq![m] =~= Seq::<Match>::empty().push(m));
        assert(insert_desc(s, m).to_multiset() =~= s.to_multiset().insert(m));
    }
}

/// The elements after an insertion are the old ones and the new one.
pub proof fn lemma_insert_desc_contains(s: Seq<Match>, m: Match)
    ensures
        insert_desc(s, m).len() == s.len() + 1,
        forall|x: Match| #[trigger] insert_desc(s, m).contains(x) <==> (s.contains(x) || x == m),
{
    broadcast use vstd::seq_lib::group_to_multiset_ensures;
    broadcast use vstd::multiset::group_multiset_axioms;

    lemma_insert_desc_multiset(s, m);
    assert forall|x: Match| #[trigger] insert_desc(s, m).contains(x) <==> (s.contains(x) || x
        == m) by {
        assert(insert_desc(s, m).to_multiset().count(x) == s.to_multiset().insert(m).count(x));
    }
}

/// Inserting into a sorted sequence keeps it sorted.
pub proof fn lemma_insert_desc_sorted(s: Seq<Match>, m: Match)
    requires
        sorted_desc(s),
        matches_wf(s),
        match_wf(m),
    ensures
        sorted_desc(insert_desc(s, m)),
        matches_wf(insert_desc(s, m)),
    decreases s.len(),
{
    lemma_insert_desc_contains(s, m);
    let r = insert_desc(s, m);
    if s.len() == 0 {
    } else if score_ge(s.first(), m) {
        assert(sorted_desc(s.drop_first())) by {
            assert forall|i: int, j: int|
                0 <= i < j < s.drop_first().len() implies score_ge(
                #[trigger] s.drop_first()[i],
                #[trigger] s.drop_first()[j],
            ) by {
                assert(s.drop_first()[i] == s[i + 1]);
                assert(s.drop_first()[j] == s[j + 1]);
            }
        }
        lemma_insert_desc_sorted(s.drop_first(), m);
        lemma_insert_desc_contains(s.drop_first(), m);
        let rest = insert_desc(s.drop_first(), m);
        assert(r[0] == s.first());
        assert forall|j: int| 1 <= j < r.len() implies score_ge(r[0], #[trigger] r[j]) by {
            assert(r[j] == rest[j - 1]);
            assert(rest.contains(rest[j - 1]));
            if s.drop_first().contains(rest[j - 1]) {
                let k = choose|k: int|
                    0 <= k < s.drop_first().len() && s.drop_first()[k] == rest[j - 1];
                assert(s[k + 1] == rest[j - 1]);
                assert(score_ge(s[0], s[k + 1]));
            } else {
                assert(rest[j - 1] == m);
            }
        }
        assert forall|i: int, j: int| 0 <= i < j < r.len() implies score_ge(
            #[trigger] r[i],
            #[trigger] r[j],
        ) by {
            if i > 0 {
                assert(r[i] == rest[i - 1] && r[j] == rest[j - 1]);
            }
        }
        assert forall|i: int| 0 <= i < r.len() implies match_wf(#[trigger] r[i]) by {
            if i > 0 {
                assert(r[i] == rest[i - 1]);
            }
        }
    } else {
        lemma_score_ge_total(s.first(), m);
        assert forall|j: int| 1 <= j < r.len() implies score_ge(r[0], #[trigger] r[j]) by {
            assert(r[j] == s[j - 1]);
            if j > 1 {
                assert(score_ge(s[0], s[j - 1]));
                lemma_score_ge_trans(m, s[0], s[j - 1]);
            }
        }
        assert forall|i: int, j: int| 0 <= i < j < r.len() implies score_ge(
            #[trigger] r[i],
            #[trigger] r[j],
        ) by {
            if i > 0 {
                assert(r[i] == s[i - 1] && r[j] == s[j - 1]);
            }
        }
        assert forall|i: int| 0 <= i < r.len() implies match_wf(#[trigger] r[i]) by {
            if i > 0 {
                assert(r[i] == s[i - 1]);
            }
        }
    }
}

/// Where the stable insertion lands: right after the leading run of elements
/// whose score is at least `m`'s.
pub proof fn lemma_insert_desc_at(s: Seq<Match>, m: Match, pos: int)
    requires
        0 <= pos <= s.len(),
        forall|k: int| 0 <= k < pos ==> score_ge(#[trigger] s[k], m),
        pos == s.len() || !score_ge(s[pos], m),
    ensures
        insert_desc(s, m) =~= s.insert(pos, m),
    decreases s.len(),
{
    s.insert_ensures(pos, m);
    if pos == 0 {
        if s.len() == 0 {
        } else {
            assert(!score_ge(s.first(), m));
        }
    } else {
        assert(score_ge(s.first(), m));
        assert forall|k: int| 0 <= k < pos - 1 implies score_ge(#[trigger] s.drop_first()[k], m) by {
            assert(s.drop_first()[k] == s[k + 1]);
        }
        if pos < s.len() {
            assert(s.drop_first()[pos - 1] == s[pos]);
        }
        lemma_insert_desc_at(s.drop_first(), m, pos - 1);
        s.drop_first().insert_ensures(pos - 1, m);
    }
}

/// `a_num / a_den >= b_num / b_den`, decided by cross multiplication in
/// 128-bit arithmetic, which the operands cannot overflow.
fn frac_ge(a_num: u64, a_den: u32, b_num: u64, b_den: u32) -> (r: bool)
    ensures
        r == ((a_num as int) * (b_den as int) >= (b_num as int) * (a_den as int)),
{
    proof {
        assert((a_num as int) * (b_den as int) < 0x1000000000000000000000000) by (nonlinear_arith)
            requires
                0 <= (a_num as int) && (a_num as int) < 0x10000000000000000,
                0 <= (b_den as int) && (b_den as int) < 0x100000000,
        ;
        assert((b_num as int) * (a_den as int) < 0x1000000000000000000000000) by (nonlinear_arith)
            requires
                0 <= (b_num as int) && (b_num as int) < 0x10000000000000000,
                0 <= (a_den as int) && (a_den as int) < 0x100000000,
        ;
    }
    (a_num as u128) * (b_den as u128) >= (b_num as u128) * (a_den as u128)
}

/// A match's count fits in 64 bits whenever the input list fits in 32.
pub proof fn lemma_matched_count_fits(e: LanguageEntry, inputs: Seq<CodepointRange>)
    requires
        entry_wf(e),
        ranges_wf(inputs),
        inputs.len() <= u32::MAX,
    ensures
        0 <= matched_count(inputs, e.ranges@) <= (u32::MAX as int) * (u32::MAX as int),
{
    lemma_matched_count_bounds(inputs, e.ranges@);
    assert(inputs.len() * ranges_total(e.ranges@) <= (u32::MAX as int) * (u32::MAX as int))
        by (nonlinear_arith)
        requires
            0 <= inputs.len() <= u32::MAX as int,
            0 <= ranges_total(e.ranges@) <= u32::MAX as int,
    ;
}

/// With no input there are no survivors, whatever the threshold.
pub proof fn lemma_survivors_empty_inputs(
    table: Seq<LanguageEntry>,
    inputs: Seq<CodepointRange>,
    t: Threshold,
)
    requires
        inputs.len() == 0,
    ensures
        survivors(table, inputs, t).len() == 0,
    decreases table.len(),
{
    if table.len() > 0 {
        lemma_survivors_empty_inputs(table.drop_last(), inputs, t);
        assert(matched_count(inputs, table.last().ranges@) == 0);
    }
}

/// Detects language support in a font given a list of Unicode codepoint
/// ranges.
///
/// For each compiled language the engine counts exactly how many of its
/// codepoints the input covers, then reports every language with a positive
/// count whose score `count / total` reaches the threshold (inclusively),
/// ranked by score descending; equal scores keep table order.
///
/// The input ranges should be sorted ascending and non-overlapping. That is a
/// caller contract about result quality, not a machine-checked precondition:
/// the result is pinned by [`detect_spec`] for every well-formed input, but
/// overlapping input ranges make the counts overshoot what the font covers.
#[verifier::loop_isolation(false)]
pub fn detect(
    table: &Vec<LanguageEntry>,
    codepoints: &Vec<CodepointRange>,
    threshold: Threshold,
) -> (result: Vec<Match>)
    requires
        table_wf(table@),
        ranges_wf(codepoints@),
        codepoints@.len() <= u32::MAX,
        threshold.wf(),
    ensures
        result@ == detect_spec(table@, codepoints@, threshold),
        sorted_desc(result@),
        forall|p: int|
            0 <= p < result@.len() ==> match_wf(#[trigger] result@[p]) && result@[p].count > 0
                && meets_threshold(result@[p].count as int, result@[p].total as int, threshold),
        forall|i: int|
            0 <= i < table@.len() && qualifies(#[trigger] table@[i], codepoints@, threshold)
                ==> result@.contains(match_of(table@[i], codepoints@)),
        codepoints@.len() == 0 ==> result@.len() == 0,
{
    let ghost bound: int = (u32::MAX as int) * (u32::MAX as int);
    let table_len = table.len();
    let mut counts: Vec<u64> = Vec::new();
    let mut z: usize = 0;
    while z < table_len
        invariant
            z <= table_len,
            counts@.len() == z,
            forall|i: int| 0 <= i < z ==> counts@[i] == 0,
        decreases table_len - z,
    {
        counts.push(0);
        z = z + 1;
    }

    let mut k: usize = 0;
    while k < codepoints.len()
        invariant
            k <= codepoints@.len(),
            counts@.len() == table@.len(),
            forall|i: int|
                0 <= i < table@.len() ==> counts@[i] as int == matched_count(
                    codepoints@.take(k as int),
                    (#[trigger] table@[i]).ranges@,
                ),
        decreases codepoints@.len() - k,
    {
        let input = codepoints[k];
        proof {
            assert(codepoints@.take(k as int + 1).drop_last() =~= codepoints@.take(k as int));
            assert(ranges_wf(codepoints@.take(k as int))) by {
                assert(forall|p: int|
                    0 <= p < k ==> codepoints@.take(k as int)[p] == #[trigger] codepoints@[p]);
            }
        }
        let mut i: usize = 0;
        while i < table_len
            invariant
                i <= table_len,
                counts@.len() == table@.len(),
                forall|q: int|
                    0 <= q < i ==> counts@[q] as int == matched_count(
                        codepoints@.take(k as int + 1),
                        (#[trigger] table@[q]).ranges@,
                    ),
                forall|q: int|
                    i <= q < table@.len() ==> counts@[q] as int == matched_count(
                        codepoints@.take(k as int),
                        (#[trigger] table@[q]).ranges@,
                    ),
            decreases table_len - i,
        {
            let ghost ranges = table@[i as int].ranges@;
            let ghost before = counts@[i as int] as int;
            proof {
                assert(entry_wf(table@[i as int]));
                lemma_scan_count_bounds(ranges, input);
                lemma_matched_count_bounds(codepoints@.take(k as int), ranges);
                assert((k as int) * ranges_total(ranges) + ranges_total(ranges) <= bound)
                    by (nonlinear_arith)
                    requires
                        0 <= k as int <= u32::MAX as int - 1,
                        0 <= ranges_total(ranges) <= u32::MAX as int,
                        bound == (u32::MAX as int) * (u32::MAX as int),
                ;
            }
            proof {
                assert(ranges.skip(0) =~= ranges);
            }
            let entry = &table[i];
            let rl = entry.ranges.len();
            let mut acc: u64 = counts[i];
            let mut j: usize = 0;
            #[verifier::loop_isolation(true)]
            while j < rl
                invariant_except_break
                    j <= rl,
                    entry.ranges@ == ranges,
                    rl == ranges.len(),
                    ranges_wf(ranges),
                    range_wf(input),
                    0 <= before,
                    before + scan_count(ranges, input) <= (u32::MAX as int) * (u32::MAX as int),
                    acc as int == before + scan_count(ranges, input) - scan_count(
                        ranges.skip(j as int),
                        input,
                    ),
                ensures
                    acc as int == before + scan_count(ranges, input),
                decreases rl - j,
            {
                proof {
                    assert(ranges.skip(j as int).first() == ranges[j as int]);
                    assert(ranges.skip(j as int).drop_first() =~= ranges.skip(j as int + 1));
                    assert(ranges_wf(ranges.skip(j as int + 1))) by {
                        assert(forall|p: int|
                            0 <= p < ranges.len() - j - 1 ==> ranges.skip(j as int + 1)[p]
                                == #[trigger] ranges[p + j + 1]);
                    }
                    lemma_scan_count_bounds(ranges.skip(j as int + 1), input);
                    lemma_overlap_len_bounds(input, ranges[j as int]);
                }
                let r = entry.ranges[j];
                if input.lower <= r.upper && r.lower <= input.upper {
                    let lo = if input.lower >= r.lower {
                        input.lower
                    } else {
                        r.lower
                    };
                    let hi = if input.upper <= r.upper {
                        input.upper
                    } else {
                        r.upper
                    };
                    acc = acc + ((hi - lo) as u64 + 1);
                }
                if input.upper <= r.upper {
                    break ;
                }
                j = j + 1;
            }
            counts.set(i, acc);
            proof {
                assert(codepoints@.take(k as int + 1).last() == codepoints@[k as int]);
            }
            i = i + 1;
        }
        k = k + 1;
    }
    proof {
        assert(codepoints@.take(codepoints@.len() as int) =~= codepoints@);
    }

    let mut result: Vec<Match> = Vec::new();
    let mut i: usize = 0;
    while i < table_len
        invariant
            i <= table_len,
            counts@.len() == table@.len(),
            forall|q: int|
                0 <= q < table@.len() ==> counts@[q] as int == matched_count(
                    codepoints@,
                    (#[trigger] table@[q]).ranges@,
                ),
            result@ == sort_desc(survivors(table@.take(i as int), codepoints@, threshold)),
            sorted_desc(result@),
            matches_wf(result@),
            forall|p: int|
                0 <= p < result@.len() ==> (#[trigger] result@[p]).count > 0 && meets_threshold(
                    result@[p].count as int,
                    result@[p].total as int,
                    threshold,
                ),
            forall|q: int|
                0 <= q < i && qualifies(#[trigger] table@[q], codepoints@, threshold)
                    ==> result@.contains(match_of(table@[q], codepoints@)),
        decreases table_len - i,
    {
        proof {
            assert(table@.take(i as int + 1).drop_last() =~= table@.take(i as int));
            assert(table@.take(i as int + 1).last() == table@[i as int]);
            assert(entry_wf(table@[i as int]));
            lemma_matched_count_fits(table@[i as int], codepoints@);
        }
        let entry = &table[i];
        let c = counts[i];
        let hit = c > 0 && frac_ge(c, entry.total, threshold.num as u64, threshold.den);
        proof {
            assert(hit == qualifies(table@[i as int], codepoints@, threshold));
        }
        if hit {
            let m = Match {
                code: entry.identifier.clone(),
                name: entry.display_name.clone(),
                native: entry.native_name.clone(),
                count: c,
                total: entry.total,
            };
            proof {
                assert(m == match_of(table@[i as int], codepoints@));
            }
            let mut pos: usize = 0;
            while pos < result.len() && frac_ge(result[pos].count, result[pos].total, m.count, m.total)
                invariant
                    pos <= result@.len(),
                    forall|q: int| 0 <= q < pos ==> score_ge(#[trigger] result@[q], m),
                decreases result@.len() - pos,
            {
                pos = pos + 1;
            }
            proof {
                lemma_insert_desc_at(result@, m, pos as int);
                lemma_insert_desc_sorted(result@, m);
                lemma_insert_desc_contains(result@, m);
                result@.insert_ensures(pos as int, m);
            }
            let ghost old_result = result@;
            result.insert(pos, m);
            proof {
                assert(result@ == insert_desc(old_result, m));
                assert(survivors(table@.take(i as int + 1), codepoints@, threshold) == survivors(
                    table@.take(i as int),
                    codepoints@,
                    threshold,
                ).push(m));
                assert(survivors(table@.take(i as int + 1), codepoints@, threshold).drop_last()
                    =~= survivors(table@.take(i as int), codepoints@, threshold));
                assert forall|p: int| 0 <= p < result@.len() implies (#[trigger] result@[p]).count
                    > 0 && meets_threshold(
                    result@[p].count as int,
                    result@[p].total as int,
                    threshold,
                ) by {
                    if p < pos {
                        assert(result@[p] == old_result[p]);
                    } else if p == pos {
                        assert(result@[p] == m);
                    } else {
                        assert(result@[p] == old_result[p - 1]);
                    }
                }
                assert forall|q: int|
                    0 <= q < i as int + 1 && qualifies(
                        #[trigger] table@[q],
                        codepoints@,
                        threshold,
                    ) implies result@.contains(match_of(table@[q], codepoints@)) by {
                    if q < i as int {
                        assert(old_result.contains(match_of(table@[q], codepoints@)));
                    } else {
                        assert(result@.contains(m));
                    }
                }
            }
        } else {
            proof {
                assert(survivors(table@.take(i as int + 1), codepoints@, threshold) == survivors(
                    table@.take(i as int),
                    codepoints@,
                    threshold,
                ));
            }
        }
        i = i + 1;
    }
    proof {
        assert(table@.take(table@.len() as int) =~= table@);
        if codepoints@.len() == 0 {
            lemma_survivors_empty_inputs(table@, codepoints@, threshold);
        }
    }
    result
}

} // verus!
