//! The data compiler: turns raw per-language codepoint specifications into
//! the validated, sorted, size-annotated table the detection engine consumes.

use crate::range::{
    lemma_ranges_total_permutation, lemma_ranges_total_take, range_wf, ranges_total, ranges_wf,
    sorted_by_lower, CodepointRange,
};
use vstd::prelude::*;

verus! {

/// A raw per-language specification, as handed over by the collaborator that
/// discovered and decoded the language data. Each codepoint token is either a
/// single non-negative integer (`"64"`) or an inclusive range (`"64..127"`).
#[derive(Clone, Debug)]
pub struct LanguageSpec {
    /// Stable short code for the language, derived from the record's source key.
    pub identifier: String,
    /// Anglicized display name.
    pub anglicized_name: String,
    /// Name in the language's own script.
    pub native_name: String,
    /// Codepoint tokens, each `"n"` or `"a..b"`.
    pub codepoints: Vec<String>,
}

/// One compiled language: its names, its ranges sorted ascending by lower
/// bound, and the total number of codepoints those ranges cover.
#[derive(Clone, Debug)]
pub struct LanguageEntry {
    pub identifier: String,
    pub display_name: String,
    pub native_name: String,
    /// Sorted ascending by lower bound; overlaps within one language are
    /// tolerated and kept as authored, not deduplicated.
    pub ranges: Vec<CodepointRange>,
    /// Sum of the lengths of `ranges` — the denominator for scoring.
    pub total: u32,
}

/// Why table construction failed. Any failure is fatal: no partial table is
/// ever produced.
#[derive(Clone, Copy, Debug, PartialEq, Eq, Structural)]
pub enum CompileError {
    /// A codepoint token is not a valid integer or inclusive range.
    MalformedRange,
    /// A language covers zero codepoints.
    EmptyLanguage,
    /// A language's total codepoint count does not fit in 32 bits.
    TotalOverflow,
}

/// The invariant every compiled entry satisfies.
pub open spec fn entry_wf(e: LanguageEntry) -> bool {
    &&& e.total > 0
    &&& e.total == ranges_total(e.ranges@)
    &&& ranges_wf(e.ranges@)
    &&& sorted_by_lower(e.ranges@)
}

/// The invariant of a whole compiled table.
pub open spec fn table_wf(t: Seq<LanguageEntry>) -> bool {
    forall|i: int| 0 <= i < t.len() ==> entry_wf(#[trigger] t[i])
}

/// An ASCII decimal digit.
pub open spec fn is_digit(c: char) -> bool {
    48 <= c as u32 && c as u32 <= 57
}

pub open spec fn all_digits(s: Seq<char>) -> bool {
    forall|i: int| 0 <= i < s.len() ==> is_digit(#[trigger] s[i])
}

/// The number the digit string denotes, most significant digit first.
pub open spec fn digits_value(s: Seq<char>) -> int
    decreases s.len(),
{
    if s.len() == 0 {
        0
    } else {
        digits_value(s.drop_last()) * 10 + (s.last() as u32 - 48)
    }
}

/// A valid codepoint literal: non-empty, digits only, and within 32 bits.
pub open spec fn is_codepoint_text(s: Seq<char>) -> bool {
    s.len() > 0 && all_digits(s) && digits_value(s) <= u32::MAX
}

pub proof fn lemma_digits_value_nonneg(s: Seq<char>)
    requires
        all_digits(s),
    ensures
        digits_value(s) >= 0,
    decreases s.len(),
{
    if s.len() > 0 {
        assert(all_digits(s.drop_last())) by {
            assert(forall|i: int|
                0 <= i < s.len() - 1 ==> s.drop_last()[i] == #[trigger] s[i]);
        }
        lemma_digits_value_nonneg(s.drop_last());
    }
}

/// A digit string is worth at least any of its prefixes.
pub proof fn lemma_digits_value_take(s: Seq<char>, j: int)
    requires
        all_digits(s),
        0 <= j <= s.len(),
    ensures
        digits_value(s.take(j)) <= digits_value(s),
    decreases s.len(),
{
    if j == s.len() {
        assert(s.take(j) =~= s);
    } else {
        assert(all_digits(s.drop_last())) by {
            assert(forall|i: int|
                0 <= i < s.len() - 1 ==> s.drop_last()[i] == #[trigger] s[i]);
        }
        assert(s.drop_last().take(j) =~= s.take(j));
        lemma_digits_value_take(s.drop_last(), j);
        lemma_digits_value_nonneg(s.drop_last());
    }
}

/// Whether positions `i` and `i + 1` hold the range separator `".."`.
pub open spec fn sep_at(s: Seq<char>, i: int) -> bool {
    0 <= i && i + 2 <= s.len() && s[i] as u32 == 46 && (s[i + 1] as u32) == 46
}

/// Index of the first `".."` in the token, or -1 if there is none.
pub open spec fn sep_pos(s: Seq<char>) -> int
    decreases s.len(),
{
    if s.len() < 2 {
        -1
    } else if sep_at(s, 0) {
        0
    } else {
        let p = sep_pos(s.drop_first());
        if p < 0 {
            -1
        } else {
            p + 1
        }
    }
}

/// `sep_pos` really is the first separator position.
pub proof fn lemma_sep_pos_spec(s: Seq<char>)
    ensures
        sep_pos(s) == -1 ==> forall|k: int| !sep_at(s, k),
        sep_pos(s) >= 0 ==> sep_at(s, sep_pos(s)) && (forall|k: int|
            0 <= k < sep_pos(s) ==> !sep_at(s, k)),
    decreases s.len(),
{
    if s.len() < 2 {
    } else if sep_at(s, 0) {
    } else {
        lemma_sep_pos_spec(s.drop_first());
        assert forall|k: int| 1 <= k && k + 2 <= s.len() implies (sep_at(s, k) <==> sep_at(
            s.drop_first(),
            k - 1,
        )) by {
            assert(s.drop_first()[k - 1] == s[k]);
            assert(s.drop_first()[k] == s[k + 1]);
        }
        if sep_pos(s) == -1 {
            assert forall|k: int| !sep_at(s, k) by {
                if 1 <= k && k + 2 <= s.len() {
                    assert(!sep_at(s.drop_first(), k - 1));
                }
            }
        } else {
            assert(sep_at(s.drop_first(), sep_pos(s) - 1));
            assert forall|k: int| 0 <= k < sep_pos(s) implies !sep_at(s, k) by {
                if k >= 1 {
                    assert(!sep_at(s.drop_first(), k - 1));
                }
            }
        }
    }
}

/// The bounds named by a range token: the digits before and after the first
/// separator, or the whole token twice for a single-codepoint token.
pub open spec fn token_bounds(s: Seq<char>) -> (Seq<char>, Seq<char>) {
    if sep_pos(s) >= 0 {
        (s.take(sep_pos(s)), s.skip(sep_pos(s) + 2))
    } else {
        (s, s)
    }
}

/// A valid token: either a single codepoint literal, or two of them joined by
/// `".."` with the lower one first.
pub open spec fn token_ok(s: Seq<char>) -> bool {
    is_codepoint_text(token_bounds(s).0) && is_codepoint_text(token_bounds(s).1) && digits_value(
        token_bounds(s).0,
    ) <= digits_value(token_bounds(s).1)
}

/// The range a valid token denotes.
pub open spec fn token_range(s: Seq<char>) -> CodepointRange {
    CodepointRange {
        lower: digits_value(token_bounds(s).0) as u32,
        upper: digits_value(token_bounds(s).1) as u32,
    }
}

/// Reads the decimal number written in `s` between the character positions
/// `from` and `to`, or `None` if that slice is not a codepoint literal.
fn parse_decimal(s: &str, from: usize, to: usize) -> (r: Option<u32>)
    requires
        from <= to && to <= s@.len(),
    ensures
        match r {
            Some(v) => is_codepoint_text(s@.subrange(from as int, to as int)) && v as int
                == digits_value(s@.subrange(from as int, to as int)),
            None => !is_codepoint_text(s@.subrange(from as int, to as int)),
        },
{
    let ghost sub = s@.subrange(from as int, to as int);
    if from == to {
        return None;
    }
    let mut i = from;
    let mut acc: u32 = 0;
    while i < to
        invariant
            from <= i <= to && to <= s@.len(),
            sub == s@.subrange(from as int, to as int),
            all_digits(sub.take(i - from)),
            acc as int == digits_value(sub.take(i - from)),
        decreases to - i,
    {
        let c = s.get_char(i);
        proof {
            assert(sub[i - from] == s@[i as int]);
        }
        if (c as u32) < 48 || (c as u32) > 57 {
            proof {
                assert(!is_digit(sub[i - from]));
            }
            return None;
        }
        let d = c as u32 - 48;
        let wide: u64 = acc as u64 * 10 + d as u64;
        proof {
            assert(sub.take(i - from + 1).drop_last() =~= sub.take(i - from));
            assert(sub.take(i - from + 1).last() == sub[i - from]);
            assert(all_digits(sub.take(i - from + 1)));
            assert(wide as int == digits_value(sub.take(i - from + 1)));
        }
        if wide > u32::MAX as u64 {
            proof {
                if all_digits(sub) {
                    lemma_digits_value_take(sub, i - from + 1);
                }
            }
            return None;
        }
        acc = wide as u32;
        i = i + 1;
    }
    proof {
        assert(sub.take(to - from) =~= sub);
    }
    Some(acc)
}

/// Parses one codepoint token: a single integer (`"64"`) or an inclusive
/// range (`"64..127"`). Any other shape — a non-numeric bound, a bound over
/// 32 bits, or a lower bound above the upper — is a malformed range.
pub fn parse_token(s: &str) -> (r: Result<CodepointRange, CompileError>)
    ensures
        match r {
            Ok(cr) => token_ok(s@) && cr == token_range(s@) && range_wf(cr),
            Err(e) => !token_ok(s@) && e == CompileError::MalformedRange,
        },
{
    let n = s.unicode_len();
    let mut sep: Option<usize> = None;
    if n >= 2 {
        let mut p: usize = 0;
        #[verifier::loop_isolation(true)]
        while p + 1 < n
            invariant_except_break
                p + 1 <= n,
                n == s@.len(),
                sep is None,
                forall|k: int| 0 <= k < p ==> !sep_at(s@, k),
            ensures
                match sep {
                    Some(q) => sep_at(s@, q as int) && (forall|k: int|
                        0 <= k < q ==> !sep_at(s@, k)),
                    None => forall|k: int| !sep_at(s@, k),
                },
            decreases n - p,
        {
            let c1 = s.get_char(p);
            let c2 = s.get_char(p + 1);
            if c1 as u32 == 46 && c2 as u32 == 46 {
                sep = Some(p);
                break ;
            }
            p = p + 1;
        }
    }
    proof {
        lemma_sep_pos_spec(s@);
    }
    match sep {
        Some(q) => {
            proof {
                assert(sep_pos(s@) == q);
                assert(s@.subrange(0, q as int) =~= s@.take(q as int));
                assert(s@.subrange(q as int + 2, s@.len() as int) =~= s@.skip(q as int + 2));
            }
            let lo = match parse_decimal(s, 0, q) {
                Some(v) => v,
                None => {
                    return Err(CompileError::MalformedRange);
                },
            };
            let hi = match parse_decimal(s, q + 2, n) {
                Some(v) => v,
                None => {
                    return Err(CompileError::MalformedRange);
                },
            };
            if lo > hi {
                return Err(CompileError::MalformedRange);
            }
            Ok(CodepointRange { lower: lo, upper: hi })
        },
        None => {
            proof {
                assert(sep_pos(s@) < 0) by {
                    if sep_pos(s@) >= 0 {
                        assert(sep_at(s@, sep_pos(s@)));
                    }
                }
                assert(s@.subrange(0, n as int) =~= s@);
            }
            match parse_decimal(s, 0, n) {
                Some(v) => Ok(CodepointRange { lower: v, upper: v }),
                None => Err(CompileError::MalformedRange),
            }
        },
    }
}

/// All of a specification's tokens are valid.
pub open spec fn spec_tokens_ok(sp: LanguageSpec) -> bool {
    forall|i: int| 0 <= i < sp.codepoints@.len() ==> token_ok((#[trigger] sp.codepoints@[i])@)
}

/// The ranges a specification's tokens denote, in authored order.
pub open spec fn parsed_ranges(sp: LanguageSpec) -> Seq<CodepointRange> {
    Seq::new(sp.codepoints@.len(), |i: int| token_range(sp.codepoints@[i]@))
}

/// The language's total codepoint count, as authored (no deduplication).
pub open spec fn language_total(sp: LanguageSpec) -> int {
    ranges_total(parsed_ranges(sp))
}

/// A specification compiles iff its tokens are valid and its total is
/// positive and fits in 32 bits.
pub open spec fn spec_ok(sp: LanguageSpec) -> bool {
    spec_tokens_ok(sp) && 0 < language_total(sp) <= u32::MAX
}

/// The error a failing specification is charged with: malformed tokens are
/// found before the total is considered.
pub open spec fn spec_error(sp: LanguageSpec) -> CompileError {
    if !spec_tokens_ok(sp) {
        CompileError::MalformedRange
    } else if language_total(sp) > u32::MAX {
        CompileError::TotalOverflow
    } else {
        CompileError::EmptyLanguage
    }
}

/// How a compiled entry relates to the specification it came from.
pub open spec fn entry_matches(e: LanguageEntry, sp: LanguageSpec) -> bool {
    &&& e.identifier == sp.identifier
    &&& e.display_name == sp.anglicized_name
    &&& e.native_name == sp.native_name
    &&& e.ranges@.to_multiset() == parsed_ranges(sp).to_multiset()
    &&& sorted_by_lower(e.ranges@)
    &&& e.total as int == language_total(sp)
}

/// Compilation stopped at specification `i`, the first one that fails.
pub open spec fn compile_fails_at(specs: Seq<LanguageSpec>, i: int, e: CompileError) -> bool {
    &&& 0 <= i < specs.len()
    &&& !spec_ok(specs[i])
    &&& e == spec_error(specs[i])
    &&& forall|k: int| 0 <= k < i ==> spec_ok(#[trigger] specs[k])
}

/// Sorts ranges ascending by lower bound, keeping equal lower bounds in
/// their authored order.
#[verifier::loop_isolation(false)]
fn sort_ranges(v: Vec<CodepointRange>) -> (r: Vec<CodepointRange>)
    requires
        ranges_wf(v@),
    ensures
        sorted_by_lower(r@),
        ranges_wf(r@),
        r@.to_multiset() == v@.to_multiset(),
{
    broadcast use vstd::seq_lib::group_to_multiset_ensures;
    broadcast use vstd::multiset::group_multiset_axioms;

    let mut out: Vec<CodepointRange> = Vec::new();
    let mut k: usize = 0;
    while k < v.len()
        invariant
            k <= v@.len(),
            sorted_by_lower(out@),
            ranges_wf(out@),
            out@.to_multiset() == v@.take(k as int).to_multiset(),
        decreases v@.len() - k,
    {
        let x = v[k];
        let mut pos: usize = 0;
        while pos < out.len() && out[pos].lower <= x.lower
            invariant
                pos <= out@.len(),
                forall|q: int| 0 <= q < pos ==> (#[trigger] out@[q]).lower <= x.lower,
            decreases out@.len() - pos,
        {
            pos = pos + 1;
        }
        let ghost old_out = out@;
        proof {
            old_out.insert_ensures(pos as int, x);
            assert(old_out =~= old_out.subrange(0, pos as int) + old_out.subrange(
                pos as int,
                old_out.len() as int,
            ));
            vstd::seq_lib::lemma_multiset_commutative(
                old_out.subrange(0, pos as int),
                old_out.subrange(pos as int, old_out.len() as int),
            );
            vstd::seq_lib::lemma_multiset_commutative(
                old_out.subrange(0, pos as int).push(x),
                old_out.subrange(pos as int, old_out.len() as int),
            );
            assert(old_out.insert(pos as int, x).to_multiset() =~= old_out.to_multiset().insert(
                x,
            ));
            assert(v@.take(k as int + 1).drop_last() =~= v@.take(k as int));
            assert(v@.take(k as int + 1) =~= v@.take(k as int).push(x));
        }
        out.insert(pos, x);
        proof {
            assert forall|i: int, j: int| 0 <= i < j < out@.len() implies (
            #[trigger] out@[i]).lower <= (#[trigger] out@[j]).lower by {
                if j < pos {
                } else if i < pos && j == pos {
                    assert(out@[j] == x);
                } else if i < pos && j > pos {
                    assert(out@[j] == old_out[j - 1]);
                    if j - 1 == i {
                        assert(old_out[i].lower > x.lower || i < pos);
                    }
                } else if i == pos {
                    assert(out@[i] == x);
                    assert(out@[j] == old_out[j - 1]);
                    assert(j - 1 >= pos);
                    if j - 1 > pos {
                        assert(old_out[pos as int].lower <= old_out[j - 1].lower);
                    }
                } else {
                    assert(out@[i] == old_out[i - 1] && out@[j] == old_out[j - 1]);
                }
            }
            assert forall|i: int| 0 <= i < out@.len() implies range_wf(#[trigger] out@[i]) by {
                if i < pos {
                    assert(out@[i] == old_out[i]);
                } else if i == pos {
                    assert(out@[i] == x);
                } else {
                    assert(out@[i] == old_out[i - 1]);
                }
            }
        }
        k = k + 1;
    }
    proof {
        assert(v@.take(v@.len() as int) =~= v@);
    }
    out
}

/// Builds the language table: parses every token, sorts each language's
/// ranges ascending by lower bound, and computes each total. Any malformed
/// token, any zero total and any total over 32 bits is fatal: no partial
/// table is ever returned.
#[verifier::loop_isolation(false)]
pub fn compile(specs: &Vec<LanguageSpec>) -> (r: Result<Vec<LanguageEntry>, CompileError>)
    ensures
        (r is Ok) <==> (forall|i: int| 0 <= i < specs@.len() ==> spec_ok(#[trigger] specs@[i])),
        r matches Ok(table) ==> table@.len() == specs@.len() && table_wf(table@) && (forall|i: int|
            0 <= i < specs@.len() ==> entry_matches(#[trigger] table@[i], specs@[i])),
        r matches Err(e) ==> exists|i: int| compile_fails_at(specs@, i, e),
{
    let mut table: Vec<LanguageEntry> = Vec::new();
    let mut si: usize = 0;
    while si < specs.len()
        invariant
            si <= specs@.len(),
            table@.len() == si,
            forall|i: int| 0 <= i < si ==> spec_ok(#[trigger] specs@[i]),
            forall|i: int|
                0 <= i < si ==> entry_matches(#[trigger] table@[i], specs@[i]) && entry_wf(
                    table@[i],
                ),
        decreases specs@.len() - si,
    {
        let sp = &specs[si];
        let mut parsed: Vec<CodepointRange> = Vec::new();
        let mut ti: usize = 0;
        while ti < sp.codepoints.len()
            invariant
                ti <= sp.codepoints@.len(),
                parsed@.len() == ti,
                forall|i: int|
                    0 <= i < ti ==> token_ok((#[trigger] sp.codepoints@[i])@) && parsed@[i]
                        == token_range(sp.codepoints@[i]@) && range_wf(parsed@[i]),
            decreases sp.codepoints@.len() - ti,
        {
            match parse_token(sp.codepoints[ti].as_str()) {
                Ok(cr) => {
                    parsed.push(cr);
                    proof {
                        assert(parsed@[ti as int] == cr);
                        assert(token_ok(sp.codepoints@[ti as int]@));
                        assert(cr == token_range(sp.codepoints@[ti as int]@));
                        assert(forall|i: int|
                            0 <= i < ti + 1 ==> token_ok((#[trigger] sp.codepoints@[i])@));
                        assert(forall|i: int|
                            0 <= i < ti + 1 ==> #[trigger] parsed@[i] == token_range(
                                sp.codepoints@[i]@,
                            ));
                        assert(forall|i: int| 0 <= i < ti + 1 ==> range_wf(#[trigger] parsed@[i]));
                    }
                },
                Err(e) => {
                    proof {
                        assert(!spec_tokens_ok(specs@[si as int]));
                        assert(compile_fails_at(specs@, si as int, CompileError::MalformedRange));
                    }
                    return Err(e);
                },
            }
            ti = ti + 1;
        }
        proof {
            assert(parsed@ =~= parsed_ranges(specs@[si as int]));
        }
        let sorted = sort_ranges(parsed);
        let ghost srt = sorted@;
        proof {
            lemma_ranges_total_permutation(srt, parsed_ranges(specs@[si as int]));
        }
        let mut total_acc: u64 = 0;
        let mut j: usize = 0;
        while j < sorted.len()
            invariant
                j <= srt.len(),
                sorted@ == srt,
                total_acc as int == ranges_total(srt.take(j as int)),
                total_acc <= u32::MAX,
            decreases srt.len() - j,
        {
            let rg = sorted[j];
            proof {
                assert(srt.take(j as int + 1).drop_last() =~= srt.take(j as int));
                assert(srt.take(j as int + 1).last() == srt[j as int]);
            }
            total_acc = total_acc + ((rg.upper - rg.lower) as u64 + 1);
            if total_acc > u32::MAX as u64 {
                proof {
                    lemma_ranges_total_take(srt, j as int + 1);
                    assert(language_total(specs@[si as int]) > u32::MAX);
                    assert(compile_fails_at(specs@, si as int, CompileError::TotalOverflow));
                }
                return Err(CompileError::TotalOverflow);
            }
            j = j + 1;
        }
        proof {
            assert(srt.take(srt.len() as int) =~= srt);
        }
        if total_acc == 0 {
            proof {
                assert(compile_fails_at(specs@, si as int, CompileError::EmptyLanguage));
            }
            return Err(CompileError::EmptyLanguage);
        }
        let entry = LanguageEntry {
            identifier: sp.identifier.clone(),
            display_name: sp.anglicized_name.clone(),
            native_name: sp.native_name.clone(),
            ranges: sorted,
            total: total_acc as u32,
        };
        proof {
            assert(entry_wf(entry));
            assert(entry_matches(entry, specs@[si as int]));
        }
        table.push(entry);
        si = si + 1;
    }
    Ok(table)
}

} // verus!
