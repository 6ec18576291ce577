//! Per-attribute similarity metrics. Each yields a score between zero and
//! [`SCALE`]; a missing value on either side always scores zero.

use vstd::prelude::*;
use vstd::seq_lib::seq_to_set_is_finite;
use vstd::set_lib::{
    lemma_set_intersect_union_lens, lemma_len_intersect, lemma_len_subset, lemma_subset_equality,
};
use crate::score::{SCALE, HALF};
use crate::movie::{year_of, unsigned_part, parse_year};
use crate::text::{
    token_set, tokens, views, str_equal, split_tokens, count_distinct, count_common,
    lemma_split_nonempty, trimmed, is_digit, is_number, decimal_value, chars_of, trim_range,
    parse_number,
};

verus! {

/// Exact match of two single-valued attributes.
pub open spec fn categorical_exact(a: Seq<char>, b: Seq<char>) -> nat {
    if a.len() == 0 || b.len() == 0 {
        0
    } else if a == b {
        SCALE as nat
    } else {
        0
    }
}

/// The fraction `inter / union` as a score, rounded down, except that a
/// fraction above zero never rounds to zero.
pub open spec fn overlap_ratio(inter: nat, union: nat) -> nat {
    if inter == 0 || union == 0 {
        0
    } else if inter * SCALE < union {
        1
    } else {
        (inter * SCALE / (union as int)) as nat
    }
}

/// Jaccard overlap of the token sets of two multi-valued attributes.
pub open spec fn multi_value_overlap(a: Seq<char>, b: Seq<char>) -> nat {
    if a.len() == 0 || b.len() == 0 {
        0
    } else {
        overlap_ratio(
            token_set(a).intersect(token_set(b)).len(),
            token_set(a).union(token_set(b)).len(),
        )
    }
}

/// Country match: full for equal strings, half where the token sets meet.
pub open spec fn country_similarity(a: Seq<char>, b: Seq<char>) -> nat {
    if a.len() == 0 || b.len() == 0 {
        0
    } else if a == b {
        SCALE as nat
    } else if !token_set(a).disjoint(token_set(b)) {
        HALF as nat
    } else {
        0
    }
}

/// Distance between two years.
pub open spec fn year_gap(y1: u32, y2: u32) -> nat {
    if y1 >= y2 {
        (y1 - y2) as nat
    } else {
        (y2 - y1) as nat
    }
}

/// Proximity of two years; the year 0 means "unknown".
pub open spec fn numeric_proximity(y1: u32, y2: u32) -> nat {
    if y1 == 0 || y2 == 0 {
        0
    } else if year_gap(y1, y2) <= 5 {
        SCALE as nat
    } else if year_gap(y1, y2) <= 10 {
        HALF as nat
    } else {
        0
    }
}

/// The minutes that one season counts for.
pub const SEASON_MINUTES: u64 = 1440;

/// Whether `s` ends in the unit "min".
pub open spec fn ends_in_min(s: Seq<char>) -> bool {
    s.len() >= 3 && s[s.len() - 3] == 'm' && s[s.len() - 2] == 'i' && s[s.len() - 1] == 'n'
}

/// Whether the word "Season" stands in `s` at `at`.
pub open spec fn season_at(s: Seq<char>, at: int) -> bool {
    0 <= at && at + 6 <= s.len() && s[at] == 'S' && s[at + 1] == 'e' && s[at + 2] == 'a' && s[at
        + 3] == 's' && s[at + 4] == 'o' && s[at + 5] == 'n'
}

/// Whether the word "Season" stands somewhere in `s`.
pub open spec fn names_season(s: Seq<char>) -> bool {
    exists|at: int| season_at(s, at)
}

/// Where the run of decimal digits that starts at `from` ends.
pub open spec fn digit_run(s: Seq<char>, from: int) -> int
    decreases s.len() - from,
{
    if 0 <= from < s.len() && is_digit(s[from]) {
        digit_run(s, from + 1)
    } else {
        from
    }
}

/// The length in minutes that a duration writes. "90 min" is ninety minutes:
/// what stands before the unit, trimmed, must be a number. A text that names
/// seasons, such as "2 Seasons", counts each season as a day: the digits it
/// starts with must be a number. Any other text writes no duration.
pub open spec fn duration_minutes(s: Seq<char>) -> Option<nat> {
    if ends_in_min(s) {
        let count = trimmed(s.take(s.len() - 3));
        if is_number(count) {
            Some(decimal_value(count))
        } else {
            None
        }
    } else if names_season(s) {
        let count = s.take(digit_run(s, 0));
        if is_number(count) {
            Some(decimal_value(count) * SEASON_MINUTES as nat)
        } else {
            None
        }
    } else {
        None
    }
}

/// Proximity of two lengths in minutes.
pub open spec fn minutes_proximity(x: nat, y: nat) -> nat {
    let gap = if x >= y {
        x - y
    } else {
        y - x
    };
    if gap <= 30 {
        SCALE as nat
    } else if gap <= 60 {
        HALF as nat
    } else {
        0
    }
}

/// Proximity of two durations; a text that writes no duration matches
/// nothing.
pub open spec fn duration_similarity(a: Seq<char>, b: Seq<char>) -> nat {
    match (duration_minutes(a), duration_minutes(b)) {
        (Some(x), Some(y)) => minutes_proximity(x, y),
        _ => 0,
    }
}

/// The kinds of attribute that can be scored.
#[derive(Clone, Copy, Debug)]
pub enum AttributeKind {
    Type,
    Director,
    Country,
    Year,
    Rating,
    Genres,
    Cast,
    Duration,
}

/// The similarity of two values of one kind of attribute, each given as
/// text. A year is read as by [`year_of`].
pub open spec fn attribute_score(kind: AttributeKind, a: Seq<char>, b: Seq<char>) -> nat {
    match kind {
        AttributeKind::Type => categorical_exact(a, b),
        AttributeKind::Director => categorical_exact(a, b),
        AttributeKind::Country => country_similarity(a, b),
        AttributeKind::Year => numeric_proximity(year_of(a), year_of(b)),
        AttributeKind::Rating => categorical_exact(a, b),
        AttributeKind::Genres => multi_value_overlap(a, b),
        AttributeKind::Cast => multi_value_overlap(a, b),
        AttributeKind::Duration => duration_similarity(a, b),
    }
}

/// Exact match of two single-valued attributes.
fn exact_match(a: &str, b: &str) -> (score: u64)
    ensures
        score == categorical_exact(a@, b@),
        score <= SCALE,
{
    if a.is_empty() || b.is_empty() {
        0
    } else if str_equal(a, b) {
        SCALE
    } else {
        0
    }
}

/// Scores two title types (such as "Movie" and "TV Show").
pub fn analyze_type(type1: &str, type2: &str) -> (score: u64)
    ensures
        score == categorical_exact(type1@, type2@),
        score <= SCALE,
{
    exact_match(type1, type2)
}

/// Scores two director credits.
pub fn analyze_director(director1: &str, director2: &str) -> (score: u64)
    ensures
        score == categorical_exact(director1@, director2@),
        score <= SCALE,
{
    exact_match(director1, director2)
}

/// Scores two audience ratings.
pub fn analyze_rating(rating1: &str, rating2: &str) -> (score: u64)
    ensures
        score == categorical_exact(rating1@, rating2@),
        score <= SCALE,
{
    exact_match(rating1, rating2)
}

/// Scores two country lists.
pub fn analyze_country(country1: &str, country2: &str) -> (score: u64)
    ensures
        score == country_similarity(country1@, country2@),
        score <= SCALE,
{
    if country1.is_empty() || country2.is_empty() {
        0
    } else if str_equal(country1, country2) {
        SCALE
    } else {
        let tokens1 = split_tokens(country1);
        let tokens2 = split_tokens(country2);
        let shared = count_common(&tokens1, &tokens2);
        proof {
            let both = token_set(country1@).intersect(token_set(country2@));
            seq_to_set_is_finite(views(tokens1@));
            assert(both.finite());
            if shared > 0 {
                assert(both.contains(both.choose()));
            } else {
                both.lemma_len0_is_empty();
                assert forall|t: Seq<char>| token_set(country1@).contains(t) implies !token_set(
                    country2@,
                ).contains(t) by {
                    assert(!both.contains(t));
                }
            }
        }
        if shared > 0 {
            HALF
        } else {
            0
        }
    }
}

/// Scores two release years by how close they are.
pub fn analyze_release_year(year1: u32, year2: u32) -> (score: u64)
    ensures
        score == numeric_proximity(year1, year2),
        score <= SCALE,
{
    if year1 == 0 || year2 == 0 {
        0
    } else {
        let diff: u32 = if year1 >= year2 {
            year1 - year2
        } else {
            year2 - year1
        };
        if diff <= 5 {
            SCALE
        } else if diff <= 10 {
            HALF
        } else {
            0
        }
    }
}

/// Scores two genre lists by the Jaccard overlap of their genres.
pub fn analyze_listed_in(genres1: &str, genres2: &str) -> (score: u64)
    ensures
        score == multi_value_overlap(genres1@, genres2@),
        score <= SCALE,
{
    if genres1.is_empty() || genres2.is_empty() {
        0
    } else {
        let tokens1 = split_tokens(genres1);
        let tokens2 = split_tokens(genres2);
        let size1 = count_distinct(&tokens1);
        let size2 = count_distinct(&tokens2);
        let inter = count_common(&tokens1, &tokens2);
        proof {
            seq_to_set_is_finite(views(tokens1@));
            seq_to_set_is_finite(views(tokens2@));
            lemma_set_intersect_union_lens(token_set(genres1@), token_set(genres2@));
            lemma_len_intersect(token_set(genres1@), token_set(genres2@));
            lemma_len_intersect(token_set(genres2@), token_set(genres1@));
            assert(token_set(genres2@).intersect(token_set(genres1@)) =~= token_set(
                genres1@,
            ).intersect(token_set(genres2@)));
        }
        let union: u128 = size1 as u128 + size2 as u128 - inter as u128;
        if inter == 0 || union == 0 {
            0
        } else {
            let scaled: u128 = inter as u128 * SCALE as u128;
            if scaled < union {
                1
            } else {
                assert(scaled / union <= SCALE) by (nonlinear_arith)
                    requires
                        scaled == inter * SCALE,
                        0 < inter <= union,
                ;
                (scaled / union) as u64
            }
        }
    }
}

/// Scores two cast lists by the Jaccard overlap of their names.
pub fn analyze_cast(cast1: &str, cast2: &str) -> (score: u64)
    ensures
        score == multi_value_overlap(cast1@, cast2@),
        score <= SCALE,
{
    analyze_listed_in(cast1, cast2)
}

/// Whether the word "Season" stands somewhere in `s`.
fn mentions_season(s: &Vec<char>) -> (found: bool)
    ensures
        found == names_season(s@),
{
    if s.len() < 6 {
        return false;
    }
    let mut at: usize = 0;
    while at <= s.len() - 6
        invariant
            at <= s.len() - 5,
            s.len() >= 6,
            forall|k: int| 0 <= k < at ==> !season_at(s@, k),
        decreases s.len() - at,
    {
        if s[at] == 'S' && s[at + 1] == 'e' && s[at + 2] == 'a' && s[at + 3] == 's' && s[at + 4]
            == 'o' && s[at + 5] == 'n' {
            assert(season_at(s@, at as int));
            return true;
        }
        at += 1;
    }
    false
}

/// Reads a duration as a length in minutes.
pub fn parse_duration(text: &str) -> (minutes: Option<u64>)
    ensures
        minutes is Some <==> duration_minutes(text@) is Some,
        minutes is Some ==> minutes->0 == duration_minutes(text@)->0,
{
    let chars = chars_of(text);
    let n = chars.len();
    if n >= 3 && chars[n - 3] == 'm' && chars[n - 2] == 'i' && chars[n - 1] == 'n' {
        let count = trim_range(&chars, 0, n - 3);
        assert(chars@.subrange(0, n - 3) =~= text@.take(n - 3));
        assert(count@.subrange(0, count.len() as int) =~= count@);
        match parse_number(&count, 0, count.len()) {
            Some(value) => Some(value as u64),
            None => None,
        }
    } else if mentions_season(&chars) {
        let mut end: usize = 0;
        while end < n && chars[end] >= '0' && chars[end] <= '9'
            invariant
                end <= n == chars.len(),
                digit_run(chars@, 0) == digit_run(chars@, end as int),
            decreases n - end,
        {
            end += 1;
        }
        assert(chars@.subrange(0, end as int) =~= text@.take(digit_run(text@, 0)));
        match parse_number(&chars, 0, end) {
            Some(value) => Some(value as u64 * SEASON_MINUTES),
            None => None,
        }
    } else {
        None
    }
}

/// Scores two durations by how close they are in minutes.
pub fn analyze_duration(duration1: &str, duration2: &str) -> (score: u64)
    ensures
        score == duration_similarity(duration1@, duration2@),
        score <= SCALE,
{
    match (parse_duration(duration1), parse_duration(duration2)) {
        (Some(x), Some(y)) => {
            let gap: u64 = if x >= y {
                x - y
            } else {
                y - x
            };
            if gap <= 30 {
                SCALE
            } else if gap <= 60 {
                HALF
            } else {
                0
            }
        },
        _ => 0,
    }
}

/// Scores two values of one kind of attribute, each given as text.
pub fn attribute_similarity(kind: AttributeKind, value1: &str, value2: &str) -> (score: u64)
    ensures
        score == attribute_score(kind, value1@, value2@),
        score <= SCALE,
{
    match kind {
        AttributeKind::Type => analyze_type(value1, value2),
        AttributeKind::Director => analyze_director(value1, value2),
        AttributeKind::Country => analyze_country(value1, value2),
        AttributeKind::Year => analyze_release_year(parse_year(value1), parse_year(value2)),
        AttributeKind::Rating => analyze_rating(value1, value2),
        AttributeKind::Genres => analyze_listed_in(value1, value2),
        AttributeKind::Cast => analyze_cast(value1, value2),
        AttributeKind::Duration => analyze_duration(value1, value2),
    }
}

/// For every kind of attribute, a missing value on either side scores zero.
pub proof fn lemma_missing_attribute_scores_zero(kind: AttributeKind, x: Seq<char>)
    ensures
        attribute_score(kind, Seq::empty(), x) == 0,
        attribute_score(kind, x, Seq::empty()) == 0,
{
    lemma_missing_value_scores_zero(x, 0);
    assert(unsigned_part(Seq::<char>::empty()).len() == 0);
}

/// A missing value never matches: every metric on strings scores zero when
/// either side is empty, and the year metric scores zero when either year is
/// unknown.
pub proof fn lemma_missing_value_scores_zero(x: Seq<char>, y: u32)
    ensures
        categorical_exact(Seq::empty(), x) == 0,
        categorical_exact(x, Seq::empty()) == 0,
        country_similarity(Seq::empty(), x) == 0,
        country_similarity(x, Seq::empty()) == 0,
        multi_value_overlap(Seq::empty(), x) == 0,
        multi_value_overlap(x, Seq::empty()) == 0,
        duration_similarity(Seq::empty(), x) == 0,
        duration_similarity(x, Seq::empty()) == 0,
        numeric_proximity(0, y) == 0,
        numeric_proximity(y, 0) == 0,
{
    assert(!names_season(Seq::<char>::empty())) by {
        assert forall|at: int| !season_at(Seq::<char>::empty(), at) by {}
    }
}

/// A present value matches itself fully, and two different present values do
/// not match at all.
pub proof fn lemma_categorical_exact_match(a: Seq<char>, b: Seq<char>)
    requires
        a.len() > 0,
        b.len() > 0,
    ensures
        categorical_exact(a, a) == SCALE,
        a != b ==> categorical_exact(a, b) == 0,
{
}

/// The sizes of the meet and the join of two token sets: both are finite, the
/// join is not empty, and the meet is no larger than the join.
pub proof fn lemma_token_set_sizes(a: Seq<char>, b: Seq<char>)
    ensures
        token_set(a).finite(),
        token_set(b).finite(),
        token_set(a).intersect(token_set(b)).finite(),
        token_set(a).union(token_set(b)).finite(),
        token_set(a).len() >= 1,
        token_set(a).intersect(token_set(b)).len() <= token_set(a).len(),
        token_set(a).len() <= token_set(a).union(token_set(b)).len(),
{
    let sa = token_set(a);
    let sb = token_set(b);
    seq_to_set_is_finite(tokens(a));
    seq_to_set_is_finite(tokens(b));
    lemma_split_nonempty(a);
    assert(sa.contains(tokens(a)[0]));
    assert(sa.len() >= 1) by {
        if sa.len() == 0 {
            sa.lemma_len0_is_empty();
        }
    }
    lemma_len_intersect(sa, sb);
    lemma_len_subset(sa, sa.union(sb));
}

/// The overlap score never exceeds one whole unit.
pub proof fn lemma_overlap_bounded(a: Seq<char>, b: Seq<char>)
    ensures
        multi_value_overlap(a, b) <= SCALE,
{
    lemma_token_set_sizes(a, b);
    let inter = token_set(a).intersect(token_set(b)).len();
    let union = token_set(a).union(token_set(b)).len();
    assert(inter * SCALE / (union as int) <= SCALE) by (nonlinear_arith)
        requires
            inter <= union,
            0 < union,
    ;
}

/// The overlap score does not depend on the order of its arguments.
pub proof fn lemma_overlap_symmetric(a: Seq<char>, b: Seq<char>)
    ensures
        multi_value_overlap(a, b) == multi_value_overlap(b, a),
{
    assert(token_set(a).intersect(token_set(b)) =~= token_set(b).intersect(token_set(a)));
    assert(token_set(a).union(token_set(b)) =~= token_set(b).union(token_set(a)));
}

/// The country score does not depend on the order of its arguments.
pub proof fn lemma_country_symmetric(a: Seq<char>, b: Seq<char>)
    ensures
        country_similarity(a, b) == country_similarity(b, a),
{
}

/// The year score does not depend on the order of its arguments.
pub proof fn lemma_year_symmetric(y1: u32, y2: u32)
    ensures
        numeric_proximity(y1, y2) == numeric_proximity(y2, y1),
{
}

/// The overlap score is one whole unit exactly when both values are present
/// and their token sets are the same.
pub proof fn lemma_overlap_full_iff_same_tokens(a: Seq<char>, b: Seq<char>)
    ensures
        multi_value_overlap(a, b) == SCALE <==> a.len() > 0 && b.len() > 0 && token_set(a)
            == token_set(b),
{
    lemma_token_set_sizes(a, b);
    let sa = token_set(a);
    let sb = token_set(b);
    let inter = sa.intersect(sb).len();
    let union = sa.union(sb).len();
    if a.len() > 0 && b.len() > 0 {
        if sa == sb {
            assert(sa.intersect(sb) =~= sa);
            assert(sa.union(sb) =~= sa);
            assert(inter * SCALE / (inter as int) == SCALE) by (nonlinear_arith)
                requires
                    inter >= 1,
            ;
            assert(!(inter * SCALE < inter)) by (nonlinear_arith)
                requires
                    inter >= 1,
            ;
        } else if inter == union {
            lemma_subset_equality(sa.intersect(sb), sa.union(sb));
            assert forall|t: Seq<char>| sa.contains(t) == sb.contains(t) by {
                assert(sa.intersect(sb).contains(t) == sa.union(sb).contains(t));
            }
            assert(sa =~= sb);
        } else if inter > 0 {
            assert(inter * SCALE / (union as int) < SCALE) by (nonlinear_arith)
                requires
                    inter < union,
                    0 < union,
            ;
        }
    }
}

/// The overlap score of two present values is zero exactly when their token
/// sets have no token in common.
pub proof fn lemma_overlap_zero_iff_disjoint(a: Seq<char>, b: Seq<char>)
    requires
        a.len() > 0,
        b.len() > 0,
    ensures
        multi_value_overlap(a, b) == 0 <==> token_set(a).disjoint(token_set(b)),
{
    lemma_token_set_sizes(a, b);
    let sa = token_set(a);
    let sb = token_set(b);
    let inter = sa.intersect(sb).len();
    let union = sa.union(sb).len();
    if sa.disjoint(sb) {
        assert(sa.intersect(sb) =~= Set::<Seq<char>>::empty());
    } else {
        let t = choose|t: Seq<char>| sa.contains(t) && sb.contains(t);
        assert(sa.intersect(sb).contains(t));
        if inter == 0 {
            sa.intersect(sb).lemma_len0_is_empty();
        }
        if !(inter * SCALE < union) {
            assert(inter * SCALE / (union as int) >= 1) by (nonlinear_arith)
                requires
                    inter * SCALE >= union,
                    0 < union,
            ;
        }
    }
}

/// Two known years at most five apart match fully, six to ten apart match by
/// half, and further apart do not match; a known year matches itself fully.
pub proof fn lemma_numeric_proximity_buckets(y1: u32, y2: u32)
    requires
        y1 != 0,
        y2 != 0,
    ensures
        numeric_proximity(y1, y1) == SCALE,
        numeric_proximity(y1, y2) == numeric_proximity(y2, y1),
        year_gap(y1, y2) <= 5 ==> numeric_proximity(y1, y2) == SCALE,
        6 <= year_gap(y1, y2) <= 10 ==> numeric_proximity(y1, y2) == HALF,
        year_gap(y1, y2) >= 11 ==> numeric_proximity(y1, y2) == 0,
{
}

} // verus!
