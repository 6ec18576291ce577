use movie_rank::metrics::{
    attribute_similarity, AttributeKind, analyze_cast, analyze_country, analyze_director, analyze_duration, analyze_listed_in,
    analyze_rating, analyze_release_year, analyze_type, parse_duration,
};
use movie_rank::score::{HALF, SCALE};
use movie_rank::text::{
    chars_of, contains_token, count_common, count_distinct, occurs_before, parse_number,
    same_chars, split_tokens, str_equal, trim_range,
};

fn words(tokens: &Vec<Vec<char>>) -> Vec<String> {
    tokens.iter().map(|t| t.iter().collect()).collect()
}

#[test]
fn missing_value_scores_zero() {
    for x in ["", "Movie", "a, b"] {
        assert_eq!(analyze_type("", x), 0);
        assert_eq!(analyze_type(x, ""), 0);
        assert_eq!(analyze_director("", x), 0);
        assert_eq!(analyze_director(x, ""), 0);
        assert_eq!(analyze_rating("", x), 0);
        assert_eq!(analyze_rating(x, ""), 0);
        assert_eq!(analyze_country("", x), 0);
        assert_eq!(analyze_country(x, ""), 0);
        assert_eq!(analyze_listed_in("", x), 0);
        assert_eq!(analyze_listed_in(x, ""), 0);
        assert_eq!(analyze_cast("", x), 0);
        assert_eq!(analyze_cast(x, ""), 0);
        assert_eq!(analyze_duration("", x), 0);
        assert_eq!(analyze_duration(x, ""), 0);
    }
    assert_eq!(analyze_duration("", "90 min"), 0);
    assert_eq!(analyze_duration("2 Seasons", ""), 0);
    assert_eq!(analyze_release_year(0, 2020), 0);
    assert_eq!(analyze_release_year(2020, 0), 0);
    assert_eq!(analyze_release_year(0, 0), 0);
}

#[test]
fn exact_match_is_all_or_nothing() {
    assert_eq!(analyze_type("Movie", "Movie"), SCALE);
    assert_eq!(analyze_type("Movie", "TV Show"), 0);
    assert_eq!(analyze_type("Movie", "movie"), 0);
    assert_eq!(analyze_type("Movie", "Movie "), 0);
    assert_eq!(analyze_director("Agnès Varda", "Agnès Varda"), SCALE);
    assert_eq!(analyze_director("Agnès Varda", "Agnes Varda"), 0);
    assert_eq!(analyze_rating("PG-13", "PG-13"), SCALE);
    assert_eq!(analyze_rating("PG-13", "PG"), 0);
}

#[test]
fn year_buckets_are_closed_at_their_ends() {
    assert_eq!(analyze_release_year(2020, 2020), SCALE);
    assert_eq!(analyze_release_year(2020, 2025), SCALE);
    assert_eq!(analyze_release_year(2025, 2020), SCALE);
    assert_eq!(analyze_release_year(2020, 2026), HALF);
    assert_eq!(analyze_release_year(2020, 2030), HALF);
    assert_eq!(analyze_release_year(2030, 2020), HALF);
    assert_eq!(analyze_release_year(2020, 2031), 0);
    assert_eq!(analyze_release_year(2031, 2020), 0);
    assert_eq!(analyze_release_year(1, u32::MAX), 0);
    assert_eq!(analyze_release_year(u32::MAX, u32::MAX - 5), SCALE);
}

#[test]
fn country_match_is_full_half_or_none() {
    assert_eq!(analyze_country("USA", "USA"), SCALE);
    assert_eq!(analyze_country("USA, Canada", "USA, Canada"), SCALE);
    assert_eq!(analyze_country("USA", "USA, Canada"), HALF);
    assert_eq!(analyze_country("Canada, USA", "USA,Canada"), HALF);
    assert_eq!(analyze_country("USA", " USA "), HALF);
    assert_eq!(analyze_country("USA", "Canada"), 0);
    assert_eq!(analyze_country("USA", "US"), 0);
    assert_eq!(analyze_country("France, Italy", "Spain, Japan"), 0);
}

#[test]
fn genre_overlap_is_jaccard() {
    assert_eq!(analyze_listed_in("Education, Science", "Education, History"), SCALE / 3);
    assert_eq!(analyze_listed_in("Education, History", "Education, Science"), SCALE / 3);
    assert_eq!(analyze_listed_in("Drama", "Drama"), SCALE);
    assert_eq!(analyze_listed_in("Drama, Comedy", "Comedy,Drama"), SCALE);
    assert_eq!(analyze_listed_in("Drama, Drama", "Drama"), SCALE);
    assert_eq!(analyze_listed_in("Drama", "Comedy"), 0);
    assert_eq!(analyze_listed_in("a, b, c", "b, c, d"), HALF);
    assert_eq!(analyze_listed_in("a, b", "a"), HALF);
    assert_eq!(analyze_listed_in("a,b,c,d,e,f,g", "g"), 142_857_142);
    // a trailing comma leaves an empty token, which counts like any other
    assert_eq!(analyze_listed_in("a,", "a"), HALF);
    assert_eq!(analyze_listed_in("a,", "b, "), SCALE / 3);
}

#[test]
fn tokens_are_split_on_commas_and_trimmed() {
    assert_eq!(words(&split_tokens("")), vec![""]);
    assert_eq!(words(&split_tokens("one")), vec!["one"]);
    assert_eq!(words(&split_tokens(" one , two,three ")), vec!["one", "two", "three"]);
    assert_eq!(words(&split_tokens("a,,b,")), vec!["a", "", "b", ""]);
    assert_eq!(words(&split_tokens(",")), vec!["", ""]);
    assert_eq!(words(&split_tokens("  \t ")), vec![""]);
    assert_eq!(words(&split_tokens("New  York , \u{a0}Rio\u{3000}")), vec!["New  York", "Rio"]);
    assert_eq!(words(&split_tokens("Sci-Fi & Fantasy")), vec!["Sci-Fi & Fantasy"]);
}

#[test]
fn token_counts() {
    let a = split_tokens("x, y, x, z, y");
    let b = split_tokens("z, w, x, x");
    assert_eq!(count_distinct(&a), 3);
    assert_eq!(count_distinct(&b), 3);
    assert_eq!(count_common(&a, &b), 2);
    assert_eq!(count_common(&b, &a), 2);
    assert!(contains_token(&a, &chars_of("z")));
    assert!(!contains_token(&a, &chars_of("w")));
    assert!(!contains_token(&a, &chars_of("")));
}

#[test]
fn characters_and_equality() {
    assert_eq!(chars_of("héllo"), vec!['h', 'é', 'l', 'l', 'o']);
    assert_eq!(chars_of(""), Vec::<char>::new());
    assert!(same_chars(&chars_of("abc"), &chars_of("abc")));
    assert!(!same_chars(&chars_of("abc"), &chars_of("abd")));
    assert!(!same_chars(&chars_of("abc"), &chars_of("ab")));
    assert!(str_equal("", ""));
    assert!(str_equal("Movie", "Movie"));
    assert!(!str_equal("Movie", "Movi"));
}

#[test]
fn cast_overlap_is_jaccard() {
    assert_eq!(analyze_cast("Ama Qamata, Khosi Ngema", "Khosi Ngema, Gail Mabalane"), SCALE / 3);
    assert_eq!(analyze_cast("Ama Qamata", "Ama Qamata"), SCALE);
    assert_eq!(analyze_cast("Ama Qamata", "Gail Mabalane"), 0);
}

#[test]
fn durations_are_read_in_minutes() {
    assert_eq!(parse_duration("90 min"), Some(90));
    assert_eq!(parse_duration("90min"), Some(90));
    assert_eq!(parse_duration("  7   min"), Some(7));
    assert_eq!(parse_duration("0 min"), Some(0));
    assert_eq!(parse_duration("1 Season"), Some(1440));
    assert_eq!(parse_duration("2 Seasons"), Some(2880));
    assert_eq!(parse_duration("12Seasons"), Some(12 * 1440));
    assert_eq!(parse_duration("4294967295 Seasons"), Some(4294967295 * 1440));
    assert_eq!(parse_duration("4294967295 min"), Some(4294967295));
}

#[test]
fn unreadable_durations_have_no_value() {
    assert_eq!(parse_duration(""), None);
    assert_eq!(parse_duration("min"), None);
    assert_eq!(parse_duration("ninety min"), None);
    assert_eq!(parse_duration("90 minutes"), None);
    assert_eq!(parse_duration("90 Min"), None);
    assert_eq!(parse_duration("9 0 min"), None);
    assert_eq!(parse_duration("-5 min"), None);
    assert_eq!(parse_duration("4294967296 min"), None);
    assert_eq!(parse_duration("Seasons"), None);
    assert_eq!(parse_duration(" 2 Seasons"), None);
    assert_eq!(parse_duration("two Seasons"), None);
    assert_eq!(parse_duration("2 seasons"), None);
    assert_eq!(parse_duration("4294967296 Seasons"), None);
    assert_eq!(parse_duration("90"), None);
    // the unit decides first: this ends in "min", and "Season 2" is no number
    assert_eq!(parse_duration("Season 2 min"), None);
}

#[test]
fn duration_buckets_are_closed_at_their_ends() {
    assert_eq!(analyze_duration("90 min", "90 min"), SCALE);
    assert_eq!(analyze_duration("90 min", "120 min"), SCALE);
    assert_eq!(analyze_duration("120 min", "90 min"), SCALE);
    assert_eq!(analyze_duration("90 min", "121 min"), HALF);
    assert_eq!(analyze_duration("90 min", "150 min"), HALF);
    assert_eq!(analyze_duration("150 min", "90 min"), HALF);
    assert_eq!(analyze_duration("90 min", "151 min"), 0);
    assert_eq!(analyze_duration("1 Season", "1 Season"), SCALE);
    assert_eq!(analyze_duration("1 Season", "2 Seasons"), 0);
    assert_eq!(analyze_duration("1 Season", "1440 min"), SCALE);
    assert_eq!(analyze_duration("1 Season", "1500 min"), HALF);
    assert_eq!(analyze_duration("1 Season", "90 min"), 0);
    assert_eq!(analyze_duration("90 min", "soon"), 0);
}

#[test]
fn numbers_and_trimmed_ranges() {
    let s = chars_of("ab  12 34  ");
    assert_eq!(trim_range(&s, 2, 11), chars_of("12 34"));
    assert_eq!(trim_range(&s, 0, 4), chars_of("ab"));
    assert_eq!(trim_range(&s, 2, 4), Vec::<char>::new());
    assert_eq!(trim_range(&s, 5, 5), Vec::<char>::new());
    assert_eq!(parse_number(&s, 4, 6), Some(12));
    assert_eq!(parse_number(&s, 4, 9), None);
    assert_eq!(parse_number(&s, 4, 4), None);
    assert_eq!(parse_number(&s, 0, 2), None);
    let tokens = split_tokens("x, y, x");
    assert!(occurs_before(&tokens, 2, &chars_of("y")));
    assert!(!occurs_before(&tokens, 1, &chars_of("y")));
    assert!(!occurs_before(&tokens, 0, &chars_of("x")));
}

#[test]
fn every_kind_of_attribute_is_scored_from_text() {
    assert_eq!(attribute_similarity(AttributeKind::Type, "Movie", "Movie"), SCALE);
    assert_eq!(attribute_similarity(AttributeKind::Director, "A", "B"), 0);
    assert_eq!(attribute_similarity(AttributeKind::Rating, "PG", "PG"), SCALE);
    assert_eq!(attribute_similarity(AttributeKind::Country, "USA", "USA, Canada"), HALF);
    assert_eq!(attribute_similarity(AttributeKind::Year, "2020", "2026"), HALF);
    assert_eq!(attribute_similarity(AttributeKind::Year, "2020", "2020"), SCALE);
    assert_eq!(attribute_similarity(AttributeKind::Year, "2020", "soon"), 0);
    assert_eq!(attribute_similarity(AttributeKind::Genres, "a, b", "a"), HALF);
    assert_eq!(attribute_similarity(AttributeKind::Cast, "a, b", "c"), 0);
    assert_eq!(attribute_similarity(AttributeKind::Duration, "90 min", "100 min"), SCALE);
    for kind in [
        AttributeKind::Type,
        AttributeKind::Director,
        AttributeKind::Country,
        AttributeKind::Year,
        AttributeKind::Rating,
        AttributeKind::Genres,
        AttributeKind::Cast,
        AttributeKind::Duration,
    ] {
        for x in ["", "Movie", "2020", "90 min", "a, b"] {
            assert_eq!(attribute_similarity(kind, "", x), 0);
            assert_eq!(attribute_similarity(kind, x, ""), 0);
        }
    }
}

#[test]
fn white_space_is_the_unicode_set() {
    let listed = |c: char| {
        let code = c as u32;
        (0x09..=0x0D).contains(&code)
            || code == 0x20
            || code == 0x85
            || code == 0xA0
            || code == 0x1680
            || (0x2000..=0x200A).contains(&code)
            || code == 0x2028
            || code == 0x2029
            || code == 0x202F
            || code == 0x205F
            || code == 0x3000
    };
    let mut count = 0;
    for code in 0..=0x10FFFFu32 {
        if let Some(c) = char::from_u32(code) {
            assert_eq!(c.is_whitespace(), listed(c), "U+{:04X}", code);
            if listed(c) {
                count += 1;
                assert!(trim_range(&vec![c], 0, 1).is_empty(), "U+{:04X}", code);
            }
        }
    }
    assert_eq!(count, 25);
    for c in ['a', '0', ',', '\u{200B}', '\u{FEFF}', '\u{180E}', '\u{1F}', '\u{0E}'] {
        assert_eq!(trim_range(&vec![c], 0, 1), vec![c]);
    }
}

#[test]
fn trimming_decides_which_tokens_are_the_same() {
    assert_eq!(analyze_country("USA, Canada", "Canada, USA"), HALF);
    assert_eq!(analyze_listed_in("a, b", " b ,c"), SCALE / 3);
    assert_eq!(analyze_listed_in("Drama,  Drama , ,", "Drama, "), SCALE);
}
