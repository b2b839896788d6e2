use unicode_intervals::UnicodeCategory::{Cc, Cf, Cn, Co, Cs, Ll, Lm, Lo, Lt, Lu, Mc, Me, Mn, Nd, Nl, No, Pc, Pd, Pe, Pf, Pi, Po, Ps, Sc, Sk, Sm, So, Zl, Zp, Zs};
use std::str::FromStr;

use unicode_intervals::intervals::{merge, subtract};
use unicode_intervals::query::intervals_for_set;
use unicode_intervals::{
    query, CategoryTable, Error, Interval, UnicodeCategory, UnicodeCategorySet, UnicodeVersion,
    MAX_CODEPOINT,
};

/// A miniature classification table for Unicode 15.0.0: exact for the codepoints below
/// 160, for connector punctuation, line and paragraph separators and surrogates; every
/// other codepoint is filed as unassigned.
fn fixture_table() -> CategoryTable {
    let mut lists: Vec<Vec<Interval>> = vec![Vec::new(); 30];
    let entries: Vec<(UnicodeCategory, Vec<Interval>)> = vec![
        (Cc, vec![(0, 31), (127, 159)]),
        (Zs, vec![(32, 32)]),
        (
            Po,
            vec![(33, 35), (37, 39), (42, 42), (44, 44), (46, 47), (58, 59), (63, 64), (92, 92)],
        ),
        (Sc, vec![(36, 36)]),
        (Ps, vec![(40, 40), (91, 91), (123, 123)]),
        (Pe, vec![(41, 41), (93, 93), (125, 125)]),
        (Sm, vec![(43, 43), (60, 62), (124, 124), (126, 126)]),
        (Pd, vec![(45, 45)]),
        (Nd, vec![(48, 57)]),
        (Lu, vec![(65, 90)]),
        (Sk, vec![(94, 94), (96, 96)]),
        (
            Pc,
            vec![
                (95, 95),
                (8255, 8256),
                (8276, 8276),
                (65075, 65076),
                (65101, 65103),
                (65343, 65343),
            ],
        ),
        (Ll, vec![(97, 122)]),
        (Zl, vec![(8232, 8232)]),
        (Zp, vec![(8233, 8233)]),
        (Cs, vec![(55296, 57343)]),
    ];
    let mut assigned: Vec<Interval> = Vec::new();
    for (category, intervals) in entries {
        assigned.extend_from_slice(&intervals);
        lists[category.index() as usize] = intervals;
    }
    merge(&mut assigned);
    lists[Cn.index() as usize] = subtract(vec![(0, MAX_CODEPOINT)], &assigned);
    CategoryTable::new(UnicodeVersion::V15_0_0, lists).expect("valid table")
}

#[test]
fn test_interval_set() {
    let table = fixture_table();
    let interval_set = table
        .interval_set(
            Some(UnicodeCategory::Lu.into()),
            None,
            None,
            None,
            None,
            Some(128),
        )
        .expect("Invalid query");
    assert_eq!(interval_set.index_of('A' as u32), Some(0));
}

#[test]
fn test_top_level_query() {
    let table = fixture_table();
    assert_eq!(
        query(&table).intervals().expect("Invalid query"),
        vec![(0, MAX_CODEPOINT)]
    );
}

#[test]
fn test_query_include_only_characters() {
    let table = fixture_table();
    let intervals = table
        .query()
        .include_categories(UnicodeCategory::Pc.into())
        .min_codepoint(0)
        .max_codepoint(50)
        .include_characters("abc")
        .intervals()
        .expect("Invalid query");
    assert_eq!(intervals, &[(97, 99)]);
}

#[test]
fn test_query_exclude_only_characters() {
    let table = fixture_table();
    let intervals = table
        .query()
        .include_categories(UnicodeCategory::UPPERCASE_LETTER.into())
        .max_codepoint(90)
        .exclude_characters("ABC")
        .intervals()
        .expect("Invalid query");
    assert_eq!(intervals, &[(68, 90)]);
}

#[test]
fn test_query_exclude_categories() {
    let table = fixture_table();
    let intervals = table
        .query()
        .exclude_categories(UnicodeCategory::UPPERCASE_LETTER.into())
        .max_codepoint(90)
        .intervals()
        .expect("Invalid query");
    assert_eq!(intervals, &[(0, 64)]);
}

#[test]
fn test_query_include_category_and_characters() {
    let table = fixture_table();
    let intervals = table
        .intervals(
            Some(UnicodeCategory::Pc.into()),
            None,
            Some("abc"),
            None,
            None,
            None,
        )
        .expect("Invalid query");
    assert_eq!(
        intervals,
        &[
            (95, 95),
            (97, 99),
            (8255, 8256),
            (8276, 8276),
            (65075, 65076),
            (65101, 65103),
            (65343, 65343)
        ]
    );
}

#[test]
fn test_intervals_for() {
    let table = fixture_table();
    assert_eq!(
        table.intervals_for(UnicodeCategory::Pc),
        &[
            (95, 95),
            (8255, 8256),
            (8276, 8276),
            (65075, 65076),
            (65101, 65103),
            (65343, 65343),
        ]
    );
}

#[test]
fn test_intervals_iter() {
    let table = fixture_table();
    let intervals = table
        .query()
        .include_categories(UnicodeCategory::LOWERCASE_LETTER.into())
        .intervals()
        .expect("Invalid query input");
    let interval_set = unicode_intervals::IntervalSet::new(intervals);
    let codepoints = interval_set.iter();
    let mut expected = Vec::with_capacity(interval_set.len());
    for (left, right) in table.intervals_for(UnicodeCategory::LOWERCASE_LETTER) {
        for codepoint in *left..=*right {
            expected.push(codepoint);
        }
    }
    assert_eq!(codepoints, expected);
    assert_eq!(interval_set.len(), codepoints.len());
    assert!(!interval_set.is_empty());
}

#[test]
fn test_pc_with_bounds() {
    let table = fixture_table();
    let run = |min: Option<u32>, max: Option<u32>| {
        table
            .intervals(Some(UnicodeCategory::Pc.into()), None, None, None, min, max)
            .expect("Invalid query")
    };
    assert_eq!(
        run(None, None),
        vec![(95, 95), (8255, 8256), (8276, 8276), (65075, 65076), (65101, 65103), (65343, 65343)]
    );
    assert_eq!(run(None, Some(128)), vec![(95, 95)]);
    assert_eq!(run(Some(65077), None), vec![(65101, 65103), (65343, 65343)]);
    assert_eq!(run(Some(65076), Some(65102)), vec![(65076, 65076), (65101, 65102)]);
}

#[test]
fn test_letters_with_snowman() {
    let table = fixture_table();
    let intervals = table
        .query()
        .include_categories(UnicodeCategory::UPPERCASE_LETTER | UnicodeCategory::LOWERCASE_LETTER)
        .max_codepoint(128)
        .include_characters("☃")
        .intervals()
        .expect("Invalid query input");
    assert_eq!(intervals, &[(65, 90), (97, 122), (9731, 9731)]);
}

#[test]
fn test_range_only() {
    let table = fixture_table();
    let intervals = query(&table)
        .min_codepoint(65)
        .max_codepoint(128)
        .intervals()
        .expect("Invalid query input");
    assert_eq!(intervals, &[(65, 128)]);
}

#[test]
fn test_paragraph_separator_with_characters() {
    let table = fixture_table();
    let intervals = query(&table)
        .include_categories(UnicodeCategory::PARAGRAPH_SEPARATOR.into())
        .include_characters("☃-123")
        .intervals()
        .expect("Invalid query input");
    assert_eq!(intervals, &[(45, 45), (49, 51), (8233, 8233), (9731, 9731)]);
}

#[test]
fn test_uppercase_interval_set() {
    let table = fixture_table();
    let interval_set = table
        .query()
        .include_categories(UnicodeCategory::UPPERCASE_LETTER.into())
        .max_codepoint(128)
        .interval_set()
        .expect("Invalid query input");
    assert_eq!(interval_set.codepoint_at(10), Some('K' as u32));
    assert_eq!(interval_set.index_of('K' as u32), Some(10));
    assert_eq!(interval_set.index_above('Z' as u32), 25);
    assert_eq!(interval_set.index_above('b' as u32), 26);
    assert!(interval_set.contains('C' as u32));
    assert!(!interval_set.contains('a' as u32));
    assert_eq!(interval_set.index_of(5), None);
}

#[test]
fn test_empty_interval_set() {
    let table = fixture_table();
    let interval_set = table
        .query()
        .include_categories(UnicodeCategory::UPPERCASE_LETTER.into())
        .max_codepoint(50)
        .interval_set()
        .expect("Invalid query input");
    assert!(interval_set.is_empty());
}

#[test]
fn test_query_out_of_range_both() {
    let table = fixture_table();
    let query = table.query().min_codepoint(1073741824).max_codepoint(2147483648);
    let expected = "Codepoints should be in [0; 1114111] range. Got: [1073741824; 2147483648]";
    assert_eq!(query.intervals().expect_err("Should error").to_string(), expected);
    assert_eq!(query.interval_set().expect_err("Should error").to_string(), expected);
    assert_eq!(
        query.intervals().expect_err("Should error"),
        Error::CodepointNotInRange(1073741824, 2147483648)
    );
}

#[test]
fn test_query_out_of_range_max() {
    let table = fixture_table();
    let query = table.query().min_codepoint(0).max_codepoint(2147483648);
    let expected = "Codepoints should be in [0; 1114111] range. Got: [0; 2147483648]";
    assert_eq!(query.intervals().expect_err("Should error").to_string(), expected);
    assert_eq!(query.interval_set().expect_err("Should error").to_string(), expected);
}

#[test]
fn test_query_out_of_order() {
    let table = fixture_table();
    let query = table.query().min_codepoint(5).max_codepoint(1);
    let expected = "Minimum codepoint should be less or equal than maximum codepoint. Got 5 < 1";
    assert_eq!(query.intervals().expect_err("Should error").to_string(), expected);
    assert_eq!(query.interval_set().expect_err("Should error").to_string(), expected);
    assert_eq!(
        query.intervals().expect_err("Should error"),
        Error::InvalidCodepoints(5, 1)
    );
}

#[test]
fn test_out_of_range_reported_before_order() {
    let table = fixture_table();
    let error = table
        .intervals(None, None, None, None, Some(2000000), Some(5))
        .expect_err("Should error");
    assert_eq!(error, Error::CodepointNotInRange(2000000, 5));
}

#[test]
fn test_intervals_for_set_empty() {
    let table = fixture_table();
    assert_eq!(intervals_for_set(&table, UnicodeCategorySet::new()), vec![]);
}

#[test]
fn test_intervals_for_set_all() {
    let table = fixture_table();
    assert_eq!(
        intervals_for_set(&table, UnicodeCategorySet::all()),
        vec![(0, MAX_CODEPOINT)]
    );
}

#[test]
fn test_intervals_for_set_single() {
    let table = fixture_table();
    assert_eq!(
        intervals_for_set(&table, UnicodeCategory::Zl.into()),
        vec![(8232, 8232)]
    );
}

#[test]
fn test_intervals_for_set_pair() {
    let table = fixture_table();
    assert_eq!(
        intervals_for_set(&table, UnicodeCategory::Zl | UnicodeCategory::Cs),
        vec![(8232, 8232), (55296, 57343)]
    );
}

#[test]
fn test_intervals_for_set_merges_neighbours() {
    let table = fixture_table();
    assert_eq!(
        intervals_for_set(&table, UnicodeCategory::Lu | UnicodeCategory::Ps | UnicodeCategory::Po),
        vec![
            (33, 35),
            (37, 40),
            (42, 42),
            (44, 44),
            (46, 47),
            (58, 59),
            (63, 92),
            (123, 123)
        ]
    );
}

#[test]
fn test_union_of_table_is_everything() {
    let table = fixture_table();
    let mut all: Vec<Interval> = Vec::new();
    for list in table.table() {
        all.extend_from_slice(list);
    }
    merge(&mut all);
    assert_eq!(all, vec![(0, MAX_CODEPOINT)]);
}

#[test]
fn test_table_rejects_bad_data() {
    let mut lists: Vec<Vec<Interval>> = vec![Vec::new(); 30];
    lists[0] = vec![(0, MAX_CODEPOINT)];
    assert!(CategoryTable::new(UnicodeVersion::V9_0_0, lists.clone()).is_some());
    let mut gap = lists.clone();
    gap[0] = vec![(0, 10), (12, MAX_CODEPOINT)];
    assert!(CategoryTable::new(UnicodeVersion::V9_0_0, gap).is_none());
    let mut unsorted = lists.clone();
    unsorted[1] = vec![(5, 6), (1, 2)];
    assert!(CategoryTable::new(UnicodeVersion::V9_0_0, unsorted).is_none());
    let mut too_high = lists.clone();
    too_high[1] = vec![(MAX_CODEPOINT + 1, MAX_CODEPOINT + 1)];
    assert!(CategoryTable::new(UnicodeVersion::V9_0_0, too_high).is_none());
    assert!(CategoryTable::new(UnicodeVersion::V9_0_0, vec![Vec::new(); 29]).is_none());
}

#[test]
fn test_normalized_categories_of_fixture() {
    let table = fixture_table();
    assert_eq!(table.version(), UnicodeVersion::V15_0_0);
    let order = table.normalized_categories();
    assert_eq!(
        order,
        [
            Me, Pf, Cf, Pi, Nl, Lm, Mn, Lo, No, So, Co, Mc, Lt, Sc, Pd, Nd, Zl, Ll, Zp, Zs, Lu,
            Sk, Pe, Ps, Sm, Pc, Po, Cn, Cc, Cs
        ]
    );
}

#[test]
fn test_error_traits() {
    let error = Error::InvalidCodepoints(1, 1);
    assert_eq!(error, error);
    assert_eq!(format!("{error:?}"), "InvalidCodepoints(1, 1)");
}

#[test]
fn test_version_from_str_error() {
    assert_eq!(
        UnicodeVersion::from_str("invalid")
            .expect_err("Should fail")
            .to_string(),
        "'invalid' is not a valid Unicode version"
    );
}

fn hash(_: impl core::hash::Hash) {}

#[test]
fn test_is_hashable() {
    hash(UnicodeVersion::V15_0_0);
}

#[test]
fn test_version_names_round_trip() {
    let versions = [
        (UnicodeVersion::V9_0_0, "9.0.0"),
        (UnicodeVersion::V10_0_0, "10.0.0"),
        (UnicodeVersion::V11_0_0, "11.0.0"),
        (UnicodeVersion::V12_0_0, "12.0.0"),
        (UnicodeVersion::V12_1_0, "12.1.0"),
        (UnicodeVersion::V13_0_0, "13.0.0"),
        (UnicodeVersion::V14_0_0, "14.0.0"),
        (UnicodeVersion::V15_0_0, "15.0.0"),
    ];
    for (version, name) in versions {
        assert_eq!(version.as_str(), name);
        assert_eq!(UnicodeVersion::from_str(name).expect("Invalid version"), version);
    }
    assert_eq!(UnicodeVersion::latest(), UnicodeVersion::V15_0_0);
}
