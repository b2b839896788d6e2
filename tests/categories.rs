use unicode_intervals::UnicodeCategory::{Cc, Cf, Cn, Co, Cs, Ll, Lm, Lo, Lt, Lu, Me, Pe, So};
use std::str::FromStr;

use unicode_intervals::categories::merge;
use unicode_intervals::{UnicodeCategory, UnicodeCategorySet};

fn hash(_: impl core::hash::Hash) {}

#[test]
fn test_category_from_str_error() {
    assert_eq!(
        UnicodeCategory::from_str("wrong")
            .expect_err("Should fail")
            .to_string(),
        "'wrong' is not a valid Unicode category"
    );
}

#[test]
fn test_category_is_hashable() {
    hash(UnicodeCategory::Ll);
}

#[test]
fn test_single_letter_categories() {
    assert_eq!(UnicodeCategory::L(), Ll | Lm | Lo | Lt | Lu);
}

#[test]
fn test_set_display() {
    assert_eq!(UnicodeCategory::L().to_string(), "Ll, Lm, Lo, Lt, Lu");
}

#[test]
fn test_set_add_category() {
    let mut set = UnicodeCategorySet::new();
    assert!(set.is_empty());
    set.add_category(UnicodeCategory::Ll);
    assert!(set.has_category(UnicodeCategory::Ll));
    assert_eq!(set.len(), 1);
}

#[test]
fn test_bit_or() {
    assert_eq!(Ll | UnicodeCategorySet::new(), Ll.into());
    assert_eq!(
        UnicodeCategory::L() | UnicodeCategory::C(),
        Ll | Lm | Lo | Lt | Lu | Cs | Cc | Cf | Cn | Co
    );
    let mut set = UnicodeCategorySet::new();
    set |= Ll;
    set |= UnicodeCategory::C();
    assert_eq!(set, Ll | Cs | Cc | Cf | Cn | Co);
}

#[test]
fn test_set_iter() {
    let all_categories = UnicodeCategorySet::all();
    assert_eq!(all_categories.iter().len(), all_categories.len());
    let mut set = UnicodeCategorySet::new();
    let mut iter = all_categories.iter();
    while let Some(category) = iter.next() {
        let name = category.as_str().to_string();
        assert_eq!(
            UnicodeCategory::from_str(&name).expect("Invalid category"),
            category
        );
        set.add_category(category);
    }
    assert_eq!(all_categories, set);
}

#[test]
fn test_set_default() {
    assert_eq!(UnicodeCategorySet::default(), UnicodeCategorySet::new());
}

#[test]
fn test_set_is_hashable() {
    hash(UnicodeCategory::L());
}

#[test]
fn test_set_option_from_category() {
    let set: Option<UnicodeCategorySet> = UnicodeCategory::Ll.into();
    assert!(set.is_some());
    assert_eq!(set.expect("Unexpected `None`"), UnicodeCategory::Ll.into());
}

#[test]
fn test_category_merge_selected_minus_excluded() {
    assert_eq!(merge(Some(Lu | Me | Cs | So), So.into()), Lu | Me | Cs);
}

#[test]
fn test_category_merge_none_selects_complement() {
    assert_eq!(
        merge(
            None,
            UnicodeCategory::L()
                | UnicodeCategory::M()
                | UnicodeCategory::N()
                | UnicodeCategory::P()
                | UnicodeCategory::S()
        ),
        UnicodeCategory::Z() | UnicodeCategory::C()
    );
}

#[test]
fn test_category_merge_empty_selection_wins() {
    assert_eq!(
        merge(Some(UnicodeCategorySet::new()), UnicodeCategorySet::new()),
        UnicodeCategorySet::new()
    );
    assert_eq!(
        merge(Some(UnicodeCategorySet::new()), UnicodeCategory::Lu.into()),
        UnicodeCategorySet::new()
    );
}

#[test]
fn test_category_merge_excluding_everything() {
    assert_eq!(
        merge(None, UnicodeCategorySet::all()),
        UnicodeCategorySet::new()
    );
    assert_eq!(
        merge(Some(UnicodeCategory::Ll.into()), UnicodeCategory::Ll.into()),
        UnicodeCategorySet::new()
    );
}

#[test]
fn test_set_len_and_value() {
    assert_eq!(UnicodeCategorySet::all().len(), 30);
    assert_eq!(UnicodeCategorySet::all().into_value(), 0x3FFF_FFFF);
    assert_eq!(UnicodeCategorySet::new().len(), 0);
    let set: UnicodeCategorySet = UnicodeCategory::Lu.into();
    assert_eq!(set.into_value(), 1 << 29);
    assert!(!UnicodeCategory::L().is_empty());
}

#[test]
fn test_iter_in_ordinal_order() {
    let set = Lu | Pe | Ll;
    let mut iter = set.iter();
    assert_eq!(iter.len(), 3);
    assert_eq!(iter.next(), Some(Pe));
    assert_eq!(iter.next(), Some(Ll));
    assert_eq!(iter.len(), 1);
    assert_eq!(iter.next(), Some(Lu));
    assert_eq!(iter.next(), None);
    assert_eq!(iter.next(), None);
}

#[test]
fn test_category_names() {
    assert_eq!(UnicodeCategory::Pe.as_str(), "Pe");
    assert_eq!(UnicodeCategory::Lu.as_str(), "Lu");
    assert_eq!(UnicodeCategory::Pe.index(), 0);
    assert_eq!(UnicodeCategory::Lu.index(), 29);
    assert_eq!(UnicodeCategory::UPPERCASE_LETTER, UnicodeCategory::Lu);
    assert_eq!(UnicodeCategory::from_str("Zs").expect("valid"), UnicodeCategory::Zs);
    assert!(UnicodeCategory::from_str("zs").is_err());
    assert!(UnicodeCategory::from_str("").is_err());
}

#[test]
fn test_empty_set_display() {
    assert_eq!(UnicodeCategorySet::new().to_string(), "");
    assert_eq!(UnicodeCategorySet::from(UnicodeCategory::Cn).to_string(), "Cn");
}
