//! Composing categories, a codepoint range and explicit characters into one normalized
//! interval list.
use vstd::prelude::*;

use crate::categories::{self, category_selection, option_view, UnicodeCategory, UnicodeCategorySet};
use crate::error::Error;
use crate::intervalset::IntervalSet;
use crate::intervals::{self, covers, has_codepoint, in_interval, is_normalized};
use crate::table::{append_all, within_codepoints, CategoryTable};
use crate::{Interval, MAX_CODEPOINT};

verus! {

/// Whether a query holds `c`: a codepoint of a selected category inside the bounds, or an
/// included character, and in either case not an excluded character.
pub open spec fn query_holds(
    table: CategoryTable,
    categories: Set<UnicodeCategory>,
    include_characters: Seq<char>,
    exclude_characters: Seq<char>,
    min_codepoint: u32,
    max_codepoint: u32,
    c: int,
) -> bool {
    &&& (table.selects(categories, c) && min_codepoint <= c <= max_codepoint) || has_codepoint(
        include_characters,
        c,
    )
    &&& !has_codepoint(exclude_characters, c)
}

/// Query without validation: the bounds must already be in order and within range.
pub fn query(
    table: &CategoryTable,
    include_categories: Option<UnicodeCategorySet>,
    exclude_categories: UnicodeCategorySet,
    include_characters: &str,
    exclude_characters: &str,
    min_codepoint: u32,
    max_codepoint: u32,
) -> (r: Vec<Interval>)
    requires
        min_codepoint <= max_codepoint <= MAX_CODEPOINT,
    ensures
        is_normalized(r@),
        forall|c: int| #[trigger]
            covers(r@, c) == query_holds(
                *table,
                category_selection(option_view(include_categories), exclude_categories@),
                include_characters@,
                exclude_characters@,
                min_codepoint,
                max_codepoint,
                c,
            ),
{
    let categories = categories::merge(include_categories, exclude_categories);
    let include_intervals = intervals::from_str(include_characters);
    let exclude_intervals = intervals::from_str(exclude_characters);
    let full = intervals_for_set(table, categories);
    let mut result = clip(&full, min_codepoint, max_codepoint);
    let ghost clipped = result@;
    if result.len() == 0 {
        result = include_intervals;
    } else if include_intervals.len() > 0 {
        append_all(&mut result, &include_intervals);
        proof {
            assert forall|i: int| 0 <= i < result@.len() implies (#[trigger] result@[i]).0
                <= result@[i].1 by {
                if i < clipped.len() {
                    assert(clipped[i].0 <= clipped[i].1);
                } else {
                    assert(result@[i] == include_intervals@[i - clipped.len()]);
                    assert(include_intervals@[i - clipped.len()].0 <= include_intervals@[i
                        - clipped.len()].1);
                }
            }
        }
        let ghost joined = result@;
        intervals::merge(&mut result);
        proof {
            assert forall|c: int| #[trigger] covers(joined, c) == (covers(clipped, c) || covers(
                include_intervals@,
                c,
            )) by {
                intervals::lemma_covers_concat(clipped, include_intervals@, c);
            }
        }
    }
    proof {
        assert forall|c: int| #[trigger] covers(result@, c) == (covers(clipped, c) || covers(
            include_intervals@,
            c,
        )) by {
            if clipped.len() == 0 {
                assert(!covers(clipped, c));
            }
            if include_intervals@.len() == 0 {
                assert(!covers(include_intervals@, c));
            }
        }
    }
    intervals::subtract(result, exclude_intervals.as_slice())
}

/// The part of the normalized list `full` between `min_codepoint` and `max_codepoint`.
fn clip(full: &Vec<Interval>, min_codepoint: u32, max_codepoint: u32) -> (r: Vec<Interval>)
    requires
        is_normalized(full@),
        min_codepoint <= max_codepoint,
    ensures
        is_normalized(r@),
        forall|c: int| #[trigger]
            covers(r@, c) == (covers(full@, c) && min_codepoint <= c <= max_codepoint),
{
    let n = full.len();
    let mut result: Vec<Interval> = Vec::new();
    let mut i: usize = 0;
    assert(full@.take(n as int) =~= full@);
    while i < n
        invariant_except_break
            n == full@.len(),
            full@.take(n as int) == full@,
            min_codepoint <= max_codepoint,
            i <= n,
            is_normalized(full@),
            is_normalized(result@),
            result@.len() > 0 ==> i > 0 && result@.last().1 <= full@[i - 1].1,
            forall|c: int| #[trigger]
                covers(result@, c) == (covers(full@.take(i as int), c) && min_codepoint <= c
                    <= max_codepoint),
        ensures
            is_normalized(result@),
            forall|c: int| #[trigger]
                covers(result@, c) == (covers(full@, c) && min_codepoint <= c <= max_codepoint),
        decreases n - i,
    {
        let (low, high) = full[i];
        if low > max_codepoint {
            proof {
                assert forall|c: int| #[trigger]
                    covers(result@, c) == (covers(full@, c) && min_codepoint <= c
                        <= max_codepoint) by {
                    if covers(full@, c) && c <= max_codepoint {
                        let k = choose|k: int| 0 <= k < n && #[trigger] in_interval(full@[k], c);
                        if k >= i {
                            if k > i {
                                assert(full@[i as int].1 + 1 < full@[k].0);
                                assert(full@[i as int].0 <= full@[i as int].1);
                            }
                        } else {
                            assert(in_interval(full@.take(i as int)[k], c));
                        }
                    }
                    lemma_covers_take(full@, i as int, c);
                }
            }
            break;
        }
        let ghost before = result@;
        if high >= min_codepoint {
            let piece_low = if low > min_codepoint {
                low
            } else {
                min_codepoint
            };
            let piece_high = if high < max_codepoint {
                high
            } else {
                max_codepoint
            };
            result.push((piece_low, piece_high));
            proof {
                if before.len() > 0 {
                    assert(full@[i - 1].1 + 1 < full@[i as int].0);
                }
                assert(full@[i as int].0 <= full@[i as int].1);
                intervals::lemma_push_normalized(before, (piece_low, piece_high));
                assert forall|c: int| #[trigger]
                    covers(result@, c) == (covers(full@.take(i + 1), c) && min_codepoint <= c
                        <= max_codepoint) by {
                    intervals::lemma_covers_push(before, (piece_low, piece_high), c);
                    assert(full@.take(i + 1) == full@.take(i as int).push(full@[i as int]));
                    intervals::lemma_covers_push(full@.take(i as int), full@[i as int], c);
                }
            }
        } else {
            proof {
                assert forall|c: int| #[trigger]
                    covers(result@, c) == (covers(full@.take(i + 1), c) && min_codepoint <= c
                        <= max_codepoint) by {
                    assert(full@.take(i + 1) == full@.take(i as int).push(full@[i as int]));
                    intervals::lemma_covers_push(full@.take(i as int), full@[i as int], c);
                }
            }
        }
        i = i + 1;
    }
    result
}

proof fn lemma_covers_take(s: Seq<Interval>, i: int, c: int)
    requires
        0 <= i <= s.len(),
    ensures
        covers(s.take(i), c) ==> covers(s, c),
{
    if covers(s.take(i), c) {
        let k = choose|k: int| 0 <= k < i && #[trigger] in_interval(s.take(i)[k], c);
        assert(in_interval(s[k], c));
    }
}

/// Whether some category of `categories` below ordinal `bound` holds `c`.
pub open spec fn selects_below(
    table: CategoryTable,
    categories: Set<UnicodeCategory>,
    bound: nat,
    c: int,
) -> bool {
    exists|category: UnicodeCategory| #[trigger]
        categories.contains(category) && category.ordinal() < bound && covers(
            table.category_intervals(category),
            c,
        )
}

/// The normalized intervals of the codepoints of all categories in `categories`.
pub fn intervals_for_set(table: &CategoryTable, categories: UnicodeCategorySet) -> (r: Vec<
    Interval,
>)
    ensures
        is_normalized(r@),
        forall|c: int| #[trigger] covers(r@, c) == table.selects(categories@, c),
{
    if categories.is_empty() {
        let r: Vec<Interval> = Vec::new();
        proof {
            assert forall|c: int| #[trigger] covers(r@, c) == table.selects(categories@, c) by {
                if table.selects(categories@, c) {
                    let cat = choose|cat: UnicodeCategory| #[trigger]
                        categories@.contains(cat) && covers(table.category_intervals(cat), c);
                    assert(Set::<UnicodeCategory>::empty().contains(cat));
                }
            }
        }
        return r;
    }
    if categories == UnicodeCategorySet::all() {
        let r: Vec<Interval> = vec![(0, MAX_CODEPOINT)];
        table.ensure_valid();
        proof {
            assert forall|c: int| #[trigger] covers(r@, c) == table.selects(categories@, c) by {
                if covers(r@, c) {
                    let k = choose|k: int| 0 <= k < r@.len() && #[trigger] in_interval(r@[k], c);
                    assert(k == 0);
                }
                if 0 <= c <= MAX_CODEPOINT {
                    assert(in_interval(r@[0], c));
                }
            }
        }
        return r;
    }
    table.ensure_valid();
    let mut all: Vec<Interval> = Vec::new();
    let mut count: u8 = 0;
    let mut last: u8 = 0;
    let mut i: u8 = 0;
    while i < 30
        invariant
            i <= 30,
            count <= i,
            last < 30,
            count == 0 ==> all@.len() == 0,
            count == 1 ==> all@ == table.category_intervals(UnicodeCategory::at(last as nat)),
            count == 1 ==> categories@.contains(UnicodeCategory::at(last as nat)),
            forall|k: int| 0 <= k < all@.len() ==> (#[trigger] all@[k]).0 <= all@[k].1,
            forall|c: int| #[trigger] covers(all@, c) == selects_below(*table, categories@, i as nat, c),
            forall|cat: UnicodeCategory| #[trigger] is_normalized(table.category_intervals(cat)),
        decreases 30 - i,
    {
        let category = UnicodeCategory::from_index(i);
        proof {
            categories::lemma_ordinal_at(i as nat);
        }
        let ghost before = all@;
        if categories.has_category(category) {
            let list = table.intervals_for(category);
            append_all(&mut all, list);
            proof {
                if count == 0 {
                    assert(all@ == list@);
                }
                assert forall|k: int| 0 <= k < all@.len() implies (#[trigger] all@[k]).0 <= all@[k].1 by {
                    if k >= before.len() {
                        assert(all@[k] == list@[k - before.len()]);
                        assert(is_normalized(table.category_intervals(category)));
                    }
                }
            }
            count = count + 1;
            last = i;
        }
        proof {
            assert forall|c: int| #[trigger] covers(all@, c) == selects_below(*table, categories@, (i + 1) as nat, c) by {
                intervals::lemma_covers_concat(before, table.category_intervals(category), c);
                if selects_below(*table, categories@, (i + 1) as nat, c) {
                    let cat = choose|cat: UnicodeCategory| #[trigger]
                        categories@.contains(cat) && cat.ordinal() < i + 1 && covers(table.category_intervals(cat), c);
                    if cat.ordinal() == i {
                        categories::lemma_at_ordinal(cat);
                    }
                }
            }
        }
        i = i + 1;
    }
    proof {
        assert forall|c: int| #[trigger] covers(all@, c) == table.selects(categories@, c) by {
            if table.selects(categories@, c) {
                let cat = choose|cat: UnicodeCategory| #[trigger]
                    categories@.contains(cat) && covers(table.category_intervals(cat), c);
                categories::lemma_at_ordinal(cat);
                assert(selects_below(*table, categories@, 30, c));
            }
        }
    }
    if count > 1 {
        intervals::merge(&mut all);
    }
    all
}

/// The characters of an optional text; none when it is missing.
pub open spec fn text_of(s: Option<&str>) -> Seq<char> {
    match s {
        Some(s) => s@,
        None => Seq::empty(),
    }
}

/// Whether the bounds are in order and within the codepoint range.
pub open spec fn bounds_valid(min_codepoint: u32, max_codepoint: u32) -> bool {
    min_codepoint <= max_codepoint <= MAX_CODEPOINT
}

/// `e` is the error for bounds that are not valid: out of range is reported before out
/// of order.
pub open spec fn bounds_rejected(e: Error, min_codepoint: u32, max_codepoint: u32) -> bool {
    if min_codepoint > MAX_CODEPOINT || max_codepoint > MAX_CODEPOINT {
        e matches Error::CodepointNotInRange(a, b) && a == min_codepoint && b == max_codepoint
    } else {
        e matches Error::InvalidCodepoints(a, b) && a == min_codepoint && b == max_codepoint
    }
}

/// `v` is the answer of the query: normalized, and holding exactly the codepoints that
/// `query_holds` picks.
pub open spec fn answers(
    v: Seq<Interval>,
    table: CategoryTable,
    include_categories: Option<UnicodeCategorySet>,
    exclude_categories: Option<UnicodeCategorySet>,
    include_characters: Seq<char>,
    exclude_characters: Seq<char>,
    min_codepoint: u32,
    max_codepoint: u32,
) -> bool {
    &&& is_normalized(v)
    &&& forall|c: int| #[trigger]
        covers(v, c) == query_holds(
            table,
            category_selection(
                option_view(include_categories),
                match exclude_categories {
                    Some(s) => s@,
                    None => Set::<UnicodeCategory>::empty(),
                },
            ),
            include_characters,
            exclude_characters,
            min_codepoint,
            max_codepoint,
            c,
        )
}

/// The value of an optional bound, or `default` when it is missing.
pub open spec fn bound_or(bound: Option<u32>, default: u32) -> u32 {
    match bound {
        Some(b) => b,
        None => default,
    }
}

impl CategoryTable {
    /// A query builder over this table, with no restriction set.
    pub fn query<'a>(&'a self) -> (r: IntervalQuery<'a>)
        ensures
            r.spec_table() == *self,
            r.spec_include_categories() is None,
            r.spec_exclude_categories() is None,
            r.spec_include_characters() is None,
            r.spec_exclude_characters() is None,
            r.spec_min_codepoint() == 0,
            r.spec_max_codepoint() == MAX_CODEPOINT,
    {
        IntervalQuery::new(self)
    }

    /// Find intervals matching the query; a missing bound is the whole codepoint range.
    ///
    /// Fails with `CodepointNotInRange` when a bound exceeds the largest codepoint, and
    /// otherwise with `InvalidCodepoints` when the minimum exceeds the maximum.
    pub fn intervals(
        &self,
        include_categories: Option<UnicodeCategorySet>,
        exclude_categories: Option<UnicodeCategorySet>,
        include_characters: Option<&str>,
        exclude_characters: Option<&str>,
        min_codepoint: Option<u32>,
        max_codepoint: Option<u32>,
    ) -> (r: Result<Vec<Interval>, Error>)
        ensures
            r is Ok <==> bounds_valid(bound_or(min_codepoint, 0), bound_or(max_codepoint, MAX_CODEPOINT)),
            r matches Err(e) ==> bounds_rejected(e, bound_or(min_codepoint, 0), bound_or(max_codepoint, MAX_CODEPOINT)),
            r matches Ok(v) ==> answers(
                v@,
                *self,
                include_categories,
                exclude_categories,
                text_of(include_characters),
                text_of(exclude_characters),
                bound_or(min_codepoint, 0),
                bound_or(max_codepoint, MAX_CODEPOINT),
            ),
    {
        let exclude_categories = match exclude_categories {
            Some(s) => s,
            None => UnicodeCategorySet::new(),
        };
        let min_codepoint = match min_codepoint {
            Some(b) => b,
            None => 0,
        };
        let max_codepoint = match max_codepoint {
            Some(b) => b,
            None => MAX_CODEPOINT,
        };
        self.intervals_impl(
            include_categories,
            exclude_categories,
            include_characters,
            exclude_characters,
            min_codepoint,
            max_codepoint,
        )
    }

    fn intervals_impl(
        &self,
        include_categories: Option<UnicodeCategorySet>,
        exclude_categories: UnicodeCategorySet,
        include_characters: Option<&str>,
        exclude_characters: Option<&str>,
        min_codepoint: u32,
        max_codepoint: u32,
    ) -> (r: Result<Vec<Interval>, Error>)
        ensures
            r is Ok <==> bounds_valid(min_codepoint, max_codepoint),
            r matches Err(e) ==> bounds_rejected(e, min_codepoint, max_codepoint),
            r matches Ok(v) ==> is_normalized(v@) && forall|c: int| #[trigger]
                covers(v@, c) == query_holds(
                    *self,
                    category_selection(option_view(include_categories), exclude_categories@),
                    text_of(include_characters),
                    text_of(exclude_characters),
                    min_codepoint,
                    max_codepoint,
                    c,
                ),
    {
        if min_codepoint > MAX_CODEPOINT || max_codepoint > MAX_CODEPOINT {
            return Err(Error::CodepointNotInRange(min_codepoint, max_codepoint));
        }
        if min_codepoint > max_codepoint {
            return Err(Error::InvalidCodepoints(min_codepoint, max_codepoint));
        }
        let include_text = text_or_empty(include_characters);
        let exclude_text = text_or_empty(exclude_characters);
        Ok(query(
            self,
            include_categories,
            exclude_categories,
            include_text,
            exclude_text,
            min_codepoint,
            max_codepoint,
        ))
    }

    /// Build an `IntervalSet` for the intervals matching the query; it fails as
    /// `intervals` does.
    pub fn interval_set(
        &self,
        include_categories: Option<UnicodeCategorySet>,
        exclude_categories: Option<UnicodeCategorySet>,
        include_characters: Option<&str>,
        exclude_characters: Option<&str>,
        min_codepoint: Option<u32>,
        max_codepoint: Option<u32>,
    ) -> (r: Result<IntervalSet, Error>)
        ensures
            r is Ok <==> bounds_valid(bound_or(min_codepoint, 0), bound_or(max_codepoint, MAX_CODEPOINT)),
            r matches Err(e) ==> bounds_rejected(e, bound_or(min_codepoint, 0), bound_or(max_codepoint, MAX_CODEPOINT)),
            r matches Ok(s) ==> s.wf() && answers(
                s.intervals(),
                *self,
                include_categories,
                exclude_categories,
                text_of(include_characters),
                text_of(exclude_characters),
                bound_or(min_codepoint, 0),
                bound_or(max_codepoint, MAX_CODEPOINT),
            ),
    {
        let intervals = self.intervals(
            include_categories,
            exclude_categories,
            include_characters,
            exclude_characters,
            min_codepoint,
            max_codepoint,
        )?;
        proof {
            lemma_answer_within_codepoints(intervals@, bound_or(max_codepoint, MAX_CODEPOINT), text_of(include_characters));
        }
        Ok(IntervalSet::new(intervals))
    }
}

/// The text, or the empty text when it is missing.
fn text_or_empty(s: Option<&str>) -> (r: &str)
    ensures
        r@ == text_of(s),
{
    match s {
        Some(s) => s,
        None => {
            proof {
                reveal_strlit("");
            }
            ""
        },
    }
}

/// The intervals of an answer end at codepoints: a category codepoint is within the
/// bounds, and a character is a codepoint.
proof fn lemma_answer_within_codepoints(v: Seq<Interval>, max_codepoint: u32, include_characters: Seq<char>)
    requires
        is_normalized(v),
        max_codepoint <= MAX_CODEPOINT,
        forall|c: int| #[trigger] covers(v, c) ==> c <= max_codepoint || has_codepoint(include_characters, c),
    ensures
        within_codepoints(v),
{
    assert forall|i: int| 0 <= i < v.len() implies (#[trigger] v[i]).1 <= MAX_CODEPOINT by {
        let c = v[i].1 as int;
        assert(v[i].0 <= v[i].1);
        assert(in_interval(v[i], c));
        assert(covers(v, c));
        if has_codepoint(include_characters, c) {
            let k = choose|k: int| 0 <= k < include_characters.len() && #[trigger] include_characters[k] as u32 == c;
            vstd::utf8::char_is_scalar(include_characters[k]);
        }
    }
}

/// A query builder for specifying the input parameters to the `intervals` and
/// `interval_set` methods of a table.
#[derive(Debug)]
pub struct IntervalQuery<'a> {
    table: &'a CategoryTable,
    include_categories: Option<UnicodeCategorySet>,
    exclude_categories: Option<UnicodeCategorySet>,
    include_characters: Option<&'a str>,
    exclude_characters: Option<&'a str>,
    min_codepoint: u32,
    max_codepoint: u32,
}

impl<'a> IntervalQuery<'a> {
    /// The table queried.
    pub closed spec fn spec_table(self) -> CategoryTable {
        *self.table
    }

    /// The categories to include, if restricted.
    pub closed spec fn spec_include_categories(self) -> Option<UnicodeCategorySet> {
        self.include_categories
    }

    /// The categories to exclude, if any.
    pub closed spec fn spec_exclude_categories(self) -> Option<UnicodeCategorySet> {
        self.exclude_categories
    }

    /// The characters to include, if any.
    pub closed spec fn spec_include_characters(self) -> Option<&'a str> {
        self.include_characters
    }

    /// The characters to exclude, if any.
    pub closed spec fn spec_exclude_characters(self) -> Option<&'a str> {
        self.exclude_characters
    }

    /// The lower bound.
    pub closed spec fn spec_min_codepoint(self) -> u32 {
        self.min_codepoint
    }

    /// The upper bound.
    pub closed spec fn spec_max_codepoint(self) -> u32 {
        self.max_codepoint
    }

    fn new(table: &'a CategoryTable) -> (r: IntervalQuery<'a>)
        ensures
            r.spec_table() == *table,
            r.spec_include_categories() is None,
            r.spec_exclude_categories() is None,
            r.spec_include_characters() is None,
            r.spec_exclude_characters() is None,
            r.spec_min_codepoint() == 0,
            r.spec_max_codepoint() == MAX_CODEPOINT,
    {
        IntervalQuery {
            table,
            include_categories: None,
            exclude_categories: None,
            include_characters: None,
            exclude_characters: None,
            min_codepoint: 0,
            max_codepoint: MAX_CODEPOINT,
        }
    }

    /// Set `include_categories`.
    pub fn include_categories(self, include_categories: UnicodeCategorySet) -> (r: IntervalQuery<'a>)
        ensures
            r.spec_table() == self.spec_table(),
            r.spec_include_categories() == Some(include_categories),
            r.spec_exclude_categories() == self.spec_exclude_categories(),
            r.spec_include_characters() == self.spec_include_characters(),
            r.spec_exclude_characters() == self.spec_exclude_characters(),
            r.spec_min_codepoint() == self.spec_min_codepoint(),
            r.spec_max_codepoint() == self.spec_max_codepoint(),
    {
        IntervalQuery { include_categories: Some(include_categories), ..self }
    }

    /// Set `exclude_categories`.
    pub fn exclude_categories(self, exclude_categories: UnicodeCategorySet) -> (r: IntervalQuery<'a>)
        ensures
            r.spec_table() == self.spec_table(),
            r.spec_include_categories() == self.spec_include_categories(),
            r.spec_exclude_categories() == Some(exclude_categories),
            r.spec_include_characters() == self.spec_include_characters(),
            r.spec_exclude_characters() == self.spec_exclude_characters(),
            r.spec_min_codepoint() == self.spec_min_codepoint(),
            r.spec_max_codepoint() == self.spec_max_codepoint(),
    {
        IntervalQuery { exclude_categories: Some(exclude_categories), ..self }
    }

    /// Set `include_characters`.
    pub fn include_characters(self, include_characters: &'a str) -> (r: IntervalQuery<'a>)
        ensures
            r.spec_table() == self.spec_table(),
            r.spec_include_categories() == self.spec_include_categories(),
            r.spec_exclude_categories() == self.spec_exclude_categories(),
            r.spec_include_characters() == Some(include_characters),
            r.spec_exclude_characters() == self.spec_exclude_characters(),
            r.spec_min_codepoint() == self.spec_min_codepoint(),
            r.spec_max_codepoint() == self.spec_max_codepoint(),
    {
        IntervalQuery { include_characters: Some(include_characters), ..self }
    }

    /// Set `exclude_characters`.
    pub fn exclude_characters(self, exclude_characters: &'a str) -> (r: IntervalQuery<'a>)
        ensures
            r.spec_table() == self.spec_table(),
            r.spec_include_categories() == self.spec_include_categories(),
            r.spec_exclude_categories() == self.spec_exclude_categories(),
            r.spec_include_characters() == self.spec_include_characters(),
            r.spec_exclude_characters() == Some(exclude_characters),
            r.spec_min_codepoint() == self.spec_min_codepoint(),
            r.spec_max_codepoint() == self.spec_max_codepoint(),
    {
        IntervalQuery { exclude_characters: Some(exclude_characters), ..self }
    }

    /// Set `min_codepoint`.
    pub fn min_codepoint(self, min_codepoint: u32) -> (r: IntervalQuery<'a>)
        ensures
            r.spec_table() == self.spec_table(),
            r.spec_include_categories() == self.spec_include_categories(),
            r.spec_exclude_categories() == self.spec_exclude_categories(),
            r.spec_include_characters() == self.spec_include_characters(),
            r.spec_exclude_characters() == self.spec_exclude_characters(),
            r.spec_min_codepoint() == min_codepoint,
            r.spec_max_codepoint() == self.spec_max_codepoint(),
    {
        IntervalQuery { min_codepoint, ..self }
    }

    /// Set `max_codepoint`.
    pub fn max_codepoint(self, max_codepoint: u32) -> (r: IntervalQuery<'a>)
        ensures
            r.spec_table() == self.spec_table(),
            r.spec_include_categories() == self.spec_include_categories(),
            r.spec_exclude_categories() == self.spec_exclude_categories(),
            r.spec_include_characters() == self.spec_include_characters(),
            r.spec_exclude_characters() == self.spec_exclude_characters(),
            r.spec_min_codepoint() == self.spec_min_codepoint(),
            r.spec_max_codepoint() == max_codepoint,
    {
        IntervalQuery { max_codepoint, ..self }
    }

    /// Find intervals matching the query; it fails as `CategoryTable::intervals` does.
    pub fn intervals(&self) -> (r: Result<Vec<Interval>, Error>)
        ensures
            r is Ok <==> bounds_valid(self.spec_min_codepoint(), self.spec_max_codepoint()),
            r matches Err(e) ==> bounds_rejected(e, self.spec_min_codepoint(), self.spec_max_codepoint()),
            r matches Ok(v) ==> answers(
                v@,
                self.spec_table(),
                self.spec_include_categories(),
                self.spec_exclude_categories(),
                text_of(self.spec_include_characters()),
                text_of(self.spec_exclude_characters()),
                self.spec_min_codepoint(),
                self.spec_max_codepoint(),
            ),
    {
        self.table.intervals(
            self.include_categories,
            self.exclude_categories,
            self.include_characters,
            self.exclude_characters,
            Some(self.min_codepoint),
            Some(self.max_codepoint),
        )
    }

    /// Build an `IntervalSet` for the intervals matching the query; it fails as
    /// `intervals` does.
    pub fn interval_set(&self) -> (r: Result<IntervalSet, Error>)
        ensures
            r is Ok <==> bounds_valid(self.spec_min_codepoint(), self.spec_max_codepoint()),
            r matches Err(e) ==> bounds_rejected(e, self.spec_min_codepoint(), self.spec_max_codepoint()),
            r matches Ok(s) ==> s.wf() && answers(
                s.intervals(),
                self.spec_table(),
                self.spec_include_categories(),
                self.spec_exclude_categories(),
                text_of(self.spec_include_characters()),
                text_of(self.spec_exclude_characters()),
                self.spec_min_codepoint(),
                self.spec_max_codepoint(),
            ),
    {
        self.table.interval_set(
            self.include_categories,
            self.exclude_categories,
            self.include_characters,
            self.exclude_characters,
            Some(self.min_codepoint),
            Some(self.max_codepoint),
        )
    }
}

} // verus!
