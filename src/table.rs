//! The classification data of one Unicode version: for every category, the sorted
//! intervals of its codepoints.
use vstd::prelude::*;

use crate::categories::UnicodeCategory;
use crate::intervals::{
    covers, in_interval, is_normalized, lemma_covers_concat, lemma_normal_form_unique, merge,
};
use crate::{Interval, UnicodeVersion, MAX_CODEPOINT};

verus! {

/// Every interval of `s` ends at a codepoint.
pub open spec fn within_codepoints(s: Seq<Interval>) -> bool {
    forall|i: int| 0 <= i < s.len() ==> (#[trigger] s[i]).1 <= MAX_CODEPOINT
}

/// Whether the category list `lists[k]` of some category holds `c`.
pub open spec fn some_list_covers(lists: Seq<Seq<Interval>>, c: int) -> bool {
    exists|k: int| 0 <= k < lists.len() && #[trigger] covers(lists[k], c)
}

/// What a classification table must be: one normalized list of codepoint intervals for
/// each of the 30 categories, which together hold every codepoint.
pub open spec fn valid_table(lists: Seq<Seq<Interval>>) -> bool {
    &&& lists.len() == 30
    &&& forall|k: int| 0 <= k < 30 ==> is_normalized(#[trigger] lists[k]) && within_codepoints(
        lists[k],
    )
    &&& forall|c: int| 0 <= c <= MAX_CODEPOINT ==> #[trigger] some_list_covers(lists, c)
}

/// The per-category interval lists of one Unicode version.
#[derive(Debug)]
pub struct CategoryTable {
    version: UnicodeVersion,
    by_category: Vec<Vec<Interval>>,
}

/// The lists held by `v`, as sequences.
pub open spec fn lists_of(v: Seq<Vec<Interval>>) -> Seq<Seq<Interval>> {
    v.map_values(|l: Vec<Interval>| l@)
}

impl CategoryTable {
    #[verifier::type_invariant]
    spec fn well_formed(self) -> bool {
        valid_table(lists_of(self.by_category@))
    }

    /// The version the data belongs to.
    pub closed spec fn spec_version(self) -> UnicodeVersion {
        self.version
    }

    /// The interval lists, indexed by category ordinal.
    pub closed spec fn lists(self) -> Seq<Seq<Interval>> {
        lists_of(self.by_category@)
    }

    /// The intervals of `category`.
    pub open spec fn category_intervals(self, category: UnicodeCategory) -> Seq<Interval> {
        self.lists()[category.ordinal() as int]
    }

    /// Whether some category of `categories` holds `c`.
    pub open spec fn selects(self, categories: Set<UnicodeCategory>, c: int) -> bool {
        exists|category: UnicodeCategory| #[trigger]
            categories.contains(category) && covers(self.category_intervals(category), c)
    }

    /// Brings the table's invariant to callers in this crate: every category list is
    /// normalized, and all of them together hold exactly the codepoints.
    pub(crate) fn ensure_valid(&self)
        ensures
            forall|category: UnicodeCategory| #[trigger] is_normalized(self.category_intervals(category)),
            forall|c: int| #[trigger]
                self.selects(crate::categories::all_categories(), c) == (0 <= c <= MAX_CODEPOINT),
    {
        proof {
            use_type_invariant(self);
            let lists = self.lists();
            assert forall|category: UnicodeCategory| #[trigger] is_normalized(self.category_intervals(category)) by {
                crate::categories::lemma_at_ordinal(category);
            }
            assert forall|c: int| #[trigger]
                self.selects(crate::categories::all_categories(), c) == (0 <= c <= MAX_CODEPOINT) by {
                if 0 <= c <= MAX_CODEPOINT {
                    assert(some_list_covers(lists, c));
                    let k = choose|k: int| 0 <= k < lists.len() && #[trigger] covers(lists[k], c);
                    crate::categories::lemma_ordinal_at(k as nat);
                    let category = UnicodeCategory::at(k as nat);
                    assert(crate::categories::all_categories().contains(category));
                    assert(covers(self.category_intervals(category), c));
                }
                if self.selects(crate::categories::all_categories(), c) {
                    let category = choose|category: UnicodeCategory| #[trigger]
                        crate::categories::all_categories().contains(category) && covers(self.category_intervals(category), c);
                    crate::categories::lemma_at_ordinal(category);
                    let l = self.category_intervals(category);
                    let i = choose|i: int| 0 <= i < l.len() && #[trigger] in_interval(l[i], c);
                    assert(within_codepoints(lists[category.ordinal() as int]));
                    assert(l[i].1 <= MAX_CODEPOINT);
                }
            }
        }
    }

    /// Wraps the per-category interval lists of `version`, indexed by category ordinal;
    /// `None` unless they form a valid table.
    pub fn new(version: UnicodeVersion, by_category: Vec<Vec<Interval>>) -> (r: Option<
        CategoryTable,
    >)
        ensures
            r is Some <==> valid_table(lists_of(by_category@)),
            r matches Some(t) ==> t.spec_version() == version && t.lists() == lists_of(
                by_category@,
            ),
    {
        let ghost lists = lists_of(by_category@);
        if by_category.len() != 30 {
            return None;
        }
        let mut all: Vec<Interval> = Vec::new();
        let mut k: usize = 0;
        while k < 30
            invariant
                lists == lists_of(by_category@),
                lists.len() == 30,
                k <= 30,
                forall|h: int| 0 <= h < k ==> is_normalized(#[trigger] lists[h])
                    && within_codepoints(lists[h]),
                forall|i: int| 0 <= i < all@.len() ==> (#[trigger] all@[i]).0 <= all@[i].1,
                forall|c: int| #[trigger]
                    covers(all@, c) == some_list_covers(lists.take(k as int), c),
            decreases 30 - k,
        {
            proof {
                assert(lists[k as int] == by_category@[k as int]@);
            }
            if !is_canonical(&by_category[k]) {
                return None;
            }
            let ghost before = all@;
            append_all(&mut all, &by_category[k]);
            proof {
                assert(lists[k as int] == by_category@[k as int]@);
                assert forall|c: int| #[trigger]
                    covers(all@, c) == some_list_covers(lists.take(k + 1), c) by {
                    lemma_covers_concat(before, lists[k as int], c);
                    assert(all@ == before + lists[k as int]);
                    lemma_some_list_covers_push(lists, k as int, c);
                }
                assert forall|i: int| 0 <= i < all@.len() implies (#[trigger] all@[i]).0 <= all@[i].1 by {
                    if i >= before.len() {
                        assert(all@[i] == lists[k as int][i - before.len()]);
                    }
                }
            }
            k = k + 1;
        }
        merge(&mut all);
        proof {
            assert(lists.take(30) == lists);
        }
        if all.len() == 1 && all[0].0 == 0 && all[0].1 == MAX_CODEPOINT {
            proof {
                assert forall|c: int| 0 <= c <= MAX_CODEPOINT implies #[trigger] some_list_covers(
                    lists,
                    c,
                ) by {
                    assert(in_interval(all@[0], c));
                    assert(covers(all@, c));
                }
            }
            Some(CategoryTable { version, by_category })
        } else {
            proof {
                if valid_table(lists) {
                    let whole = seq![(0u32, MAX_CODEPOINT)];
                    assert forall|c: int| #[trigger] covers(whole, c) == covers(all@, c) by {
                        if covers(all@, c) {
                            assert(some_list_covers(lists, c));
                            let h = choose|h: int| 0 <= h < lists.len() && #[trigger] covers(lists[h], c);
                            let i = choose|i: int| 0 <= i < lists[h].len() && #[trigger] in_interval(lists[h][i], c);
                            assert(lists[h][i].1 <= MAX_CODEPOINT);
                            assert(in_interval(whole[0], c));
                        }
                        if covers(whole, c) {
                            assert(in_interval(whole[0], c));
                        }
                    }
                    lemma_normal_form_unique(whole, all@);
                }
            }
            None
        }
    }

    /// Whether `a` comes before `b` among the categories sorted by the number of their
    /// intervals, ties broken by ordinal.
    pub open spec fn ranks_before(self, a: UnicodeCategory, b: UnicodeCategory) -> bool {
        ||| self.category_intervals(a).len() < self.category_intervals(b).len()
        ||| self.category_intervals(a).len() == self.category_intervals(b).len() && a.ordinal() < b.ordinal()
    }

    /// Unicode categories sorted by the number of their intervals, ties broken by ordinal,
    /// with `Cc` and `Cs` placed last in that order.
    pub fn normalized_categories(&self) -> (r: [UnicodeCategory; 30])
        ensures
            r@[28] == UnicodeCategory::Cc,
            r@[29] == UnicodeCategory::Cs,
            forall|i: int, j: int| 0 <= i < j < 28 ==> self.ranks_before(#[trigger] r@[i], #[trigger] r@[j]),
            forall|i: int| 0 <= i < 28 ==> #[trigger] r@[i] != UnicodeCategory::Cc && r@[i] != UnicodeCategory::Cs,
            forall|c: UnicodeCategory|
                c != UnicodeCategory::Cc && c != UnicodeCategory::Cs ==> #[trigger] r@.take(28).contains(c),
    {
        proof {
            use_type_invariant(self);
        }
        let mut sorted: Vec<UnicodeCategory> = Vec::new();
        let mut k: u8 = 0;
        while k < 30
            invariant
                k <= 30,
                self.by_category@.len() == 30,
                forall|i: int, j: int| 0 <= i < j < sorted@.len() ==> self.ranks_before(#[trigger] sorted@[i], #[trigger] sorted@[j]),
                forall|i: int| 0 <= i < sorted@.len() ==> (#[trigger] sorted@[i]).ordinal() < k,
                forall|i: int| 0 <= i < sorted@.len() ==> #[trigger] sorted@[i] != UnicodeCategory::Cc && sorted@[i] != UnicodeCategory::Cs,
                forall|c: UnicodeCategory|
                    c.ordinal() < k && c != UnicodeCategory::Cc && c != UnicodeCategory::Cs ==> #[trigger] sorted@.contains(c),
                sorted@.len() <= k,
            decreases 30 - k,
        {
            let category = UnicodeCategory::from_index(k);
            proof {
                crate::categories::lemma_ordinal_at(k as nat);
            }
            if category != UnicodeCategory::Cc && category != UnicodeCategory::Cs {
                let count = self.by_category[k as usize].len();
                let mut p: usize = 0;
                while p < sorted.len() && self.by_category[sorted[p].index() as usize].len() <= count
                    invariant
                        p <= sorted@.len(),
                        self.by_category@.len() == 30,
                        count == self.category_intervals(category).len(),
                        forall|i: int| 0 <= i < sorted@.len() ==> (#[trigger] sorted@[i]).ordinal() < 30,
                        forall|j: int| 0 <= j < p ==> self.category_intervals(#[trigger] sorted@[j]).len() <= count,
                    decreases sorted@.len() - p,
                {
                    p = p + 1;
                }
                let ghost before = sorted@;
                sorted.insert(p, category);
                proof {
                    assert forall|i: int, j: int| 0 <= i < j < sorted@.len() implies self.ranks_before(
                        #[trigger] sorted@[i], #[trigger] sorted@[j]) by {
                        if j < p {
                            assert(sorted@[i] == before[i] && sorted@[j] == before[j]);
                        } else if j == p {
                            assert(sorted@[i] == before[i]);
                        } else if i == p {
                            assert(sorted@[j] == before[j - 1]);
                            assert(self.category_intervals(before[p as int]).len() > count);
                            if j - 1 > p {
                                assert(self.ranks_before(before[p as int], before[j - 1]));
                            }
                        } else if i < p {
                            assert(sorted@[i] == before[i] && sorted@[j] == before[j - 1]);
                        } else {
                            assert(sorted@[i] == before[i - 1] && sorted@[j] == before[j - 1]);
                        }
                    }
                    assert forall|c: UnicodeCategory|
                        c.ordinal() < k + 1 && c != UnicodeCategory::Cc && c != UnicodeCategory::Cs implies #[trigger] sorted@.contains(c) by {
                        crate::categories::lemma_at_ordinal(c);
                        if c.ordinal() < k {
                            assert(before.contains(c));
                            let i = choose|i: int| 0 <= i < before.len() && before[i] == c;
                            if i < p {
                                assert(sorted@[i] == c);
                            } else {
                                assert(sorted@[i + 1] == c);
                            }
                        } else {
                            assert(sorted@[p as int] == c);
                        }
                    }
                    assert forall|i: int| 0 <= i < sorted@.len() implies (#[trigger] sorted@[i]).ordinal() < k + 1 by {
                        if i < p {
                            assert(sorted@[i] == before[i]);
                        } else if i > p {
                            assert(sorted@[i] == before[i - 1]);
                        }
                    }
                    assert forall|i: int| 0 <= i < sorted@.len() implies #[trigger] sorted@[i] != UnicodeCategory::Cc && sorted@[i] != UnicodeCategory::Cs by {
                        if i < p {
                            assert(sorted@[i] == before[i]);
                        } else if i > p {
                            assert(sorted@[i] == before[i - 1]);
                        }
                    }
                }
            } else {
                proof {
                    assert forall|c: UnicodeCategory|
                        c.ordinal() < k + 1 && c != UnicodeCategory::Cc && c != UnicodeCategory::Cs implies #[trigger] sorted@.contains(c) by {
                        crate::categories::lemma_at_ordinal(c);
                    }
                }
            }
            k = k + 1;
        }
        proof {
            assert forall|i: int, j: int| 0 <= i < j < sorted@.len() implies #[trigger] sorted@[i] != #[trigger] sorted@[j] by {
                assert(self.ranks_before(sorted@[i], sorted@[j]));
            }
            lemma_sorted_categories_len(sorted@);
        }
        let mut r: [UnicodeCategory; 30] = [UnicodeCategory::Cc; 30];
        let mut i: usize = 0;
        while i < 28
            invariant
                sorted@.len() == 28,
                i <= 28,
                r@.len() == 30,
                r@[28] == UnicodeCategory::Cc,
                r@[29] == UnicodeCategory::Cc,
                forall|j: int| 0 <= j < i ==> #[trigger] r@[j] == sorted@[j],
            decreases 28 - i,
        {
            r[i] = sorted[i];
            i = i + 1;
        }
        r[29] = UnicodeCategory::Cs;
        proof {
            assert forall|c: UnicodeCategory|
                c != UnicodeCategory::Cc && c != UnicodeCategory::Cs implies #[trigger] r@.take(28).contains(c) by {
                crate::categories::lemma_at_ordinal(c);
                assert(sorted@.contains(c));
                let i = choose|i: int| 0 <= i < sorted@.len() && sorted@[i] == c;
                assert(r@[i] == sorted@[i]);
                assert(r@.take(28)[i] == c);
            }
        }
        r
    }

    /// The version the data belongs to.
    pub fn version(&self) -> (r: UnicodeVersion)
        ensures
            r == self.spec_version(),
    {
        self.version
    }

    /// The interval lists of all categories, indexed by category ordinal.
    pub fn table(&self) -> (r: &Vec<Vec<Interval>>)
        ensures
            lists_of(r@) == self.lists(),
    {
        &self.by_category
    }

    /// Get the intervals of the provided Unicode category.
    pub fn intervals_for(&self, category: UnicodeCategory) -> (r: &Vec<Interval>)
        ensures
            r@ == self.category_intervals(category),
    {
        proof {
            use_type_invariant(self);
            crate::categories::lemma_at_ordinal(category);
        }
        &self.by_category[category.index() as usize]
    }
}

/// A list of distinct categories other than `Cc` and `Cs` that holds all of them has 28
/// entries.
proof fn lemma_sorted_categories_len(s: Seq<UnicodeCategory>)
    requires
        forall|i: int, j: int| 0 <= i < j < s.len() ==> #[trigger] s[i] != #[trigger] s[j],
        forall|i: int| 0 <= i < s.len() ==> #[trigger] s[i] != UnicodeCategory::Cc && s[i] != UnicodeCategory::Cs,
        forall|c: UnicodeCategory|
            c.ordinal() < 30 && c != UnicodeCategory::Cc && c != UnicodeCategory::Cs ==> #[trigger] s.contains(c),
    ensures
        s.len() == 28,
{
    let others = Set::<UnicodeCategory>::full().remove(UnicodeCategory::Cc).remove(UnicodeCategory::Cs);
    assert(s.to_set() =~= others) by {
        assert forall|c: UnicodeCategory| others.contains(c) implies s.to_set().contains(c) by {
            crate::categories::lemma_at_ordinal(c);
        }
    }
    s.unique_seq_to_set();
    crate::categories::lemma_category_count();
}

/// Whether `list` is normalized and within the codepoint range.
fn is_canonical(list: &Vec<Interval>) -> (r: bool)
    ensures
        r == (is_normalized(list@) && within_codepoints(list@)),
{
    let n = list.len();
    let mut i: usize = 0;
    while i < n
        invariant
            n == list@.len(),
            i <= n,
            forall|h: int| 0 <= h < i ==> (#[trigger] list@[h]).0 <= list@[h].1 && list@[h].1
                <= MAX_CODEPOINT,
            forall|h: int| 0 < h < i ==> list@[h - 1].1 + 1 < (#[trigger] list@[h]).0,
        decreases n - i,
    {
        let (low, high) = list[i];
        if low > high || high > MAX_CODEPOINT {
            return false;
        }
        if i > 0 && low <= list[i - 1].1 + 1 {
            proof {
                assert(list@[i - 1].1 + 1 >= list@[i as int].0);
            }
            return false;
        }
        i = i + 1;
    }
    proof {
        assert forall|a: int, b: int| 0 <= a < b < n implies (#[trigger] list@[a]).1 + 1 < (
        #[trigger] list@[b]).0 by {
            lemma_sorted_from_adjacent(list@, a, b);
        }
    }
    true
}

proof fn lemma_sorted_from_adjacent(s: Seq<Interval>, a: int, b: int)
    requires
        0 <= a < b < s.len(),
        forall|h: int| 0 <= h < s.len() ==> (#[trigger] s[h]).0 <= s[h].1,
        forall|h: int| 0 < h < s.len() ==> s[h - 1].1 + 1 < (#[trigger] s[h]).0,
    ensures
        s[a].1 + 1 < s[b].0,
    decreases b - a,
{
    if a + 1 < b {
        lemma_sorted_from_adjacent(s, a + 1, b);
        assert(s[a + 1].0 <= s[a + 1].1);
        assert(s[a].1 + 1 < s[a + 1].0);
    } else {
        assert(s[b - 1].1 + 1 < s[b].0);
    }
}

/// Appends the intervals of `src` to `dst`.
pub(crate) fn append_all(dst: &mut Vec<Interval>, src: &Vec<Interval>)
    ensures
        final(dst)@ == old(dst)@ + src@,
{
    let n = src.len();
    let mut i: usize = 0;
    while i < n
        invariant
            n == src@.len(),
            i <= n,
            dst@ == old(dst)@ + src@.take(i as int),
        decreases n - i,
    {
        dst.push(src[i]);
        proof {
            assert(src@.take(i + 1) == src@.take(i as int).push(src@[i as int]));
        }
        i = i + 1;
    }
    assert(src@.take(n as int) == src@);
}

proof fn lemma_some_list_covers_push(lists: Seq<Seq<Interval>>, k: int, c: int)
    requires
        0 <= k < lists.len(),
    ensures
        some_list_covers(lists.take(k + 1), c) == (some_list_covers(lists.take(k), c) || covers(
            lists[k],
            c,
        )),
{
    let a = lists.take(k);
    let b = lists.take(k + 1);
    if some_list_covers(a, c) {
        let h = choose|h: int| 0 <= h < a.len() && #[trigger] covers(a[h], c);
        assert(b[h] == a[h]);
    }
    if covers(lists[k], c) {
        assert(b[k] == lists[k]);
    }
    if some_list_covers(b, c) {
        let h = choose|h: int| 0 <= h < b.len() && #[trigger] covers(b[h], c);
        if h < k {
            assert(a[h] == b[h]);
        }
    }
}

} // verus!
