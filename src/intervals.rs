//! The interval algebra: normalizing, subtracting and building interval lists.
use vstd::prelude::*;

use crate::Interval;

verus! {

/// Whether the closed interval `iv` holds the codepoint `c`.
pub open spec fn in_interval(iv: Interval, c: int) -> bool {
    iv.0 <= c <= iv.1
}

/// Whether some interval of `s` holds `c`.
pub open spec fn covers(s: Seq<Interval>, c: int) -> bool {
    exists|i: int| 0 <= i < s.len() && #[trigger] in_interval(s[i], c)
}

/// Every interval of `s` has `low <= high`.
pub open spec fn all_valid(s: Seq<Interval>) -> bool {
    forall|i: int| 0 <= i < s.len() ==> (#[trigger] s[i]).0 <= s[i].1
}

/// The canonical form: valid intervals, sorted, with a gap of at least one codepoint
/// between any two of them.
pub open spec fn is_normalized(s: Seq<Interval>) -> bool {
    &&& all_valid(s)
    &&& forall|i: int, j: int| 0 <= i < j < s.len() ==> (#[trigger] s[i]).1 + 1 < (#[trigger] s[j]).0
}

/// `a` and `b` hold the same codepoints.
pub open spec fn same_points(a: Seq<Interval>, b: Seq<Interval>) -> bool {
    forall|c: int| #[trigger] covers(a, c) == covers(b, c)
}

/// Whether some character of `s` has the codepoint `c`.
pub open spec fn has_codepoint(s: Seq<char>, c: int) -> bool {
    exists|i: int| 0 <= i < s.len() && #[trigger] s[i] as u32 == c
}

/// The normalized interval list of the codepoints of the characters of `string`.
pub fn from_str(string: &str) -> (r: Vec<Interval>)
    ensures
        is_normalized(r@),
        forall|c: int| #[trigger] covers(r@, c) == has_codepoint(string@, c),
{
    broadcast use vstd::string::group_string_axioms;

    let mut intervals: Vec<Interval> = Vec::new();
    for ch in it: string.chars()
        invariant
            it.seq() == string@,
            intervals@.len() == it.index(),
            forall|k: int|
                0 <= k < intervals@.len() ==> #[trigger] intervals@[k] == (
                it.seq()[k] as u32,
                it.seq()[k] as u32,
            ),
    {
        intervals.push((ch as u32, ch as u32));
    }
    let ghost singles = intervals@;
    merge(&mut intervals);
    proof {
        assert forall|c: int| #[trigger] covers(singles, c) == has_codepoint(string@, c) by {
            if covers(singles, c) {
                let k = choose|k: int| 0 <= k < singles.len() && #[trigger] in_interval(singles[k], c);
                assert(string@[k] as u32 == c);
            }
            if has_codepoint(string@, c) {
                let k = choose|k: int| 0 <= k < string@.len() && #[trigger] string@[k] as u32 == c;
                assert(in_interval(singles[k], c));
            }
        }
    }
    intervals
}

/// Relies on `slice::sort_by_key`: the intervals are reordered, none added or lost,
/// into ascending order of their low ends.
#[verifier::external_body]
fn sort_by_low(v: &mut Vec<Interval>)
    ensures
        final(v)@.to_multiset() == old(v)@.to_multiset(),
        forall|i: int, j: int|
            0 <= i <= j < final(v)@.len() ==> (#[trigger] final(v)@[i]).0 <= (#[trigger] final(v)@[j]).0,
{
    v.sort_by_key(|iv| iv.0)
}

/// Sorts `intervals` and coalesces the ones that overlap or touch, in place.
pub fn merge(intervals: &mut Vec<Interval>)
    requires
        all_valid(old(intervals)@),
    ensures
        is_normalized(final(intervals)@),
        same_points(final(intervals)@, old(intervals)@),
        is_normalized(old(intervals)@) ==> final(intervals)@ == old(intervals)@,
{
    let ghost orig = intervals@;
    sort_by_low(intervals);
    let ghost s = intervals@;
    proof {
        lemma_multiset_same_points(orig, s);
    }
    let n = intervals.len();
    if n == 0 {
        assert(intervals@ =~= orig) by {
            orig.to_multiset_ensures();
            s.to_multiset_ensures();
        }
        return;
    }
    let mut border: usize = 0;
    let mut index: usize = 1;
    while index < n
        invariant
            n == s.len(),
            intervals@.len() == n,
            all_valid(s),
            forall|i: int, j: int| 0 <= i <= j < n ==> (#[trigger] s[i]).0 <= (#[trigger] s[j]).0,
            1 <= index <= n,
            border < index,
            forall|k: int| index <= k < n ==> intervals@[k] == s[k],
            forall|k: int| index <= k < n ==> intervals@[border as int].0 <= (#[trigger] s[k]).0,
            is_normalized(intervals@.take(border + 1)),
            same_points(intervals@.take(border + 1), s.take(index as int)),
        decreases n - index,
    {
        let interval = intervals[index];
        let current = intervals[border];
        let ghost before = intervals@.take(border + 1);
        if interval.0 <= current.1 || interval.0 - 1 == current.1 {
            if interval.1 > current.1 {
                intervals[border] = (current.0, interval.1);
            }
            proof {
                let after = intervals@.take(border + 1);
                assert forall|c: int| #[trigger] covers(after, c) == covers(s.take(index + 1), c) by {
                    lemma_covers_push(s.take(index as int), s[index as int], c);
                    assert(s.take(index + 1) == s.take(index as int).push(s[index as int]));
                    lemma_covers_extend_last(before, interval, after[border as int], c);
                    assert(after == before.update(border as int, after[border as int]));
                }
                assert forall|i: int, j: int| 0 <= i < j < after.len() implies (#[trigger] after[i]).1
                    + 1 < (#[trigger] after[j]).0 by {
                    assert(before[i].1 + 1 < before[j].0);
                }
                assert forall|i: int| 0 <= i < after.len() implies (#[trigger] after[i]).0 <= after[i].1 by {
                    assert(before[i].0 <= before[i].1);
                }
            }
        } else {
            border = border + 1;
            intervals[border] = interval;
            proof {
                let after = intervals@.take(border + 1);
                assert(after == before.push(interval));
                assert forall|k: int| index + 1 <= k < n implies intervals@[border as int].0 <= (
                #[trigger] s[k]).0 by {
                    assert(s[index as int].0 <= s[k].0);
                }
                assert(s[index as int].0 <= s[index as int].1);
                lemma_push_normalized(before, interval);
                assert forall|c: int| #[trigger] covers(after, c) == covers(s.take(index + 1), c) by {
                    lemma_covers_push(s.take(index as int), s[index as int], c);
                    assert(s.take(index + 1) == s.take(index as int).push(s[index as int]));
                    lemma_covers_push(before, interval, c);
                }
            }
        }
        index = index + 1;
    }
    intervals.truncate(border + 1);
    assert(s.take(n as int) == s);
    assert(intervals@ == intervals@.take(border + 1));
    proof {
        if is_normalized(orig) {
            lemma_normal_form_unique(intervals@, orig);
        }
    }
}

/// Every codepoint below `frontier` is held by `result` exactly when `left` holds it and
/// `right` does not.
pub open spec fn decided_below(
    result: Seq<Interval>,
    left: Seq<Interval>,
    right: Seq<Interval>,
    frontier: int,
) -> bool {
    forall|c: int|
        c < frontier ==> #[trigger] covers(result, c) == (covers(left, c) && !covers(right, c))
}

/// `result` holds no codepoint at or above `frontier`.
pub open spec fn nothing_from(result: Seq<Interval>, frontier: int) -> bool {
    forall|c: int| c >= frontier ==> !#[trigger] covers(result, c)
}

/// Removes from `left` every codepoint that `right` holds.
pub fn subtract(mut left: Vec<Interval>, right: &[Interval]) -> (r: Vec<Interval>)
    requires
        is_normalized(left@),
        is_normalized(right@),
    ensures
        is_normalized(r@),
        forall|c: int| #[trigger] covers(r@, c) == (covers(left@, c) && !covers(right@, c)),
        right@.len() == 0 ==> r@ == left@,
        left@.len() == 0 ==> r@.len() == 0,
        left@ == right@ ==> r@.len() == 0,
{
    let ghost l0 = left@;
    let ghost r0 = right@;
    if right.len() == 0 || left.len() == 0 {
        proof {
            if left@ == right@ {
                assert(l0.len() == 0);
            }
        }
        return left;
    }
    let n = left.len();
    let m = right.len();
    let mut i: usize = 0;
    let mut j: usize = 0;
    let mut result: Vec<Interval> = Vec::with_capacity(n);
    while i < n && j < m
        invariant
            n == l0.len(),
            m == r0.len(),
            left@.len() == n,
            right@ == r0,
            is_normalized(l0),
            is_normalized(r0),
            i <= n,
            j <= m,
            forall|k: int| i < k < n ==> left@[k] == l0[k],
            i < n ==> left@[i as int].1 == l0[i as int].1 && l0[i as int].0 <= left@[i as int].0
                <= left@[i as int].1,
            i < n && j > 0 ==> r0[j - 1].1 < left@[i as int].0,
            is_normalized(result@),
            i < n && result@.len() > 0 ==> result@.last().1 + 1 < left@[i as int].0,
            i < n ==> decided_below(result@, l0, r0, left@[i as int].0 as int),
            i < n ==> nothing_from(result@, left@[i as int].0 as int),
            i >= n ==> forall|c: int| #[trigger]
                covers(result@, c) == (covers(l0, c) && !covers(r0, c)),
        decreases n - i + m - j,
    {
        let (ll, lr) = left[i];
        let (rl, rr) = right[j];
        let ghost before = result@;
        proof {
            lemma_below_prefix(r0, j as int, ll as int);
        }
        if rr < ll {
            j = j + 1;
        } else if rl > lr {
            result.push((ll, lr));
            proof {
                assert forall|c: int| ll <= c <= lr implies covers(l0, c) && !covers(r0, c) by {
                    lemma_not_covered_between(r0, j as int, c);
                    assert(in_interval(l0[i as int], c));
                }
                lemma_push_piece(before, l0, r0, i as int, ll as int, lr as int);
            }
            i = i + 1;
        } else if rl <= ll {
            if rr >= lr {
                proof {
                    assert forall|c: int| ll <= c <= lr implies covers(r0, c) by {
                        assert(in_interval(r0[j as int], c));
                    }
                    lemma_step_past_left(before, before, l0, r0, i as int, ll as int);
                }
                i = i + 1;
            } else {
                left[i] = (rr + 1, lr);
                proof {
                    assert forall|c: int| c < rr + 1 implies #[trigger] covers(result@, c) == (
                    covers(l0, c) && !covers(r0, c)) by {
                        if c >= ll {
                            assert(in_interval(r0[j as int], c));
                        }
                    }
                }
                j = j + 1;
            }
        } else {
            result.push((ll, rl - 1));
            proof {
                assert forall|c: int| ll <= c < rl implies covers(l0, c) && !covers(r0, c) by {
                    lemma_not_covered_between(r0, j as int, c);
                    assert(in_interval(l0[i as int], c));
                }
                assert forall|c: int| rl <= c <= rr implies covers(r0, c) by {
                    assert(in_interval(r0[j as int], c));
                }
                assert forall|c: int| #[trigger] covers(result@, c) == (covers(before, c) || (ll
                    <= c < rl)) by {
                    lemma_covers_push(before, (ll, (rl - 1) as u32), c);
                }
                lemma_push_normalized(before, (ll, (rl - 1) as u32));
            }
            if rr < lr {
                left[i] = (rr + 1, lr);
                j = j + 1;
            } else {
                proof {
                    lemma_step_past_left(before, result@, l0, r0, i as int, ll as int);
                }
                i = i + 1;
            }
        }
    }
    if i < n {
        proof {
            lemma_below_prefix(r0, m as int, left@[i as int].0 as int);
        }
        let ghost start = i;
        while i < n
            invariant
                n == l0.len(),
                m == r0.len(),
                left@.len() == n,
                is_normalized(l0),
                is_normalized(r0),
                start <= i <= n,
                forall|k: int| start < k < n ==> left@[k] == l0[k],
                left@[start as int].1 == l0[start as int].1,
                l0[start as int].0 <= left@[start as int].0 <= left@[start as int].1,
                forall|k: int| 0 <= k < m ==> (#[trigger] r0[k]).1 < left@[start as int].0,
                i < n ==> left@[start as int].0 <= left@[i as int].0,
                is_normalized(result@),
                i < n && result@.len() > 0 ==> result@.last().1 + 1 < left@[i as int].0,
                i < n ==> decided_below(result@, l0, r0, left@[i as int].0 as int),
                i < n ==> nothing_from(result@, left@[i as int].0 as int),
                i >= n ==> forall|c: int| #[trigger]
                    covers(result@, c) == (covers(l0, c) && !covers(r0, c)),
            decreases n - i,
        {
            let (ll, lr) = left[i];
            let ghost before = result@;
            result.push((ll, lr));
            proof {
                assert forall|c: int| ll <= c <= lr implies covers(l0, c) && !covers(r0, c) by {
                    lemma_not_covered_between(r0, m as int, c);
                    assert(in_interval(l0[i as int], c));
                }
                lemma_push_piece(before, l0, r0, i as int, ll as int, lr as int);
                if i + 1 < n {
                    assert(l0[i as int].1 + 1 < l0[i + 1].0);
                }
            }
            i = i + 1;
        }
    }
    proof {
        if l0 == r0 {
            lemma_no_points_empty(result@);
        }
    }
    result
}

/// Appending a valid interval that starts more than one past the end of a normalized
/// list keeps it normalized.
pub(crate) proof fn lemma_push_normalized(s: Seq<Interval>, iv: Interval)
    requires
        is_normalized(s),
        iv.0 <= iv.1,
        s.len() > 0 ==> s.last().1 + 1 < iv.0,
    ensures
        is_normalized(s.push(iv)),
{
    let t = s.push(iv);
    assert forall|k: int, h: int| 0 <= k < h < t.len() implies (#[trigger] t[k]).1 + 1 < (
    #[trigger] t[h]).0 by {
        if h == t.len() - 1 && k < h - 1 {
            assert(s[k].1 + 1 < s[h - 1].0);
            assert(s[h - 1].0 <= s[h - 1].1);
        }
    }
}

/// Every interval of `s` before `j` ends below `x` once the last of them does.
proof fn lemma_below_prefix(s: Seq<Interval>, j: int, x: int)
    requires
        is_normalized(s),
        0 <= j <= s.len(),
        j > 0 ==> s[j - 1].1 < x,
    ensures
        forall|k: int| 0 <= k < j ==> (#[trigger] s[k]).1 < x,
{
    assert forall|k: int| 0 <= k < j implies (#[trigger] s[k]).1 < x by {
        if k < j - 1 {
            assert(s[k].1 + 1 < s[j - 1].0);
            assert(s[j - 1].0 <= s[j - 1].1);
        }
    }
}

/// A codepoint above every interval before `k` and below interval `k` is not held.
proof fn lemma_not_covered_between(s: Seq<Interval>, k: int, c: int)
    requires
        is_normalized(s),
        0 <= k <= s.len(),
        forall|h: int| 0 <= h < k ==> (#[trigger] s[h]).1 < c,
        k < s.len() ==> c < s[k].0,
    ensures
        !covers(s, c),
{
    if covers(s, c) {
        let h = choose|h: int| 0 <= h < s.len() && #[trigger] in_interval(s[h], c);
        if h > k {
            assert(s[k].1 + 1 < s[h].0);
            assert(s[k].0 <= s[k].1);
        }
    }
}

/// Emitting the rest `[low, high]` of interval `i` of `left`, all of it outside `right`,
/// moves the frontier up to the next interval of `left`.
proof fn lemma_push_piece(
    before: Seq<Interval>,
    left: Seq<Interval>,
    right: Seq<Interval>,
    i: int,
    low: int,
    high: int,
)
    requires
        is_normalized(left),
        0 <= i < left.len(),
        left[i].0 <= low <= high,
        high == left[i].1,
        high <= u32::MAX,
        0 <= low,
        decided_below(before, left, right, low),
        nothing_from(before, low),
        forall|c: int| low <= c <= high ==> covers(left, c) && !covers(right, c),
        is_normalized(before),
        before.len() > 0 ==> before.last().1 + 1 < low,
    ensures
        is_normalized(before.push((low as u32, high as u32))),
        i + 1 < left.len() ==> decided_below(before.push((low as u32, high as u32)), left, right, left[i + 1].0 as int),
        i + 1 < left.len() ==> nothing_from(before.push((low as u32, high as u32)), left[i + 1].0 as int),
        i + 1 >= left.len() ==> forall|c: int| #[trigger]
            covers(before.push((low as u32, high as u32)), c) == (covers(left, c) && !covers(right, c)),
{
    let iv = (low as u32, high as u32);
    let after = before.push(iv);
    lemma_push_normalized(before, iv);
    assert forall|c: int| #[trigger] covers(after, c) == (covers(before, c) || (low <= c <= high)) by {
        lemma_covers_push(before, iv, c);
    }
    lemma_step_past_left(before, after, left, right, i, low);
}

/// Once everything of interval `i` of `left` from `low` on has been decided in `after`,
/// the frontier moves up to the next interval of `left`.
proof fn lemma_step_past_left(
    before: Seq<Interval>,
    after: Seq<Interval>,
    left: Seq<Interval>,
    right: Seq<Interval>,
    i: int,
    low: int,
)
    requires
        is_normalized(left),
        0 <= i < left.len(),
        left[i].0 <= low,
        decided_below(before, left, right, low),
        nothing_from(before, low),
        forall|c: int| c < low ==> #[trigger] covers(after, c) == covers(before, c),
        forall|c: int|
            low <= c <= left[i].1 ==> #[trigger] covers(after, c) == (covers(left, c) && !covers(
                right,
                c,
            )),
        forall|c: int| c > left[i].1 ==> !#[trigger] covers(after, c),
    ensures
        i + 1 < left.len() ==> decided_below(after, left, right, left[i + 1].0 as int),
        i + 1 < left.len() ==> nothing_from(after, left[i + 1].0 as int),
        i + 1 >= left.len() ==> forall|c: int| #[trigger]
            covers(after, c) == (covers(left, c) && !covers(right, c)),
{
    assert forall|c: int| c > left[i].1 && (i + 1 < left.len() ==> c < left[i + 1].0) implies !covers(
        left,
        c,
    ) by {
        lemma_below_prefix(left, i + 1, c);
        lemma_not_covered_between(left, i + 1, c);
    }
    if i + 1 < left.len() {
        assert(left[i].1 + 1 < left[i + 1].0);
        assert(left[i + 1].0 <= left[i + 1].1);
        assert forall|c: int| c >= left[i + 1].0 implies !#[trigger] covers(after, c) by {}
    }
}

/// A normalized list that holds no codepoint is empty.
proof fn lemma_no_points_empty(s: Seq<Interval>)
    requires
        is_normalized(s),
        forall|c: int| !#[trigger] covers(s, c),
    ensures
        s.len() == 0,
{
    if s.len() > 0 {
        assert(in_interval(s[0], s[0].0 as int));
        assert(covers(s, s[0].0 as int));
    }
}

/// The codepoints of a concatenation are those of its two parts.
pub proof fn lemma_covers_concat(a: Seq<Interval>, b: Seq<Interval>, c: int)
    ensures
        covers(a + b, c) == (covers(a, c) || covers(b, c)),
{
    let s = a + b;
    if covers(a, c) {
        let i = choose|i: int| 0 <= i < a.len() && #[trigger] in_interval(a[i], c);
        assert(in_interval(s[i], c));
    }
    if covers(b, c) {
        let i = choose|i: int| 0 <= i < b.len() && #[trigger] in_interval(b[i], c);
        assert(in_interval(s[a.len() + i], c));
    }
    if covers(s, c) {
        let i = choose|i: int| 0 <= i < s.len() && #[trigger] in_interval(s[i], c);
        if i < a.len() {
            assert(in_interval(a[i], c));
        } else {
            assert(in_interval(b[i - a.len()], c));
        }
    }
}

/// A normalized interval list is determined by the codepoints it holds: two normalized
/// lists that hold the same codepoints are equal.
pub proof fn lemma_normal_form_unique(a: Seq<Interval>, b: Seq<Interval>)
    requires
        is_normalized(a),
        is_normalized(b),
        same_points(a, b),
    ensures
        a == b,
    decreases a.len() + b.len(),
{
    if a.len() == 0 || b.len() == 0 {
        if a.len() > 0 {
            assert(in_interval(a[0], a[0].0 as int));
            assert(covers(a, a[0].0 as int));
            assert(covers(b, a[0].0 as int));
            lemma_first_is_least(b, a[0].0 as int);
        }
        if b.len() > 0 {
            assert(in_interval(b[0], b[0].0 as int));
            assert(covers(b, b[0].0 as int));
            assert(covers(a, b[0].0 as int));
            lemma_first_is_least(a, b[0].0 as int);
        }
        assert(a =~= b);
    } else {
        assert(in_interval(a[0], a[0].0 as int));
        assert(covers(a, a[0].0 as int));
        assert(in_interval(b[0], b[0].0 as int));
        assert(covers(b, b[0].0 as int));
        lemma_first_is_least(a, b[0].0 as int);
        lemma_first_is_least(b, a[0].0 as int);
        if a[0].1 < b[0].1 {
            let c = a[0].1 + 1;
            assert(in_interval(b[0], c));
            assert(covers(b, c));
            lemma_covers_drop_first(a, c);
            lemma_first_is_least(a.drop_first(), c);
            assert(a[1].0 == a.drop_first()[0].0);
            assert(a[0].1 + 1 < a[1].0);
        }
        if b[0].1 < a[0].1 {
            let c = b[0].1 + 1;
            assert(in_interval(a[0], c));
            assert(covers(a, c));
            lemma_covers_drop_first(b, c);
            lemma_first_is_least(b.drop_first(), c);
            assert(b[1].0 == b.drop_first()[0].0);
            assert(b[0].1 + 1 < b[1].0);
        }
        let ta = a.drop_first();
        let tb = b.drop_first();
        assert forall|c: int| #[trigger] covers(ta, c) == covers(tb, c) by {
            lemma_covers_drop_first(a, c);
            lemma_covers_drop_first(b, c);
        }
        assert forall|i: int, j: int| 0 <= i < j < ta.len() implies (#[trigger] ta[i]).1 + 1 < (
        #[trigger] ta[j]).0 by {
            assert(a[i + 1].1 + 1 < a[j + 1].0);
        }
        assert forall|i: int, j: int| 0 <= i < j < tb.len() implies (#[trigger] tb[i]).1 + 1 < (
        #[trigger] tb[j]).0 by {
            assert(b[i + 1].1 + 1 < b[j + 1].0);
        }
        assert forall|i: int| 0 <= i < ta.len() implies (#[trigger] ta[i]).0 <= ta[i].1 by {
            assert(a[i + 1].0 <= a[i + 1].1);
        }
        assert forall|i: int| 0 <= i < tb.len() implies (#[trigger] tb[i]).0 <= tb[i].1 by {
            assert(b[i + 1].0 <= b[i + 1].1);
        }
        lemma_normal_form_unique(ta, tb);
        assert forall|i: int| 0 <= i < a.len() implies a[i] == b[i] by {
            if i > 0 {
                assert(a[i] == ta[i - 1]);
                assert(b[i] == tb[i - 1]);
            }
        }
        assert(a =~= b);
    }
}

/// In a normalized list no codepoint lies below the first interval.
proof fn lemma_first_is_least(s: Seq<Interval>, c: int)
    requires
        is_normalized(s),
        covers(s, c),
    ensures
        s.len() > 0,
        s[0].0 <= c,
{
    let i = choose|i: int| 0 <= i < s.len() && #[trigger] in_interval(s[i], c);
    if i > 0 {
        assert(s[0].1 + 1 < s[i].0);
        assert(s[0].0 <= s[0].1);
    }
}

/// Dropping the first interval of a normalized list drops exactly the codepoints up to
/// its high end.
proof fn lemma_covers_drop_first(s: Seq<Interval>, c: int)
    requires
        is_normalized(s),
        s.len() > 0,
    ensures
        covers(s.drop_first(), c) == (covers(s, c) && c > s[0].1),
{
    let t = s.drop_first();
    if covers(t, c) {
        let i = choose|i: int| 0 <= i < t.len() && #[trigger] in_interval(t[i], c);
        assert(in_interval(s[i + 1], c));
        assert(s[0].1 + 1 < s[i + 1].0);
    }
    if covers(s, c) && c > s[0].1 {
        let i = choose|i: int| 0 <= i < s.len() && #[trigger] in_interval(s[i], c);
        assert(i != 0);
        assert(in_interval(t[i - 1], c));
    }
}

proof fn lemma_multiset_same_points(a: Seq<Interval>, b: Seq<Interval>)
    requires
        a.to_multiset() == b.to_multiset(),
    ensures
        same_points(a, b),
        all_valid(a) ==> all_valid(b),
{
    a.to_multiset_ensures();
    b.to_multiset_ensures();
    assert forall|c: int| #[trigger] covers(a, c) == covers(b, c) by {
        if covers(a, c) {
            let i = choose|i: int| 0 <= i < a.len() && #[trigger] in_interval(a[i], c);
            assert(a.contains(a[i]));
            assert(a.to_multiset().count(a[i]) > 0);
            assert(b.contains(a[i]));
        }
        if covers(b, c) {
            let i = choose|i: int| 0 <= i < b.len() && #[trigger] in_interval(b[i], c);
            assert(b.contains(b[i]));
            assert(b.to_multiset().count(b[i]) > 0);
            assert(a.contains(b[i]));
        }
    }
    if all_valid(a) {
        assert forall|i: int| 0 <= i < b.len() implies (#[trigger] b[i]).0 <= b[i].1 by {
            assert(b.contains(b[i]));
            assert(b.to_multiset().count(b[i]) > 0);
            assert(a.contains(b[i]));
        }
    }
}

proof fn lemma_covers_extend_last(s: Seq<Interval>, iv: Interval, last: Interval, c: int)
    requires
        s.len() > 0,
        s.last().0 <= iv.0 <= s.last().1 + 1,
        last.0 == s.last().0,
        last.1 == if iv.1 > s.last().1 { iv.1 } else { s.last().1 },
    ensures
        covers(s.update(s.len() - 1, last), c) == (covers(s, c) || in_interval(iv, c)),
{
    let t = s.update(s.len() - 1, last);
    let k = s.len() - 1;
    if covers(s, c) {
        let i = choose|i: int| 0 <= i < s.len() && #[trigger] in_interval(s[i], c);
        if i == k {
            assert(in_interval(t[k], c));
        } else {
            assert(in_interval(t[i], c));
        }
    }
    if in_interval(iv, c) {
        assert(in_interval(t[k], c));
    }
    if covers(t, c) {
        let i = choose|i: int| 0 <= i < t.len() && #[trigger] in_interval(t[i], c);
        if i == k {
            if !in_interval(s[k], c) {
                assert(in_interval(iv, c));
            }
        } else {
            assert(in_interval(s[i], c));
        }
    }
}

pub(crate) proof fn lemma_covers_push(s: Seq<Interval>, iv: Interval, c: int)
    ensures
        covers(s.push(iv), c) == (covers(s, c) || in_interval(iv, c)),
{
    let t = s.push(iv);
    if covers(s, c) {
        let i = choose|i: int| 0 <= i < s.len() && #[trigger] in_interval(s[i], c);
        assert(in_interval(t[i], c));
    }
    if in_interval(iv, c) {
        assert(in_interval(t[s.len() as int], c));
    }
    if covers(t, c) {
        let i = choose|i: int| 0 <= i < t.len() && #[trigger] in_interval(t[i], c);
        if i < s.len() {
            assert(in_interval(s[i], c));
        }
    }
}

} // verus!
