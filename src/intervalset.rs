//! Random access to the codepoints of a normalized interval list, in ascending order.
use vstd::prelude::*;

use crate::intervals::{covers, in_interval, is_normalized};
use crate::table::within_codepoints;
use crate::{Interval, MAX_CODEPOINT};

verus! {

/// The codepoints of `iv`, in ascending order.
pub open spec fn span(iv: Interval) -> Seq<u32> {
    Seq::new((iv.1 - iv.0 + 1) as nat, |t: int| (iv.0 + t) as u32)
}

/// The codepoints of the intervals of `s`, interval after interval.
pub open spec fn flatten(s: Seq<Interval>) -> Seq<u32>
    decreases s.len(),
{
    if s.len() == 0 {
        Seq::empty()
    } else {
        flatten(s.drop_last()) + span(s.last())
    }
}

/// Whether `s` is strictly ascending.
pub open spec fn strictly_ascending(s: Seq<u32>) -> bool {
    forall|a: int, b: int| 0 <= a < b < s.len() ==> #[trigger] s[a] < #[trigger] s[b]
}

proof fn lemma_flatten_step(s: Seq<Interval>, i: int)
    requires
        0 <= i < s.len(),
    ensures
        flatten(s.take(i + 1)) == flatten(s.take(i)) + span(s[i]),
{
    assert(s.take(i + 1).drop_last() == s.take(i));
}

/// The codepoints of the first `i` intervals begin the codepoints of all of them.
proof fn lemma_flatten_prefix(s: Seq<Interval>, i: int)
    requires
        0 <= i <= s.len(),
        forall|k: int| 0 <= k < s.len() ==> (#[trigger] s[k]).0 <= s[k].1,
    ensures
        flatten(s.take(i)).len() <= flatten(s).len(),
        forall|k: int|
            0 <= k < flatten(s.take(i)).len() ==> #[trigger] flatten(s)[k] == flatten(s.take(i))[k],
    decreases s.len() - i,
{
    if i == s.len() {
        assert(s.take(i) == s);
    } else {
        lemma_flatten_step(s, i);
        lemma_flatten_prefix(s, i + 1);
        assert forall|k: int| 0 <= k < flatten(s.take(i)).len() implies #[trigger] flatten(s)[k]
            == flatten(s.take(i))[k] by {
            assert(flatten(s.take(i + 1))[k] == flatten(s.take(i))[k]);
        }
    }
}

/// Codepoint `t` of interval `i` stands right after the codepoints of the intervals
/// before it.
proof fn lemma_flatten_at(s: Seq<Interval>, i: int, t: int)
    requires
        0 <= i < s.len(),
        0 <= t <= s[i].1 - s[i].0,
        forall|k: int| 0 <= k < s.len() ==> (#[trigger] s[k]).0 <= s[k].1,
    ensures
        flatten(s.take(i)).len() + t < flatten(s).len(),
        flatten(s)[flatten(s.take(i)).len() + t] == s[i].0 + t,
{
    lemma_flatten_step(s, i);
    lemma_flatten_prefix(s, i + 1);
    let k = flatten(s.take(i)).len() + t;
    assert(flatten(s.take(i + 1))[k] == span(s[i])[t]);
}

/// The codepoints of a normalized list ascend strictly, up to the high end of its last
/// interval.
proof fn lemma_flatten_ascending(s: Seq<Interval>)
    requires
        is_normalized(s),
    ensures
        strictly_ascending(flatten(s)),
        s.len() > 0 ==> flatten(s).len() <= s.last().1 + 1,
        s.len() > 0 ==> forall|k: int| 0 <= k < flatten(s).len() ==> #[trigger] flatten(s)[k]
            <= s.last().1,
    decreases s.len(),
{
    if s.len() > 0 {
        let p = s.drop_last();
        assert forall|a: int, b: int| 0 <= a < b < p.len() implies (#[trigger] p[a]).1 + 1 < (
        #[trigger] p[b]).0 by {
            assert(s[a].1 + 1 < s[b].0);
        }
        assert forall|a: int| 0 <= a < p.len() implies (#[trigger] p[a]).0 <= p[a].1 by {
            assert(s[a].0 <= s[a].1);
        }
        lemma_flatten_ascending(p);
        let f = flatten(s);
        let fp = flatten(p);
        let last = s.last();
        assert(last.0 <= last.1);
        if p.len() > 0 {
            assert(p.last().1 + 1 < last.0);
        }
        assert forall|a: int, b: int| 0 <= a < b < f.len() implies #[trigger] f[a] < #[trigger] f[b] by {
            if b < fp.len() {
                assert(f[a] == fp[a]);
                assert(f[b] == fp[b]);
            } else if a >= fp.len() {
                assert(f[a] == span(last)[a - fp.len()]);
                assert(f[b] == span(last)[b - fp.len()]);
            } else {
                assert(f[a] == fp[a]);
                assert(f[b] == span(last)[b - fp.len()]);
            }
        }
        assert forall|k: int| 0 <= k < f.len() implies #[trigger] f[k] <= last.1 by {
            if k < fp.len() {
                assert(f[k] == fp[k]);
            } else {
                assert(f[k] == span(last)[k - fp.len()]);
            }
        }
    }
}

/// A codepoint appears among the flattened codepoints exactly when an interval holds it.
proof fn lemma_flatten_contains(s: Seq<Interval>, c: u32)
    requires
        forall|k: int| 0 <= k < s.len() ==> (#[trigger] s[k]).0 <= s[k].1,
    ensures
        flatten(s).contains(c) == covers(s, c as int),
    decreases s.len(),
{
    if s.len() > 0 {
        let p = s.drop_last();
        assert forall|a: int| 0 <= a < p.len() implies (#[trigger] p[a]).0 <= p[a].1 by {
            assert(s[a].0 <= s[a].1);
        }
        lemma_flatten_contains(p, c);
        let f = flatten(s);
        let fp = flatten(p);
        let last = s.last();
        if f.contains(c) {
            let k = choose|k: int| 0 <= k < f.len() && f[k] == c;
            if k < fp.len() {
                assert(fp[k] == f[k]);
                assert(fp.contains(c));
                let i = choose|i: int| 0 <= i < p.len() && #[trigger] in_interval(p[i], c as int);
                assert(in_interval(s[i], c as int));
            } else {
                assert(f[k] == span(last)[k - fp.len()]);
                assert(in_interval(s[s.len() - 1], c as int));
            }
        }
        if covers(s, c as int) {
            let i = choose|i: int| 0 <= i < s.len() && #[trigger] in_interval(s[i], c as int);
            if i < p.len() {
                assert(in_interval(p[i], c as int));
                let k = choose|k: int| 0 <= k < fp.len() && fp[k] == c;
                assert(f[k] == fp[k]);
            } else {
                let t = c - last.0;
                assert(f[fp.len() + t] == span(last)[t]);
            }
        }
    }
}

/// A normalized interval list with the offset of each interval's first codepoint, giving
/// rank and select over its codepoints.
#[derive(Debug, Clone)]
pub struct IntervalSet {
    intervals: Vec<Interval>,
    offsets: Vec<u32>,
    size: u32,
}

impl View for IntervalSet {
    type V = Seq<u32>;

    /// The codepoints of the set, in ascending order.
    closed spec fn view(&self) -> Seq<u32> {
        flatten(self.intervals@)
    }
}

impl IntervalSet {
    /// The intervals the set was built from.
    pub closed spec fn intervals(self) -> Seq<Interval> {
        self.intervals@
    }

    /// The offsets agree with the intervals and the size.
    pub closed spec fn wf(self) -> bool {
        &&& is_normalized(self.intervals@)
        &&& within_codepoints(self.intervals@)
        &&& self.offsets@.len() == self.intervals@.len() + 1
        &&& forall|i: int|
            0 <= i <= self.intervals@.len() ==> #[trigger] self.offsets@[i] == flatten(
                self.intervals@.take(i),
            ).len()
        &&& self.size == flatten(self.intervals@).len()
    }

    /// The ordinal of `c`, when the set holds it.
    pub open spec fn spec_index_of(self, c: u32) -> Option<u32> {
        if self@.contains(c) {
            Some((choose|i: int| 0 <= i < self@.len() && self@[i] == c) as u32)
        } else {
            None
        }
    }

    /// The codepoint of ordinal `index`, when there is one.
    pub open spec fn spec_codepoint_at(self, index: u32) -> Option<u32> {
        if index < self@.len() {
            Some(self@[index as int])
        } else {
            None
        }
    }

    /// Whether `k` splits the codepoints into those below `c` and those from `c` on.
    pub open spec fn splits_at(self, k: int, c: u32) -> bool {
        &&& 0 <= k <= self@.len()
        &&& forall|j: int| 0 <= j < k ==> #[trigger] self@[j] < c
        &&& forall|j: int| k <= j < self@.len() ==> #[trigger] self@[j] >= c
    }

    /// The ordinal of the first codepoint at or above `c`: the number of codepoints below
    /// `c`.
    pub open spec fn spec_index_above(self, c: u32) -> u32 {
        (choose|k: int| self.splits_at(k, c)) as u32
    }

    /// The codepoints of a well-formed set ascend strictly and number at most one more than
    /// the largest codepoint.
    pub proof fn lemma_ascending(self)
        requires
            self.wf(),
        ensures
            strictly_ascending(self@),
            self@.len() <= MAX_CODEPOINT + 1,
            forall|c: u32| #[trigger] self@.contains(c) == covers(self.intervals(), c as int),
    {
        lemma_flatten_ascending(self.intervals@);
        assert forall|c: u32| #[trigger] self@.contains(c) == covers(self.intervals(), c as int) by {
            lemma_flatten_contains(self.intervals@, c);
        }
        if self.intervals@.len() > 0 {
            assert(self.intervals@.last().1 <= MAX_CODEPOINT);
        }
    }

    /// Builds the offsets of a normalized interval list.
    pub fn new(intervals: Vec<Interval>) -> (r: IntervalSet)
        requires
            is_normalized(intervals@),
            within_codepoints(intervals@),
        ensures
            r.wf(),
            r.intervals() == intervals@,
            r@ == flatten(intervals@),
    {
        let ghost s = intervals@;
        let n = intervals.len();
        let mut offsets: Vec<u32> = Vec::with_capacity(n);
        offsets.push(0);
        let mut size: u32 = 0;
        let mut i: usize = 0;
        proof {
            lemma_flatten_ascending(s);
            if n > 0 {
                assert(s.last().1 <= MAX_CODEPOINT);
            }
            assert(s.take(0) == Seq::<Interval>::empty());
        }
        while i < n
            invariant
                n == s.len(),
                intervals@ == s,
                is_normalized(s),
                flatten(s).len() <= MAX_CODEPOINT + 1,
                i <= n,
                offsets@.len() == i + 1,
                forall|k: int| 0 <= k <= i ==> #[trigger] offsets@[k] == flatten(s.take(k)).len(),
                size == flatten(s.take(i as int)).len(),
            decreases n - i,
        {
            let (left, right) = intervals[i];
            proof {
                assert(s[i as int].0 <= s[i as int].1);
                lemma_flatten_step(s, i as int);
                lemma_flatten_prefix(s, i + 1);
            }
            size = size + (right - left + 1);
            offsets.push(size);
            i = i + 1;
        }
        proof {
            assert(s.take(n as int) == s);
        }
        IntervalSet { intervals, offsets, size }
    }

    /// Returns the number of Unicode codepoints in the interval set.
    pub fn len(&self) -> (r: usize)
        requires
            self.wf(),
        ensures
            r == self@.len(),
    {
        self.size as usize
    }

    /// Returns `true` if the interval set contains no elements.
    pub fn is_empty(&self) -> (r: bool)
        requires
            self.wf(),
        ensures
            r == (self@.len() == 0),
    {
        self.size == 0
    }

    /// Returns `true` if the interval set contains a codepoint with the given value.
    pub fn contains(&self, codepoint: u32) -> (r: bool)
        requires
            self.wf(),
        ensures
            r == self@.contains(codepoint),
    {
        self.index_of(codepoint).is_some()
    }

    /// Returns the codepoint at `index` in the `IntervalSet`.
    pub fn codepoint_at(&self, index: u32) -> (r: Option<u32>)
        requires
            self.wf(),
        ensures
            r == self.spec_codepoint_at(index),
    {
        if index >= self.size {
            return None;
        }
        let ghost s = self.intervals@;
        let n = self.intervals.len();
        proof {
            if n == 0 {
                assert(s == Seq::<Interval>::empty());
            }
        }
        let mut current = n - 1;
        if self.offsets[current] > index {
            let mut high = current;
            let mut low: usize = 0;
            proof {
                assert(s.take(0) == Seq::<Interval>::empty());
            }
            while low + 1 < high
                invariant
                    self.wf(),
                    s == self.intervals@,
                    n == s.len(),
                    low < high < n,
                    self.offsets@[low as int] <= index < self.offsets@[high as int],
                decreases high - low,
            {
                let mid = low + (high - low) / 2;
                if self.offsets[mid] <= index {
                    low = mid;
                } else {
                    high = mid;
                }
            }
            current = low;
        }
        let (left, right) = self.intervals[current];
        let offset = self.offsets[current];
        proof {
            lemma_flatten_step(s, current as int);
            assert(s[current as int].0 <= s[current as int].1);
            lemma_flatten_at(s, current as int, index - offset);
        }
        Some(left + (index - offset))
    }

    /// Returns the index of a specific codepoint in the `IntervalSet`.
    pub fn index_of(&self, codepoint: u32) -> (r: Option<u32>)
        requires
            self.wf(),
        ensures
            r == self.spec_index_of(codepoint),
    {
        let ghost s = self.intervals@;
        let n = self.intervals.len();
        proof {
            self.lemma_ascending();
        }
        let mut i: usize = 0;
        while i < n
            invariant
                self.wf(),
                s == self.intervals@,
                n == s.len(),
                i <= n,
                strictly_ascending(self@),
                self@.len() <= MAX_CODEPOINT + 1,
                forall|c: u32| #[trigger] self@.contains(c) == covers(s, c as int),
                forall|k: int| 0 <= k < i ==> (#[trigger] s[k]).1 < codepoint,
            decreases n - i,
        {
            let (left, right) = self.intervals[i];
            let offset = self.offsets[i];
            if left > codepoint {
                proof {
                    self.lemma_absent(codepoint, i as int);
                }
                return None;
            } else if codepoint <= right {
                proof {
                    lemma_flatten_at(s, i as int, codepoint - left);
                    self.lemma_index_of_unique(codepoint, (offset + (codepoint - left)) as int);
                }
                return Some(offset + (codepoint - left));
            }
            i = i + 1;
        }
        proof {
            self.lemma_absent(codepoint, n as int);
        }
        None
    }

    /// Returns the index of a specific codepoint in the `IntervalSet` if it is present in
    /// the set, or the index of the closest codepoint that is greater than the given one;
    /// the set's size when the codepoint is above every codepoint of the set.
    pub fn index_above(&self, codepoint: u32) -> (r: u32)
        requires
            self.wf(),
        ensures
            r == self.spec_index_above(codepoint),
            self.splits_at(r as int, codepoint),
    {
        let ghost s = self.intervals@;
        let n = self.intervals.len();
        proof {
            self.lemma_ascending();
        }
        let mut i: usize = 0;
        while i < n
            invariant
                self.wf(),
                s == self.intervals@,
                n == s.len(),
                i <= n,
                strictly_ascending(self@),
                self@.len() <= MAX_CODEPOINT + 1,
                forall|k: int| 0 <= k < i ==> (#[trigger] s[k]).1 < codepoint,
            decreases n - i,
        {
            let (left, right) = self.intervals[i];
            let offset = self.offsets[i];
            if left >= codepoint {
                proof {
                    self.lemma_below_interval(codepoint, i as int);
                    lemma_flatten_at(s, i as int, 0);
                    self.lemma_splits_unique(offset as int, codepoint);
                }
                return offset;
            } else if codepoint <= right {
                proof {
                    lemma_flatten_at(s, i as int, codepoint - left);
                    self.lemma_below_interval(codepoint, i as int);
                    self.lemma_splits_unique((offset + (codepoint - left)) as int, codepoint);
                }
                return offset + (codepoint - left);
            }
            i = i + 1;
        }
        proof {
            self.lemma_below_interval(codepoint, n as int);
            assert(s.take(n as int) == s);
            self.lemma_splits_unique(self.size as int, codepoint);
        }
        self.size
    }

    /// Returns all codepoints in all contained intervals, in ascending order.
    pub fn iter(&self) -> (r: Vec<u32>)
        requires
            self.wf(),
        ensures
            r@ == self@,
    {
        let ghost s = self.intervals@;
        let n = self.intervals.len();
        let mut r: Vec<u32> = Vec::with_capacity(self.size as usize);
        let mut i: usize = 0;
        proof {
            assert(s.take(0) == Seq::<Interval>::empty());
        }
        while i < n
            invariant
                self.wf(),
                s == self.intervals@,
                n == s.len(),
                i <= n,
                r@ == flatten(s.take(i as int)),
            decreases n - i,
        {
            let (left, right) = self.intervals[i];
            proof {
                lemma_flatten_step(s, i as int);
                assert(s[i as int].0 <= s[i as int].1);
            }
            let mut c = left;
            while c < right
                invariant
                    left <= c <= right,
                    r@ == flatten(s.take(i as int)) + span((left, right)).take(c - left),
                decreases right - c,
            {
                r.push(c);
                proof {
                    assert(span((left, right)).take(c - left + 1) == span((left, right)).take(c - left).push(c));
                }
                c = c + 1;
            }
            r.push(right);
            proof {
                assert(span((left, right)).take(right - left + 1) == span((left, right)));
                assert(span((left, right)).take(right - left).push(right) == span((left, right)));
                assert(s[i as int] == (left, right));
            }
            i = i + 1;
        }
        proof {
            assert(s.take(n as int) == s);
        }
        r
    }

    /// Once every interval before `i` ends below `c` and interval `i`, if any, starts above
    /// it, the set does not hold `c`.
    proof fn lemma_absent(self, c: u32, i: int)
        requires
            self.wf(),
            0 <= i <= self.intervals@.len(),
            forall|k: int| 0 <= k < i ==> (#[trigger] self.intervals@[k]).1 < c,
            i < self.intervals@.len() ==> self.intervals@[i].0 > c,
        ensures
            self.spec_index_of(c) is None,
    {
        let s = self.intervals@;
        lemma_flatten_contains(s, c);
        if covers(s, c as int) {
            let k = choose|k: int| 0 <= k < s.len() && #[trigger] in_interval(s[k], c as int);
            if k > i {
                assert(s[i].1 + 1 < s[k].0);
                assert(s[i].0 <= s[i].1);
            }
        }
    }

    /// The ordinal of a codepoint of the set is the only position that holds it.
    proof fn lemma_index_of_unique(self, c: u32, k: int)
        requires
            self.wf(),
            strictly_ascending(self@),
            0 <= k < self@.len(),
            self@[k] == c,
            self@.len() <= MAX_CODEPOINT + 1,
        ensures
            self.spec_index_of(c) == Some(k as u32),
    {
        assert(self@.contains(c));
        let j = choose|j: int| 0 <= j < self@.len() && self@[j] == c;
        if j < k {
            assert(self@[j] < self@[k]);
        } else if j > k {
            assert(self@[k] < self@[j]);
        }
    }

    /// The codepoints before the offset of interval `i` are those of the intervals before
    /// it, all below `c`; those from it on are at least its low end.
    proof fn lemma_below_interval(self, c: u32, i: int)
        requires
            self.wf(),
            strictly_ascending(self@),
            0 <= i <= self.intervals@.len(),
            forall|k: int| 0 <= k < i ==> (#[trigger] self.intervals@[k]).1 < c,
        ensures
            forall|j: int| 0 <= j < self.offsets@[i] ==> #[trigger] self@[j] < c,
            self.offsets@[i] <= self@.len(),
    {
        let s = self.intervals@;
        lemma_flatten_prefix(s, i);
        if i > 0 {
            let p = s.take(i);
            assert forall|a: int, b: int| 0 <= a < b < p.len() implies (#[trigger] p[a]).1 + 1 < (
            #[trigger] p[b]).0 by {
                assert(s[a].1 + 1 < s[b].0);
            }
            assert forall|a: int| 0 <= a < p.len() implies (#[trigger] p[a]).0 <= p[a].1 by {
                assert(s[a].0 <= s[a].1);
            }
            lemma_flatten_ascending(p);
            assert forall|j: int| 0 <= j < self.offsets@[i] implies #[trigger] self@[j] < c by {
                assert(self@[j] == flatten(p)[j]);
                assert(p.last() == s[i - 1]);
            }
        }
    }

    /// A split point of an ascending sequence is unique.
    proof fn lemma_splits_unique(self, k: int, c: u32)
        requires
            strictly_ascending(self@),
            self.splits_at(k, c),
            self@.len() <= MAX_CODEPOINT + 1,
        ensures
            self.spec_index_above(c) == k as u32,
    {
        let j = choose|j: int| self.splits_at(j, c);
        if j < k {
            assert(self@[j] >= c);
        } else if j > k {
            assert(self@[k] >= c);
            assert(self@[k] < c);
        }
    }
}

/// Rank and select are inverse: the codepoint at every ordinal below the size has that
/// ordinal, and every codepoint of the set is the codepoint at its own ordinal.
pub proof fn lemma_round_trip(set: IntervalSet, i: u32, c: u32)
    requires
        set.wf(),
    ensures
        i < set@.len() ==> set.spec_index_of(set.spec_codepoint_at(i)->0) == Some(i),
        set@.contains(c) ==> set.spec_codepoint_at(set.spec_index_of(c)->0) == Some(c),
{
    set.lemma_ascending();
    if i < set@.len() {
        set.lemma_index_of_unique(set@[i as int], i as int);
    }
    if set@.contains(c) {
        let j = choose|j: int| 0 <= j < set@.len() && set@[j] == c;
        assert(set.spec_index_of(c) == Some(j as u32));
    }
}

/// `index_above` never decreases as the codepoint grows, and it is the size for every
/// codepoint above all codepoints of the set.
pub proof fn lemma_index_above_monotone(set: IntervalSet, a: u32, b: u32)
    requires
        set.wf(),
        a <= b,
    ensures
        set.spec_index_above(a) <= set.spec_index_above(b),
        (forall|k: int| 0 <= k < set@.len() ==> #[trigger] set@[k] < a) ==> set.spec_index_above(a)
            == set@.len(),
{
    set.lemma_ascending();
    set.lemma_split_exists(a, 0);
    set.lemma_split_exists(b, 0);
    let ka = choose|k: int| set.splits_at(k, a);
    let kb = choose|k: int| set.splits_at(k, b);
    if kb < ka {
        assert(set@[kb] >= b);
        assert(set@[kb] < a);
    }
    if forall|k: int| 0 <= k < set@.len() ==> #[trigger] set@[k] < a {
        set.lemma_splits_unique(set@.len() as int, a);
    }
}

impl IntervalSet {
    /// Every codepoint splits the codepoints of the set somewhere.
    proof fn lemma_split_exists(self, c: u32, k: int)
        requires
            strictly_ascending(self@),
            0 <= k <= self@.len(),
            forall|j: int| 0 <= j < k ==> #[trigger] self@[j] < c,
        ensures
            exists|s: int| self.splits_at(s, c),
        decreases self@.len() - k,
    {
        if k == self@.len() {
            assert(self.splits_at(k, c));
        } else if self@[k] >= c {
            assert forall|j: int| k <= j < self@.len() implies #[trigger] self@[j] >= c by {
                if j > k {
                    assert(self@[k] < self@[j]);
                }
            }
            assert(self.splits_at(k, c));
        } else {
            self.lemma_split_exists(c, k + 1);
        }
    }
}

} // verus!
