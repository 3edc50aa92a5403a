//! An ordered list of disjoint, non-adjacent free physical ranges.

use vstd::prelude::*;

verus! {

/// A half-open range `[start, end)` of free physical addresses.
#[derive(Clone, Copy, Debug, PartialEq, Eq, Structural)]
pub struct FreeRegion {
    pub start: usize,
    pub end: usize,
}

impl FreeRegion {
    pub open spec fn size(self) -> int {
        self.end - self.start
    }

    pub open spec fn contains(self, x: int) -> bool {
        self.start <= x < self.end
    }
}

/// Every region is non-empty, and regions are sorted with a gap between
/// any two of them (so they neither overlap nor touch).
pub open spec fn well_formed(s: Seq<FreeRegion>) -> bool {
    &&& forall|i: int| 0 <= i < s.len() ==> #[trigger] s[i].start < s[i].end
    &&& forall|i: int, j: int| 0 <= i < j < s.len() ==> #[trigger] s[i].end < #[trigger] s[j].start
}

/// Whether address `x` lies in one of the regions.
pub open spec fn is_free(s: Seq<FreeRegion>, x: int) -> bool {
    exists|i: int| 0 <= i < s.len() && #[trigger] s[i].contains(x)
}

/// The number of free bytes in all regions together.
pub open spec fn total(s: Seq<FreeRegion>) -> int
    decreases s.len(),
{
    if s.len() == 0 {
        0
    } else {
        s[0].size() + total(s.subrange(1, s.len() as int))
    }
}

pub open spec fn fits(r: FreeRegion, size: int) -> bool {
    r.size() >= size
}

/// Region `i` is the first one that can hold `size` bytes.
pub open spec fn is_first_fit(s: Seq<FreeRegion>, i: int, size: int) -> bool {
    &&& 0 <= i < s.len()
    &&& fits(s[i], size)
    &&& forall|j: int| 0 <= j < i ==> !fits(#[trigger] s[j], size)
}

/// The list after `size` bytes were taken from the front of region `i`:
/// the region shrinks, or leaves the list when nothing is left of it.
pub open spec fn take_front(s: Seq<FreeRegion>, i: int, size: int) -> Seq<FreeRegion> {
    if s[i].size() == size {
        s.remove(i)
    } else {
        s.update(i, FreeRegion { start: (s[i].start + size) as usize, end: s[i].end })
    }
}

proof fn lemma_total_concat(a: Seq<FreeRegion>, b: Seq<FreeRegion>)
    ensures
        total(a + b) == total(a) + total(b),
    decreases a.len(),
{
    if a.len() == 0 {
        assert(a + b =~= b);
    } else {
        lemma_total_concat(a.subrange(1, a.len() as int), b);
        assert((a + b).subrange(1, (a + b).len() as int) =~= a.subrange(1, a.len() as int) + b);
    }
}

proof fn lemma_total_single(r: FreeRegion)
    ensures
        total(seq![r]) == r.size(),
{
    let e = seq![r].subrange(1, 1);
    assert(e =~= Seq::<FreeRegion>::empty());
    assert(total(e) == 0);
    assert(seq![r][0] == r);
}

proof fn lemma_free_concat(a: Seq<FreeRegion>, b: Seq<FreeRegion>, x: int)
    ensures
        is_free(a + b, x) <==> is_free(a, x) || is_free(b, x),
{
    if is_free(a + b, x) {
        let i = choose|i: int| 0 <= i < (a + b).len() && #[trigger] (a + b)[i].contains(x);
        if i < a.len() {
            assert(a[i].contains(x));
        } else {
            assert(b[i - a.len()].contains(x));
        }
    }
    if is_free(a, x) {
        let i = choose|i: int| 0 <= i < a.len() && #[trigger] a[i].contains(x);
        assert((a + b)[i].contains(x));
    }
    if is_free(b, x) {
        let i = choose|i: int| 0 <= i < b.len() && #[trigger] b[i].contains(x);
        assert((a + b)[i + a.len()].contains(x));
    }
}

proof fn lemma_free_single(r: FreeRegion, x: int)
    ensures
        is_free(seq![r], x) <==> r.contains(x),
{
    if r.contains(x) {
        assert(seq![r][0].contains(x));
    }
}

/// A list splits around any of its regions.
proof fn lemma_split_at(s: Seq<FreeRegion>, i: int)
    requires
        0 <= i < s.len(),
    ensures
        s =~= s.subrange(0, i) + seq![s[i]] + s.subrange(i + 1, s.len() as int),
{
}

proof fn lemma_well_formed_subrange(s: Seq<FreeRegion>, lo: int, hi: int)
    requires
        well_formed(s),
        0 <= lo <= hi <= s.len(),
    ensures
        well_formed(s.subrange(lo, hi)),
{
    let t = s.subrange(lo, hi);
    assert forall|i: int| 0 <= i < t.len() implies #[trigger] t[i].start < t[i].end by {
        assert(t[i] == s[lo + i]);
    }
    assert forall|i: int, j: int| 0 <= i < j < t.len() implies #[trigger] t[i].end < #[trigger] t[j].start by {
        assert(t[i] == s[lo + i] && t[j] == s[lo + j]);
    }
}

/// Two well-formed lists, the first ending before the second starts, join
/// into a well-formed list.
proof fn lemma_well_formed_concat(a: Seq<FreeRegion>, b: Seq<FreeRegion>)
    requires
        well_formed(a),
        well_formed(b),
        a.len() > 0 && b.len() > 0 ==> a.last().end < b[0].start,
    ensures
        well_formed(a + b),
{
    let c = a + b;
    assert forall|i: int| 0 <= i < c.len() implies #[trigger] c[i].start < c[i].end by {
        if i < a.len() {
            assert(c[i] == a[i]);
        } else {
            assert(c[i] == b[i - a.len()]);
        }
    }
    assert forall|i: int, j: int| 0 <= i < j < c.len() implies #[trigger] c[i].end < #[trigger] c[j].start by {
        if j < a.len() {
            assert(c[i] == a[i] && c[j] == a[j]);
        } else if i >= a.len() {
            assert(c[i] == b[i - a.len()] && c[j] == b[j - a.len()]);
        } else {
            let l = a.len() - 1;
            assert(c[i] == a[i] && c[j] == b[j - a.len()]);
            assert(a[i].end <= a[l].end) by {
                if i < l {
                    assert(a[i].end < a[l].start);
                }
            }
            assert(b[0].start <= b[j - a.len()].start) by {
                if j - a.len() > 0 {
                    assert(b[0].end < b[j - a.len()].start);
                }
            }
        }
    }
}

/// Addresses free in the regions before region `i` lie below its start;
/// those free in the regions after it lie above its end.
proof fn lemma_free_outside(s: Seq<FreeRegion>, i: int, x: int)
    requires
        well_formed(s),
        0 <= i < s.len(),
    ensures
        is_free(s.subrange(0, i), x) ==> x < s[i].start,
        is_free(s.subrange(i + 1, s.len() as int), x) ==> x > s[i].end,
{
    let pre = s.subrange(0, i);
    let post = s.subrange(i + 1, s.len() as int);
    if is_free(pre, x) {
        let j = choose|j: int| 0 <= j < pre.len() && #[trigger] pre[j].contains(x);
        assert(pre[j] == s[j]);
        assert(s[j].end < s[i].start);
    }
    if is_free(post, x) {
        let j = choose|j: int| 0 <= j < post.len() && #[trigger] post[j].contains(x);
        assert(post[j] == s[i + 1 + j]);
        assert(s[i].end < s[i + 1 + j].start);
        assert(s[i + 1 + j].start < s[i + 1 + j].end);
    }
}

/// A region of a well-formed list holds no more than the whole list.
proof fn lemma_region_within_total(s: Seq<FreeRegion>, i: int)
    requires
        well_formed(s),
        0 <= i < s.len(),
    ensures
        s[i].size() <= total(s),
        total(s) >= 0,
    decreases s.len(),
{
    lemma_total_nonneg(s);
    if i > 0 {
        let t = s.subrange(1, s.len() as int);
        lemma_well_formed_subrange(s, 1, s.len() as int);
        assert(t[i - 1] == s[i]);
        lemma_region_within_total(t, i - 1);
        assert(s[0].start < s[0].end);
    } else {
        lemma_well_formed_subrange(s, 1, s.len() as int);
        lemma_total_nonneg(s.subrange(1, s.len() as int));
    }
}

proof fn lemma_total_nonneg(s: Seq<FreeRegion>)
    requires
        well_formed(s),
    ensures
        total(s) >= 0,
    decreases s.len(),
{
    if s.len() > 0 {
        lemma_well_formed_subrange(s, 1, s.len() as int);
        lemma_total_nonneg(s.subrange(1, s.len() as int));
        assert(s[0].start < s[0].end);
    }
}

/// Replacing region `i` by regions that lie within it keeps the list
/// well formed; what is free is then what the new regions hold, with the
/// regions around them unchanged.
proof fn lemma_replace_within(s: Seq<FreeRegion>, i: int, mid: Seq<FreeRegion>)
    requires
        well_formed(s),
        0 <= i < s.len(),
        well_formed(mid),
        forall|k: int| 0 <= k < mid.len() ==> s[i].start <= (#[trigger] mid[k]).start && mid[k].end <= s[i].end,
    ensures
        well_formed(s.subrange(0, i) + mid + s.subrange(i + 1, s.len() as int)),
        total(s.subrange(0, i) + mid + s.subrange(i + 1, s.len() as int)) == total(s) - s[i].size() + total(mid),
        forall|x: int| #[trigger] is_free(s.subrange(0, i) + mid + s.subrange(i + 1, s.len() as int), x)
            <==> (is_free(s, x) && !s[i].contains(x)) || is_free(mid, x),
{
    let pre = s.subrange(0, i);
    let post = s.subrange(i + 1, s.len() as int);
    let r = pre + mid + post;
    lemma_split_at(s, i);
    lemma_well_formed_subrange(s, 0, i);
    lemma_well_formed_subrange(s, i + 1, s.len() as int);
    if pre.len() > 0 && mid.len() > 0 {
        assert(pre.last() == s[i - 1]);
        assert(s[i - 1].end < s[i].start);
        assert(s[i].start <= mid[0].start);
    }
    lemma_well_formed_concat(pre, mid);
    if (pre + mid).len() > 0 && post.len() > 0 {
        assert(post[0] == s[i + 1]);
        assert(s[i].end < s[i + 1].start);
        if mid.len() > 0 {
            assert((pre + mid).last() == mid.last());
            assert(mid[mid.len() - 1].end <= s[i].end);
        } else {
            assert((pre + mid).last() == s[i - 1]);
            assert(s[i - 1].end < s[i + 1].start);
        }
    }
    lemma_well_formed_concat(pre + mid, post);
    lemma_total_concat(pre, mid);
    lemma_total_concat(pre + mid, post);
    lemma_total_concat(pre, seq![s[i]]);
    lemma_total_concat(pre + seq![s[i]], post);
    lemma_total_single(s[i]);
    assert forall|x: int| #[trigger] is_free(r, x) <==> (is_free(s, x) && !s[i].contains(x)) || is_free(mid, x) by {
        lemma_free_concat(pre, mid, x);
        lemma_free_concat(pre + mid, post, x);
        lemma_free_concat(pre, seq![s[i]], x);
        lemma_free_concat(pre + seq![s[i]], post, x);
        lemma_free_single(s[i], x);
        lemma_free_outside(s, i, x);
        if is_free(mid, x) {
            let k = choose|k: int| 0 <= k < mid.len() && #[trigger] mid[k].contains(x);
            assert(s[i].start <= mid[k].start && mid[k].end <= s[i].end);
        }
    }
}

/// Taking `size` bytes from the front of a region removes exactly those
/// addresses from the free ones.
pub proof fn lemma_take_front(s: Seq<FreeRegion>, i: int, size: int)
    requires
        well_formed(s),
        0 <= i < s.len(),
        0 < size <= s[i].size(),
    ensures
        well_formed(take_front(s, i, size)),
        total(take_front(s, i, size)) == total(s) - size,
        forall|x: int| #[trigger] is_free(take_front(s, i, size), x)
            <==> is_free(s, x) && !(s[i].start <= x < s[i].start + size),
{
    let rest = FreeRegion { start: (s[i].start + size) as usize, end: s[i].end };
    assert(rest.start == s[i].start + size);
    let mid = if s[i].size() == size { Seq::<FreeRegion>::empty() } else { seq![rest] };
    assert(take_front(s, i, size) =~= s.subrange(0, i) + mid + s.subrange(i + 1, s.len() as int));
    if s[i].size() != size {
        lemma_total_single(rest);
        assert(mid[0] == rest);
    }
    lemma_replace_within(s, i, mid);
    assert forall|x: int| #[trigger] is_free(take_front(s, i, size), x)
        <==> is_free(s, x) && !(s[i].start <= x < s[i].start + size) by {
        if s[i].size() != size {
            assert(mid == seq![rest]);
            lemma_free_single(rest, x);
        } else {
            assert(!is_free(mid, x));
        }
        if s[i].contains(x) {
            assert(is_free(s, x));
        }
        if is_free(s, x) && !(s[i].start <= x < s[i].start + size) && s[i].contains(x) {
            assert(rest.contains(x));
        }
    }
}

/// The lowest address in `r` at or above its start that is a multiple of
/// `alignment` (it may lie past the region's end).
pub open spec fn aligned_start(r: FreeRegion, alignment: int) -> int {
    let start = r.start as int;
    if start % alignment == 0 {
        start
    } else {
        start + (alignment - start % alignment)
    }
}

pub open spec fn fits_aligned(r: FreeRegion, size: int, alignment: int) -> bool {
    aligned_start(r, alignment) + size <= r.end
}

/// Region `i` is the first one that holds `size` bytes from its first
/// address aligned to `alignment`.
pub open spec fn is_first_aligned_fit(s: Seq<FreeRegion>, i: int, size: int, alignment: int) -> bool {
    &&& 0 <= i < s.len()
    &&& fits_aligned(s[i], size, alignment)
    &&& forall|j: int| 0 <= j < i ==> !fits_aligned(#[trigger] s[j], size, alignment)
}

/// What is left of region `r` below `a` (nothing when `a` is its start).
pub open spec fn low_rest(r: FreeRegion, a: int) -> Seq<FreeRegion> {
    if a > r.start {
        seq![FreeRegion { start: r.start, end: a as usize }]
    } else {
        Seq::empty()
    }
}

/// What is left of region `r` from `b` on (nothing when `b` is its end).
pub open spec fn high_rest(r: FreeRegion, b: int) -> Seq<FreeRegion> {
    if b < r.end {
        seq![FreeRegion { start: b as usize, end: r.end }]
    } else {
        Seq::empty()
    }
}

/// The list after `[a, a + size)` was cut out of region `i`: the region
/// gives way to what is left of it below and above the cut.
pub open spec fn carve(s: Seq<FreeRegion>, i: int, a: int, size: int) -> Seq<FreeRegion> {
    s.subrange(0, i) + low_rest(s[i], a) + high_rest(s[i], a + size) + s.subrange(i + 1, s.len() as int)
}

/// Cutting `[a, a + size)` out of a region removes exactly those addresses
/// from the free ones.
pub proof fn lemma_carve(s: Seq<FreeRegion>, i: int, a: int, size: int)
    requires
        well_formed(s),
        0 <= i < s.len(),
        size > 0,
        s[i].start <= a,
        a + size <= s[i].end,
    ensures
        well_formed(carve(s, i, a, size)),
        total(carve(s, i, a, size)) == total(s) - size,
        forall|x: int| #[trigger] is_free(carve(s, i, a, size), x)
            <==> is_free(s, x) && !(a <= x < a + size),
{
    let r = s[i];
    let low = low_rest(r, a);
    let high = high_rest(r, a + size);
    let mid = low + high;
    assert(carve(s, i, a, size) =~= s.subrange(0, i) + mid + s.subrange(i + 1, s.len() as int));
    if low.len() > 0 {
        assert(low[0].end == a);
        lemma_total_single(low[0]);
        assert(low =~= seq![low[0]]);
    }
    if high.len() > 0 {
        assert(high[0].start == a + size);
        lemma_total_single(high[0]);
        assert(high =~= seq![high[0]]);
    }
    lemma_well_formed_concat(low, high);
    lemma_total_concat(low, high);
    assert forall|k: int| 0 <= k < mid.len() implies r.start <= (#[trigger] mid[k]).start && mid[k].end <= r.end by {
        if k < low.len() {
            assert(mid[k] == low[k]);
        } else {
            assert(mid[k] == high[k - low.len()]);
        }
    }
    lemma_replace_within(s, i, mid);
    assert forall|x: int| #[trigger] is_free(carve(s, i, a, size), x)
        <==> is_free(s, x) && !(a <= x < a + size) by {
        lemma_free_concat(low, high, x);
        if low.len() > 0 {
            lemma_free_single(low[0], x);
        }
        if high.len() > 0 {
            lemma_free_single(high[0], x);
        }
        if r.contains(x) {
            assert(s[i].contains(x));
        }
        if is_free(s, x) && !(a <= x < a + size) && r.contains(x) {
            if x < a {
                assert(low[0].contains(x));
            } else {
                assert(high[0].contains(x));
            }
        }
    }
}

pub open spec fn overlaps(r: FreeRegion, a: int, b: int) -> bool {
    r.start < b && a < r.end
}

/// `i` is where a range starting at `a` goes: every region before it ends
/// at or below `a`, every region from it on ends above `a`.
pub open spec fn is_insert_position(s: Seq<FreeRegion>, i: int, a: int) -> bool {
    &&& 0 <= i <= s.len()
    &&& forall|j: int| 0 <= j < i ==> (#[trigger] s[j]).end <= a
    &&& forall|j: int| i <= j < s.len() ==> (#[trigger] s[j]).end > a
}

pub open spec fn joins_below(s: Seq<FreeRegion>, i: int, a: int) -> bool {
    i > 0 && s[i - 1].end == a
}

pub open spec fn joins_above(s: Seq<FreeRegion>, i: int, b: int) -> bool {
    i < s.len() && s[i].start == b
}

/// The region that `[a, b)` becomes once joined with the neighbours it
/// touches.
pub open spec fn merged_region(s: Seq<FreeRegion>, i: int, a: int, b: int) -> FreeRegion {
    FreeRegion {
        start: if joins_below(s, i, a) { s[i - 1].start } else { a as usize },
        end: if joins_above(s, i, b) { s[i].end } else { b as usize },
    }
}

/// The list after `[a, b)` was put back at position `i`, merged with the
/// regions it touches.
pub open spec fn insert_merged(s: Seq<FreeRegion>, i: int, a: int, b: int) -> Seq<FreeRegion> {
    let lo = if joins_below(s, i, a) { i - 1 } else { i };
    let hi = if joins_above(s, i, b) { i + 1 } else { i };
    s.subrange(0, lo) + seq![merged_region(s, i, a, b)] + s.subrange(hi, s.len() as int)
}

/// A region ends at `a`.
pub open spec fn has_region_ending_at(s: Seq<FreeRegion>, a: int) -> bool {
    exists|j: int| 0 <= j < s.len() && (#[trigger] s[j]).end == a
}

/// A region starts at `b`.
pub open spec fn has_region_starting_at(s: Seq<FreeRegion>, b: int) -> bool {
    exists|j: int| 0 <= j < s.len() && (#[trigger] s[j]).start == b
}

/// At the insert position of `[a, b)`, the range overlaps free memory
/// exactly when the next region starts below `b`; it touches a region
/// below or above exactly when the neighbour there ends at `a` or starts
/// at `b`.
pub proof fn lemma_insert_position(s: Seq<FreeRegion>, i: int, a: int, b: int)
    requires
        well_formed(s),
        is_insert_position(s, i, a),
        a < b,
    ensures
        (exists|j: int| 0 <= j < s.len() && overlaps(#[trigger] s[j], a, b)) <==> (i < s.len() && s[i].start < b),
        !(i < s.len() && s[i].start < b) ==> (has_region_ending_at(s, a) <==> joins_below(s, i, a)),
        !(i < s.len() && s[i].start < b) ==> (has_region_starting_at(s, b) <==> joins_above(s, i, b)),
{
    if exists|j: int| 0 <= j < s.len() && overlaps(#[trigger] s[j], a, b) {
        let j = choose|j: int| 0 <= j < s.len() && overlaps(#[trigger] s[j], a, b);
        assert(j >= i);
        if j > i {
            assert(s[i].end < s[j].start);
        }
    }
    if i < s.len() && s[i].start < b {
        assert(overlaps(s[i], a, b));
    }
    if !(i < s.len() && s[i].start < b) {
        if has_region_ending_at(s, a) {
            let j = choose|j: int| 0 <= j < s.len() && (#[trigger] s[j]).end == a;
            assert(j < i);
            if j < i - 1 {
                assert(s[j].end < s[i - 1].start);
                assert(s[i - 1].start < s[i - 1].end);
            }
        }
        if joins_below(s, i, a) {
            assert(s[i - 1].end == a);
        }
        if has_region_starting_at(s, b) {
            let j = choose|j: int| 0 <= j < s.len() && (#[trigger] s[j]).start == b;
            assert(s[j].start < s[j].end);
            assert(j >= i);
            if j > i {
                assert(s[i].end < s[j].start);
                assert(s[i].start < s[i].end);
            }
        }
        if joins_above(s, i, b) {
            assert(s[i].start == b);
        }
    }
}

/// Putting back a range that overlaps no free memory keeps the list well
/// formed and adds exactly its addresses to the free ones.
pub proof fn lemma_insert_merged(s: Seq<FreeRegion>, i: int, a: int, b: int)
    requires
        well_formed(s),
        is_insert_position(s, i, a),
        a < b <= usize::MAX,
        0 <= a,
        !(i < s.len() && s[i].start < b),
    ensures
        well_formed(insert_merged(s, i, a, b)),
        total(insert_merged(s, i, a, b)) == total(s) + (b - a),
        forall|x: int| #[trigger] is_free(insert_merged(s, i, a, b), x) <==> is_free(s, x) || a <= x < b,
        insert_merged(s, i, a, b).len() == s.len() + 1 - (if joins_below(s, i, a) { 1int } else { 0 })
            - (if joins_above(s, i, b) { 1int } else { 0 }),
{
    let lo = if joins_below(s, i, a) { i - 1 } else { i };
    let hi = if joins_above(s, i, b) { i + 1 } else { i };
    let m = merged_region(s, i, a, b);
    let pre = s.subrange(0, lo);
    let mid = s.subrange(lo, hi);
    let post = s.subrange(hi, s.len() as int);
    let r = insert_merged(s, i, a, b);
    assert(s =~= pre + mid + post);
    assert(r =~= pre + seq![m] + post);
    assert(m.start <= a && b <= m.end);
    lemma_well_formed_subrange(s, 0, lo);
    lemma_well_formed_subrange(s, hi, s.len() as int);
    if pre.len() > 0 {
        assert(pre.last() == s[lo - 1]);
        if joins_below(s, i, a) {
            assert(s[i - 2].end < s[i - 1].start);
        } else {
            assert(s[i - 1].end <= a);
        }
    }
    assert(well_formed(seq![m]));
    lemma_well_formed_concat(pre, seq![m]);
    if post.len() > 0 {
        assert(post[0] == s[hi]);
        assert((pre + seq![m]).last() == m);
        if joins_above(s, i, b) {
            assert(s[i].end < s[i + 1].start);
        } else {
            assert(s[i].start > b);
        }
    }
    lemma_well_formed_concat(pre + seq![m], post);
    lemma_total_concat(pre, mid);
    lemma_total_concat(pre + mid, post);
    lemma_total_concat(pre, seq![m]);
    lemma_total_concat(pre + seq![m], post);
    lemma_total_single(m);
    if joins_below(s, i, a) && joins_above(s, i, b) {
        assert(mid =~= seq![s[i - 1]] + seq![s[i]]);
        lemma_total_concat(seq![s[i - 1]], seq![s[i]]);
        lemma_total_single(s[i - 1]);
        lemma_total_single(s[i]);
    } else if joins_below(s, i, a) {
        assert(mid =~= seq![s[i - 1]]);
        lemma_total_single(s[i - 1]);
    } else if joins_above(s, i, b) {
        assert(mid =~= seq![s[i]]);
        lemma_total_single(s[i]);
    } else {
        assert(mid =~= Seq::<FreeRegion>::empty());
    }
    assert forall|x: int| #[trigger] is_free(r, x) <==> is_free(s, x) || a <= x < b by {
        lemma_free_concat(pre, mid, x);
        lemma_free_concat(pre + mid, post, x);
        lemma_free_concat(pre, seq![m], x);
        lemma_free_concat(pre + seq![m], post, x);
        lemma_free_single(m, x);
        if joins_below(s, i, a) && joins_above(s, i, b) {
            lemma_free_concat(seq![s[i - 1]], seq![s[i]], x);
            lemma_free_single(s[i - 1], x);
            lemma_free_single(s[i], x);
        } else if joins_below(s, i, a) {
            lemma_free_single(s[i - 1], x);
        } else if joins_above(s, i, b) {
            lemma_free_single(s[i], x);
        }
    }
}

/// Giving back the bytes just taken from the front of a region restores
/// the list exactly, and with it the number of free bytes.
pub proof fn lemma_take_front_round_trip(s: Seq<FreeRegion>, i: int, size: int, j: int)
    requires
        well_formed(s),
        0 <= i < s.len(),
        0 < size <= s[i].size(),
        is_insert_position(take_front(s, i, size), j, s[i].start as int),
    ensures
        insert_merged(take_front(s, i, size), j, s[i].start as int, s[i].start + size) == s,
        total(insert_merged(take_front(s, i, size), j, s[i].start as int, s[i].start + size)) == total(s),
{
    let t = take_front(s, i, size);
    let a = s[i].start as int;
    let b = a + size;
    if j < i {
        assert(t[j] == s[j]);
        assert(s[j].end < s[i].start);
    }
    if j > i {
        if s[i].size() == size {
            assert(t[i] == s[i + 1]);
            assert(s[i].end < s[i + 1].start);
            assert(s[i + 1].start < s[i + 1].end);
        } else {
            assert(t[i].end == s[i].end);
        }
    }
    assert(j == i);
    if i > 0 {
        assert(t[i - 1] == s[i - 1]);
        assert(s[i - 1].end < s[i].start);
    }
    if s[i].size() == size {
        if i < t.len() {
            assert(t[i] == s[i + 1]);
            assert(s[i].end < s[i + 1].start);
        }
        assert(merged_region(t, i, a, b) == s[i]);
        assert(insert_merged(t, i, a, b) =~= s);
    } else {
        assert(merged_region(t, i, a, b) == s[i]);
        assert(insert_merged(t, i, a, b) =~= s);
    }
}

/// Giving back the bytes just cut out of a region, at whatever alignment,
/// joins the rests below and above the cut again and restores the list
/// exactly.
pub proof fn lemma_carve_round_trip(s: Seq<FreeRegion>, i: int, a: int, size: int, j: int)
    requires
        well_formed(s),
        0 <= i < s.len(),
        size > 0,
        s[i].start <= a,
        a + size <= s[i].end,
        is_insert_position(carve(s, i, a, size), j, a),
    ensures
        insert_merged(carve(s, i, a, size), j, a, a + size) == s,
{
    let t = carve(s, i, a, size);
    let r = s[i];
    let low = low_rest(r, a);
    let high = high_rest(r, a + size);
    let pre = s.subrange(0, i);
    let post = s.subrange(i + 1, s.len() as int);
    let k = i + low.len();
    assert(t == pre + low + high + post);
    if k > 0 {
        if low.len() > 0 {
            assert(t[k - 1] == low[0]);
        } else {
            assert(t[k - 1] == s[i - 1]);
            assert(s[i - 1].end < s[i].start);
        }
        assert(t[k - 1].end <= a);
    }
    if k < t.len() {
        if high.len() > 0 {
            assert(t[k] == high[0]);
        } else {
            assert(t[k] == s[i + 1]);
            assert(s[i].end < s[i + 1].start);
            assert(s[i + 1].start < s[i + 1].end);
        }
        assert(t[k].end > a);
    }
    assert(j == k);
    if low.len() == 0 && k > 0 {
        assert(t[k - 1] == s[i - 1]);
    }
    if high.len() == 0 && k < t.len() {
        assert(t[k] == s[i + 1]);
        assert(s[i].end < s[i + 1].start);
    }
    assert(merged_region(t, j, a, a + size) == r);
    let hi = if joins_above(t, j, a + size) { j + 1 } else { j };
    assert(t.subrange(hi, t.len() as int) =~= post);
    assert(t.subrange(0, if joins_below(t, j, a) { j - 1 } else { j }) =~= pre);
    lemma_split_at(s, i);
    assert(insert_merged(t, j, a, a + size) =~= s);
}

/// A request larger than all free memory together fits in no region,
/// aligned or not.
pub proof fn lemma_exhaustion(s: Seq<FreeRegion>, size: int, alignment: int)
    requires
        well_formed(s),
        size > total(s),
        alignment > 0,
    ensures
        forall|i: int| 0 <= i < s.len() ==> !fits(#[trigger] s[i], size),
        forall|i: int| 0 <= i < s.len() ==> !fits_aligned(#[trigger] s[i], size, alignment),
{
    assert forall|i: int| 0 <= i < s.len() implies !fits(#[trigger] s[i], size) && !fits_aligned(s[i], size, alignment) by {
        lemma_region_within_total(s, i);
        let start = s[i].start as int;
        assert(start % alignment < alignment) by {
            vstd::arithmetic::div_mod::lemma_mod_bound(start, alignment);
        }
        assert(aligned_start(s[i], alignment) >= start);
    }
}

/// Why a request to the free list was refused.
#[derive(Clone, Copy, Debug, PartialEq, Eq, Structural)]
pub enum FreeListError {
    /// No free region can hold the request.
    OutOfMemory,
    /// The range handed back overlaps memory that is already free.
    Overlapping,
}

/// The free physical memory, as a sorted list of regions.
pub struct FreeList {
    regions: Vec<FreeRegion>,
}

impl View for FreeList {
    type V = Seq<FreeRegion>;

    closed spec fn view(&self) -> Seq<FreeRegion> {
        self.regions@
    }
}

impl FreeList {
    pub open spec fn wf(&self) -> bool {
        well_formed(self@)
    }

    /// An empty list: no memory is free.
    pub fn new() -> (r: FreeList)
        ensures
            r.wf(),
            r@ == Seq::<FreeRegion>::empty(),
    {
        FreeList { regions: Vec::new() }
    }

    /// The regions, in address order.
    pub fn regions(&self) -> (r: Vec<FreeRegion>)
        ensures
            r@ == self@,
    {
        self.regions.clone()
    }

    /// Takes `size` bytes from the front of the first region that can
    /// hold them.
    pub fn allocate(&mut self, size: usize) -> (r: Result<usize, FreeListError>)
        requires
            old(self).wf(),
            size > 0,
        ensures
            final(self).wf(),
            match r {
                Ok(a) => exists|i: int|
                    is_first_fit(old(self)@, i, size as int)
                        && a == old(self)@[i].start
                        && final(self)@ == take_front(old(self)@, i, size as int),
                Err(e) => e == FreeListError::OutOfMemory
                    && (forall|i: int| 0 <= i < old(self)@.len() ==> !fits(#[trigger] old(self)@[i], size as int))
                    && final(self)@ == old(self)@,
            },
            r is Ok ==> total(final(self)@) == total(old(self)@) - size,
            forall|x: int| #[trigger] is_free(final(self)@, x)
                <==> is_free(old(self)@, x) && !(r matches Ok(a) && a <= x < a + size),
    {
        let ghost s = self@;
        let mut i: usize = 0;
        while i < self.regions.len()
            invariant
                self@ == s,
                s == old(self)@,
                well_formed(s),
                size > 0,
                0 <= i <= s.len(),
                forall|j: int| 0 <= j < i ==> !fits(#[trigger] s[j], size as int),
            decreases s.len() - i,
        {
            let region = self.regions[i];
            if region.end - region.start >= size {
                proof {
                    lemma_take_front(s, i as int, size as int);
                }
                if region.end - region.start == size {
                    self.regions.remove(i);
                } else {
                    self.regions.set(i, FreeRegion { start: region.start + size, end: region.end });
                }
                assert(self@ =~= take_front(s, i as int, size as int));
                assert(is_first_fit(s, i as int, size as int));
                return Ok(region.start);
            }
            i = i + 1;
        }
        Err(FreeListError::OutOfMemory)
    }

    /// Cuts `size` bytes, starting at a multiple of `alignment`, out of the
    /// first region that holds them; what is left of that region below and
    /// above the cut stays free.
    pub fn allocate_aligned(&mut self, size: usize, alignment: usize) -> (r: Result<usize, FreeListError>)
        requires
            old(self).wf(),
            size > 0,
            alignment > 0,
        ensures
            final(self).wf(),
            match r {
                Ok(a) => exists|i: int|
                    is_first_aligned_fit(old(self)@, i, size as int, alignment as int)
                        && a == aligned_start(old(self)@[i], alignment as int)
                        && final(self)@ == carve(old(self)@, i, a as int, size as int),
                Err(e) => e == FreeListError::OutOfMemory
                    && (forall|i: int| 0 <= i < old(self)@.len()
                        ==> !fits_aligned(#[trigger] old(self)@[i], size as int, alignment as int))
                    && final(self)@ == old(self)@,
            },
            r matches Ok(a) ==> a % alignment == 0,
            r is Ok ==> total(final(self)@) == total(old(self)@) - size,
            forall|x: int| #[trigger] is_free(final(self)@, x)
                <==> is_free(old(self)@, x) && !(r matches Ok(a) && a <= x < a + size),
    {
        let ghost s = self@;
        let mut i: usize = 0;
        while i < self.regions.len()
            invariant
                self@ == s,
                s == old(self)@,
                well_formed(s),
                size > 0,
                alignment > 0,
                0 <= i <= s.len(),
                forall|j: int| 0 <= j < i ==> !fits_aligned(#[trigger] s[j], size as int, alignment as int),
            decreases s.len() - i,
        {
            let region = self.regions[i];
            let rem = region.start % alignment;
            let gap: usize = if rem == 0 { 0 } else { alignment - rem };
            assert(region.start + gap == aligned_start(s[i as int], alignment as int));
            if gap <= region.end - region.start && size <= region.end - region.start - gap {
                let a = region.start + gap;
                proof {
                    lemma_carve(s, i as int, a as int, size as int);
                    vstd::arithmetic::div_mod::lemma_fundamental_div_mod(region.start as int, alignment as int);
                    vstd::arithmetic::div_mod::lemma_mod_multiples_basic(region.start as int / alignment as int + 1, alignment as int);
                    assert(a == (region.start as int / alignment as int + 1) * alignment as int || rem == 0) by (nonlinear_arith)
                        requires
                            region.start as int == alignment * (region.start as int / alignment as int) + rem,
                            a == region.start + gap,
                            gap == (if rem == 0 { 0 } else { alignment - rem }),
                    ;
                }
                let low = a > region.start;
                let high = a + size < region.end;
                if low && high {
                    self.regions.set(i, FreeRegion { start: region.start, end: a });
                    self.regions.insert(i + 1, FreeRegion { start: a + size, end: region.end });
                } else if low {
                    self.regions.set(i, FreeRegion { start: region.start, end: a });
                } else if high {
                    self.regions.set(i, FreeRegion { start: a + size, end: region.end });
                } else {
                    self.regions.remove(i);
                }
                assert(self@ =~= carve(s, i as int, a as int, size as int));
                assert(is_first_aligned_fit(s, i as int, size as int, alignment as int));
                return Ok(a);
            }
            i = i + 1;
        }
        Err(FreeListError::OutOfMemory)
    }

    /// Puts `[address, address + size)` back, merged with the free regions
    /// it touches; refuses a range that overlaps free memory.
    #[verifier::rlimit(40)]
    pub fn deallocate(&mut self, address: usize, size: usize) -> (r: Result<(), FreeListError>)
        requires
            old(self).wf(),
            size > 0,
            address + size <= usize::MAX,
        ensures
            final(self).wf(),
            r is Err <==> exists|j: int| 0 <= j < old(self)@.len() && overlaps(#[trigger] old(self)@[j], address as int, address + size),
            r is Err ==> r == Err::<(), FreeListError>(FreeListError::Overlapping) && final(self)@ == old(self)@,
            r is Ok ==> exists|i: int|
                is_insert_position(old(self)@, i, address as int)
                    && final(self)@ == insert_merged(old(self)@, i, address as int, address + size),
            r is Ok ==> total(final(self)@) == total(old(self)@) + size,
            r is Ok ==> forall|x: int| #[trigger] is_free(final(self)@, x)
                <==> is_free(old(self)@, x) || address <= x < address + size,
            r is Ok ==> final(self)@.len() == old(self)@.len() + 1
                - (if has_region_ending_at(old(self)@, address as int) { 1int } else { 0 })
                - (if has_region_starting_at(old(self)@, address + size) { 1int } else { 0 }),
            r is Ok ==> exists|k: int| 0 <= k < final(self)@.len()
                && (#[trigger] final(self)@[k]).start <= address
                && address + size <= final(self)@[k].end
                && (forall|j: int| 0 <= j < old(self)@.len() && (#[trigger] old(self)@[j]).end == address
                    ==> final(self)@[k].start == old(self)@[j].start)
                && (forall|j: int| 0 <= j < old(self)@.len() && (#[trigger] old(self)@[j]).start == address + size
                    ==> final(self)@[k].end == old(self)@[j].end),
    {
        let ghost s = self@;
        let end = address + size;
        let mut i: usize = 0;
        while i < self.regions.len() && self.regions[i].end <= address
            invariant
                self@ == s,
                s == old(self)@,
                well_formed(s),
                0 <= i <= s.len(),
                forall|j: int| 0 <= j < i ==> (#[trigger] s[j]).end <= address,
            decreases s.len() - i,
        {
            i = i + 1;
        }
        proof {
            assert forall|j: int| i <= j < s.len() implies (#[trigger] s[j]).end > address by {
                if j > i {
                    assert(s[i as int].end < s[j].start);
                    assert(s[i as int].start < s[i as int].end);
                }
            }
            assert(is_insert_position(s, i as int, address as int));
            lemma_insert_position(s, i as int, address as int, end as int);
        }
        if i < self.regions.len() && self.regions[i].start < end {
            return Err(FreeListError::Overlapping);
        }
        proof {
            lemma_insert_merged(s, i as int, address as int, end as int);
        }
        let below = i > 0 && self.regions[i - 1].end == address;
        let above = i < self.regions.len() && self.regions[i].start == end;
        let ghost m = merged_region(s, i as int, address as int, end as int);
        if below && above {
            let merged = FreeRegion { start: self.regions[i - 1].start, end: self.regions[i].end };
            self.regions.set(i - 1, merged);
            self.regions.remove(i);
        } else if below {
            let merged = FreeRegion { start: self.regions[i - 1].start, end: end };
            self.regions.set(i - 1, merged);
        } else if above {
            let merged = FreeRegion { start: address, end: self.regions[i].end };
            self.regions.set(i, merged);
        } else {
            self.regions.insert(i, FreeRegion { start: address, end: end });
        }
        let ghost k: int = if below { i - 1 } else { i as int };
        assert(self@ =~= insert_merged(s, i as int, address as int, end as int));
        assert(self@[k] == m);
        assert forall|j: int| 0 <= j < s.len() && (#[trigger] s[j]).end == address implies m.start == s[j].start by {
            assert(has_region_ending_at(s, address as int));
        }
        assert forall|j: int| 0 <= j < s.len() && (#[trigger] s[j]).start == end implies m.end == s[j].end by {
            assert(has_region_starting_at(s, end as int));
        }
        Ok(())
    }
}

} // verus!
