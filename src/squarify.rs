//! The squarified treemap for one level: the children of a node, by size,
//! packed into rows inside the node's rectangle.
use vstd::prelude::*;
use crate::geometry::Rect;
use crate::metric::{cmp_ratio, cmp_spec, lemma_seq_sum_nonneg, seq_sum, worst, worst_spec};

verus! {

/// Which way the rows of a layout run.
#[derive(Clone, Copy, Debug, PartialEq, Eq, Structural)]
pub enum LayoutDirection {
    /// The strip runs down the left edge; items are stacked top to bottom.
    Vertical,
    /// The strip runs along the top edge; items are placed left to right.
    Horizontal,
}

/// Sum of the areas of a sequence of rectangles.
pub open spec fn sum_areas(s: Seq<Rect>) -> int
    decreases s.len(),
{
    if s.len() == 0 {
        0
    } else {
        sum_areas(s.drop_last()) + s.last().area_spec()
    }
}

/// The side of `r` that a row is laid along: the width of a tall rectangle,
/// else the height.
pub open spec fn short_spec(r: Rect) -> int {
    if r.is_tall() {
        r.width_spec()
    } else {
        r.height_spec()
    }
}

/// The side of `r` that rows consume.
pub open spec fn long_spec(r: Rect) -> int {
    if r.is_tall() {
        r.height_spec()
    } else {
        r.width_spec()
    }
}

/// Thickness of the strip of a row weighing `row` out of `total` across a
/// long side of `long`; zero when nothing is left to weigh.
pub open spec fn thickness(row: int, long: int, total: int) -> int {
    if total == 0 {
        0
    } else {
        row * long / total
    }
}

/// Offset along the strip at which the items before weight `p` of a row of
/// weight `row` end.
pub open spec fn offset(p: int, short: int, row: int) -> int {
    if row == 0 {
        0
    } else {
        p * short / row
    }
}

/// The rectangle between offsets `a` and `b` of a strip of thickness `t`
/// placed against `rem`.
pub open spec fn item_rect(rem: Rect, t: int, a: int, b: int) -> Rect {
    if rem.is_tall() {
        Rect { x0: (rem.x0 + a) as u32, y0: rem.y0, x1: (rem.x0 + b) as u32, y1: (rem.y0 + t) as u32 }
    } else {
        Rect { x0: rem.x0, y0: (rem.y0 + a) as u32, x1: (rem.x0 + t) as u32, y1: (rem.y0 + b) as u32 }
    }
}

/// What is left of `rem` once a strip of thickness `t` is taken off it.
pub open spec fn rest_rect(rem: Rect, t: int) -> Rect {
    if rem.is_tall() {
        Rect { x0: rem.x0, y0: (rem.y0 + t) as u32, x1: rem.x1, y1: rem.y1 }
    } else {
        Rect { x0: (rem.x0 + t) as u32, y0: rem.y0, x1: rem.x1, y1: rem.y1 }
    }
}

/// Whether the row `sizes[start..k]` takes in the next item `sizes[k]`: its
/// worst ratio is zero or would not get larger by it.
pub open spec fn row_grows(sizes: Seq<u64>, start: int, k: int, len: int) -> bool {
    let c = worst_spec(sizes.subrange(start, k), len);
    let n = worst_spec(sizes.subrange(start, k + 1), len);
    c.0 == 0 || cmp_spec(c.0, c.1, n.0, n.1) >= 0
}

/// The end of a row that starts at `start` and has reached `k`: it keeps
/// taking in the next item while `row_grows`.
pub open spec fn grow_from(sizes: Seq<u64>, start: int, k: int, len: int) -> int
    decreases sizes.len() - k,
{
    if k >= sizes.len() || !row_grows(sizes, start, k, len) {
        k
    } else {
        grow_from(sizes, start, k + 1, len)
    }
}

/// The end of the row that starts at `start`, along a side of length `len`.
pub open spec fn greedy_end(sizes: Seq<u64>, start: int, len: int) -> int {
    grow_from(sizes, start, start + 1, len)
}

/// The rectangles of the row `sizes[start..end]` placed against `rem`, with
/// `rem_size` the weight still to place there.
pub open spec fn row_rects(sizes: Seq<u64>, start: int, end: int, rem: Rect, rem_size: int) -> Seq<Rect> {
    let row = seq_sum(sizes.subrange(start, end));
    let t = thickness(row, long_spec(rem), rem_size);
    Seq::new(
        (end - start) as nat,
        |i: int|
            item_rect(
                rem,
                t,
                offset(seq_sum(sizes.subrange(start, start + i)), short_spec(rem), row),
                offset(seq_sum(sizes.subrange(start, start + i + 1)), short_spec(rem), row),
            ),
    )
}

/// The squarified layout of `sizes[start..]` in the free rectangle `rem`
/// with `rem_size` the weight still to place: one row after the other,
/// each along the short side of what is left.
pub open spec fn squarify_from(sizes: Seq<u64>, start: int, rem: Rect, rem_size: int) -> Seq<Rect>
    decreases sizes.len() - start,
{
    let end = greedy_end(sizes, start, short_spec(rem));
    if 0 <= start < end <= sizes.len() {
        let row = seq_sum(sizes.subrange(start, end));
        let t = thickness(row, long_spec(rem), rem_size);
        row_rects(sizes, start, end, rem, rem_size) + squarify_from(
            sizes,
            end,
            rest_rect(rem, t),
            rem_size - row,
        )
    } else {
        Seq::empty()
    }
}

pub proof fn lemma_seq_sum_concat(a: Seq<u64>, b: Seq<u64>)
    ensures
        seq_sum(a + b) == seq_sum(a) + seq_sum(b),
    decreases b.len(),
{
    if b.len() == 0 {
        assert(a + b == a);
    } else {
        lemma_seq_sum_concat(a, b.drop_last());
        assert((a + b).drop_last() == a + b.drop_last());
    }
}

pub proof fn lemma_seq_sum_split(s: Seq<u64>, i: int, j: int, k: int)
    requires
        0 <= i <= j <= k <= s.len(),
    ensures
        seq_sum(s.subrange(i, k)) == seq_sum(s.subrange(i, j)) + seq_sum(s.subrange(j, k)),
        0 <= seq_sum(s.subrange(i, j)),
        0 <= seq_sum(s.subrange(j, k)),
{
    assert(s.subrange(i, k) == s.subrange(i, j) + s.subrange(j, k));
    lemma_seq_sum_concat(s.subrange(i, j), s.subrange(j, k));
    lemma_seq_sum_nonneg(s.subrange(i, j));
    lemma_seq_sum_nonneg(s.subrange(j, k));
}

/// A part of a sequence weighs no more than the whole.
pub proof fn lemma_seq_sum_subrange(s: Seq<u64>, i: int, j: int)
    requires
        0 <= i <= j <= s.len(),
    ensures
        0 <= seq_sum(s.subrange(i, j)) <= seq_sum(s),
{
    lemma_seq_sum_split(s, 0, i, s.len() as int);
    lemma_seq_sum_split(s, i, j, s.len() as int);
    lemma_seq_sum_nonneg(s.subrange(0, i));
    assert(s.subrange(0, s.len() as int) == s);
}

/// `x * m / d` grows with `x`, and stays within `m` while `x <= d`.
proof fn lemma_scaled(x: int, y: int, m: int, d: int)
    requires
        0 <= x <= y <= d,
        0 <= m,
        0 < d,
    ensures
        x * m / d <= y * m / d,
        y * m / d <= m,
        d * m / d == m,
        0 <= x * m / d,
{
    vstd::arithmetic::mul::lemma_mul_inequality(x, y, m);
    vstd::arithmetic::mul::lemma_mul_inequality(y, d, m);
    vstd::arithmetic::div_mod::lemma_div_is_ordered(x * m, y * m, d);
    vstd::arithmetic::div_mod::lemma_div_is_ordered(y * m, d * m, d);
    vstd::arithmetic::div_mod::lemma_div_multiples_vanish(m, d);
    vstd::arithmetic::mul::lemma_mul_nonnegative(x, m);
    vstd::arithmetic::div_mod::lemma_div_pos_is_pos(x * m, d);
}

/// `x * m / d` computed in 128 bits, for `x <= d`.
fn scaled(x: u64, m: u32, d: u64) -> (r: u32)
    requires
        x <= d,
        0 < d,
    ensures
        r == x * m / (d as int),
        r <= m,
{
    proof {
        lemma_scaled(x as int, d as int, m as int, d as int);
        assert(x * m <= u64::MAX as int * u32::MAX as int) by (nonlinear_arith)
            requires
                x <= u64::MAX,
                m <= u32::MAX,
        ;
    }
    let p: u128 = (x as u128) * (m as u128);
    (p / (d as u128)) as u32
}

/// The state of a squarified layout of one sequence of sizes: the part of
/// the rectangle that is still free, the weight still to place there, and
/// the rectangles placed so far, one per item, in order.
pub struct Layouting {
    pub remaining: Rect,
    pub remaining_size: u64,
    pub result: Vec<Rect>,
}

impl Layouting {
    /// Length of the shorter side of the free rectangle.
    pub fn short_length(&self) -> (r: u32)
        requires
            self.remaining.wf(),
        ensures
            r == short_spec(self.remaining),
    {
        if self.remaining.height() > self.remaining.width() {
            self.remaining.width()
        } else {
            self.remaining.height()
        }
    }

    /// Length of the longer side of the free rectangle.
    pub fn long_length(&self) -> (r: u32)
        requires
            self.remaining.wf(),
        ensures
            r == long_spec(self.remaining),
    {
        if self.remaining.height() > self.remaining.width() {
            self.remaining.height()
        } else {
            self.remaining.width()
        }
    }

    pub fn layout_direction(&self) -> (r: LayoutDirection)
        requires
            self.remaining.wf(),
        ensures
            r == (if self.remaining.is_tall() {
                LayoutDirection::Horizontal
            } else {
                LayoutDirection::Vertical
            }),
    {
        if self.remaining.height() > self.remaining.width() {
            LayoutDirection::Horizontal
        } else {
            LayoutDirection::Vertical
        }
    }
    /// Lays out `sizes[start..end]` as one row: a strip of the free
    /// rectangle along its long side, as thick as the row's share of the
    /// weight still to place, cut across into one rectangle per item in
    /// proportion to its size. The strip is then taken off the free
    /// rectangle. Positions are rounded down; the last item of the row ends
    /// at the far edge of the strip.
    pub fn layout_row(&mut self, sizes: &[u64], start: usize, end: usize)
        requires
            old(self).remaining.wf(),
            start < end <= sizes@.len(),
            old(self).remaining_size == seq_sum(sizes@.subrange(start as int, sizes@.len() as int)),
        ensures
            ({
                let rem = old(self).remaining;
                let n0 = old(self).result@.len();
                let row = seq_sum(sizes@.subrange(start as int, end as int));
                let t = thickness(row, long_spec(rem), old(self).remaining_size as int);
                &&& final(self).result@.len() == n0 + (end - start)
                &&& final(self).result@.take(n0 as int) == old(self).result@
                &&& final(self).remaining == rest_rect(rem, t)
                &&& final(self).remaining_size == old(self).remaining_size - row
                &&& forall|i: int|
                    n0 <= i < final(self).result@.len() ==> #[trigger] final(self).result@[i]
                        == item_rect(
                        rem,
                        t,
                        offset(
                            seq_sum(sizes@.subrange(start as int, start + i - n0)),
                            short_spec(rem),
                            row,
                        ),
                        offset(
                            seq_sum(sizes@.subrange(start as int, start + i - n0 + 1)),
                            short_spec(rem),
                            row,
                        ),
                    )
            }),
            final(self).result@ == old(self).result@ + row_rects(
                sizes@,
                start as int,
                end as int,
                old(self).remaining,
                old(self).remaining_size as int,
            ),
            final(self).remaining.wf(),
            old(self).remaining.contains(final(self).remaining),
            forall|i: int|
                old(self).result@.len() <= i < final(self).result@.len() ==> {
                    let r = #[trigger] final(self).result@[i];
                    &&& r.wf()
                    &&& old(self).remaining.contains(r)
                    &&& r.disjoint(final(self).remaining)
                    &&& sizes@[start + i - old(self).result@.len()] == 0 ==> r.area_spec() == 0
                },
            forall|i: int, j: int|
                old(self).result@.len() <= i < j < final(self).result@.len() ==> (#[trigger] final(self).result@[i]).disjoint(#[trigger] final(self).result@[j]),
            sum_areas(final(self).result@) + final(self).remaining.area_spec() == sum_areas(old(self).result@) + old(self).remaining.area_spec(),
            old(self).remaining.area_spec() == 0 ==> final(self).remaining.area_spec() == 0,
            old(self).remaining_size > 0 && final(self).remaining_size == 0 ==> final(self).remaining.area_spec() == 0,
    {
        let ghost s = sizes@;
        let ghost n0 = self.result@.len();
        let ghost old_result = self.result@;
        let rem = self.remaining;
        let dir = self.layout_direction();
        let short = self.short_length();
        let long = self.long_length();
        let total = self.remaining_size;
        proof {
            lemma_seq_sum_split(s, start as int, end as int, s.len() as int);
        }
        let mut row: u64 = 0;
        let mut j: usize = start;
        while j < end
            invariant
                start <= j <= end <= s.len(),
                s == sizes@,
                row == seq_sum(s.subrange(start as int, j as int)),
                seq_sum(s.subrange(start as int, end as int)) <= total,
            decreases end - j,
        {
            proof {
                lemma_seq_sum_split(s, start as int, j as int + 1, end as int);
                assert(s.subrange(start as int, j as int + 1).drop_last() == s.subrange(
                    start as int,
                    j as int,
                ));
            }
            row = row + sizes[j];
            j = j + 1;
        }
        let t: u32 = if total == 0 {
            0
        } else {
            scaled(row, long, total)
        };
        proof {
            if total > 0 {
                lemma_scaled(row as int, total as int, long as int, total as int);
            }
        }
        assert(t == thickness(row as int, long as int, total as int));
        assert(t <= long);
        let mut p: u64 = 0;
        let mut off: u32 = 0;
        let mut k: usize = start;
        while k < end
            invariant
                start <= k <= end <= s.len(),
                s == sizes@,
                rem.wf(),
                rem == old(self).remaining,
                self.remaining == rem,
                self.remaining_size == total,
                total == old(self).remaining_size,
                dir == (if rem.is_tall() {
                    LayoutDirection::Horizontal
                } else {
                    LayoutDirection::Vertical
                }),
                short == short_spec(rem),
                long == long_spec(rem),
                row == seq_sum(s.subrange(start as int, end as int)),
                t == thickness(row as int, long as int, total as int),
                t <= long,
                p == seq_sum(s.subrange(start as int, k as int)),
                p <= row,
                off == offset(p as int, short as int, row as int),
                off <= short,
                n0 == old_result.len(),
                self.result@.len() == n0 + (k - start),
                self.result@.take(n0 as int) == old_result,
                forall|i: int|
                    n0 <= i < self.result@.len() ==> #[trigger] self.result@[i] == item_rect(
                        rem,
                        t as int,
                        offset(
                            seq_sum(s.subrange(start as int, start + i - n0)),
                            short as int,
                            row as int,
                        ),
                        offset(
                            seq_sum(s.subrange(start as int, start + i - n0 + 1)),
                            short as int,
                            row as int,
                        ),
                    ),
                forall|i: int|
                    n0 <= i < self.result@.len() ==> {
                        let r = #[trigger] self.result@[i];
                        &&& r.wf()
                        &&& rem.contains(r)
                        &&& r.disjoint(rest_rect(rem, t as int))
                        &&& s[start + i - n0] == 0 ==> r.area_spec() == 0
                        &&& rem.is_tall() ==> r.x1 <= rem.x0 + off
                        &&& !rem.is_tall() ==> r.y1 <= rem.y0 + off
                    },
                forall|i: int, j: int|
                    n0 <= i < j < self.result@.len() ==> (#[trigger] self.result@[i]).disjoint(
                        #[trigger] self.result@[j],
                    ),
                sum_areas(self.result@) == sum_areas(old_result) + t * off,
            decreases end - k,
        {
            proof {
                lemma_seq_sum_split(s, start as int, k as int + 1, end as int);
                assert(s.subrange(start as int, k as int + 1).drop_last() == s.subrange(
                    start as int,
                    k as int,
                ));
            }
            let np: u64 = p + sizes[k];
            let noff: u32 = if row == 0 {
                0
            } else {
                scaled(np, short, row)
            };
            proof {
                if row > 0 {
                    lemma_scaled(p as int, np as int, short as int, row as int);
                }
            }
            let rect = match dir {
                LayoutDirection::Vertical => Rect {
                    x0: rem.x0,
                    y0: rem.y0 + off,
                    x1: rem.x0 + t,
                    y1: rem.y0 + noff,
                },
                LayoutDirection::Horizontal => Rect {
                    x0: rem.x0 + off,
                    y0: rem.y0,
                    x1: rem.x0 + noff,
                    y1: rem.y0 + t,
                },
            };
            let ghost before = self.result@;
            self.result.push(rect);
            proof {
                assert(self.result@.drop_last() == before);
                assert(rect.area_spec() == t * (noff - off)) by (nonlinear_arith)
                    requires
                        rect.area_spec() == (rect.x1 - rect.x0) * (rect.y1 - rect.y0),
                        (rect.x1 - rect.x0 == t && rect.y1 - rect.y0 == noff - off) || (rect.x1
                            - rect.x0 == noff - off && rect.y1 - rect.y0 == t),
                ;
                assert(t * off + t * (noff - off) == t * noff) by (nonlinear_arith);
                if sizes[k as int] == 0 {
                    assert(np == p);
                    assert(rect.area_spec() == 0) by (nonlinear_arith)
                        requires
                            rect.area_spec() == t * (noff - off),
                            noff == off,
                    ;
                }
                assert(self.result@.take(n0 as int) == old_result);
                assert forall|i: int|
                    n0 <= i < self.result@.len() - 1 implies #[trigger] self.result@[i] == before[i] by {}
            }
            p = np;
            off = noff;
            k = k + 1;
        }
        proof {
            assert(s.subrange(start as int, k as int) == s.subrange(start as int, end as int));
            if row > 0 {
                lemma_scaled(row as int, row as int, short as int, row as int);
            }
            assert(t * off == t * short_spec(rem));
        }
        self.remaining = match dir {
            LayoutDirection::Vertical => Rect { x0: rem.x0 + t, y0: rem.y0, x1: rem.x1, y1: rem.y1 },
            LayoutDirection::Horizontal => Rect {
                x0: rem.x0,
                y0: rem.y0 + t,
                x1: rem.x1,
                y1: rem.y1,
            },
        };
        self.remaining_size = total - row;
        proof {
            let rr = row_rects(s, start as int, end as int, rem, total as int);
            assert forall|i: int| 0 <= i < self.result@.len() implies #[trigger] self.result@[i]
                == (old_result + rr)[i] by {
                if i < n0 {
                    assert(self.result@.take(n0 as int)[i] == self.result@[i]);
                }
            }
            assert(self.result@ =~= old_result + rr);
            let nr = self.remaining;
            assert(t * short_spec(rem) + nr.area_spec() == rem.area_spec()) by (nonlinear_arith)
                requires
                    rem.area_spec() == (rem.x1 - rem.x0) * (rem.y1 - rem.y0),
                    nr.area_spec() == (nr.x1 - nr.x0) * (nr.y1 - nr.y0),
                    (rem.is_tall() && nr.x1 - nr.x0 == rem.x1 - rem.x0 && nr.y1 - nr.y0 == rem.y1
                        - rem.y0 - t && short_spec(rem) == rem.x1 - rem.x0) || (!rem.is_tall()
                        && nr.y1 - nr.y0 == rem.y1 - rem.y0 && nr.x1 - nr.x0 == rem.x1 - rem.x0
                        - t && short_spec(rem) == rem.y1 - rem.y0),
            ;
            if rem.area_spec() == 0 {
                assert(nr.area_spec() == 0) by (nonlinear_arith)
                    requires
                        rem.area_spec() == (rem.x1 - rem.x0) * (rem.y1 - rem.y0),
                        nr.area_spec() == (nr.x1 - nr.x0) * (nr.y1 - nr.y0),
                        rem.area_spec() == 0,
                        0 <= t <= long,
                        (rem.is_tall() && nr.x1 - nr.x0 == rem.x1 - rem.x0 && nr.y1 - nr.y0
                            == rem.y1 - rem.y0 - t && long == rem.y1 - rem.y0) || (
                        !rem.is_tall() && nr.y1 - nr.y0 == rem.y1 - rem.y0 && nr.x1 - nr.x0
                            == rem.x1 - rem.x0 - t && long == rem.x1 - rem.x0),
                ;
            }
            if row == total && total > 0 {
                lemma_scaled(row as int, row as int, long as int, row as int);
                assert(t == long);
                assert(nr.area_spec() == 0) by (nonlinear_arith)
                    requires
                        nr.area_spec() == (nr.x1 - nr.x0) * (nr.y1 - nr.y0),
                        nr.x1 - nr.x0 == 0 || nr.y1 - nr.y0 == 0,
                ;
            }
        }
    }
}

/// The end of the row that starts at `start`: the row takes in one item
/// after another while its worst ratio, along a side of length `length`, is
/// zero or would not get larger by the next item.
pub fn row_end(sizes: &[u64], start: usize, length: u32) -> (r: usize)
    requires
        start < sizes@.len(),
        seq_sum(sizes@) <= u64::MAX,
    ensures
        start < r <= sizes@.len(),
        forall|k: int| start < k < r ==> row_grows(sizes@, start as int, k, length as int),
        r < sizes@.len() ==> !row_grows(sizes@, start as int, r as int, length as int),
        r == greedy_end(sizes@, start as int, length as int),
{
    let n = sizes.len();
    let mut k: usize = start + 1;
    while k < n
        invariant
            start < k <= sizes@.len(),
            n == sizes@.len(),
            seq_sum(sizes@) <= u64::MAX,
            forall|j: int| start < j < k ==> row_grows(sizes@, start as int, j, length as int),
            grow_from(sizes@, start as int, k as int, length as int) == greedy_end(
                sizes@,
                start as int,
                length as int,
            ),
        decreases sizes@.len() - k,
    {
        proof {
            lemma_seq_sum_subrange(sizes@, start as int, k as int);
            lemma_seq_sum_subrange(sizes@, start as int, k as int + 1);
        }
        let current = worst(vstd::slice::slice_subrange(sizes, start, k), length);
        let next = worst(vstd::slice::slice_subrange(sizes, start, k + 1), length);
        if current.0 == 0 || cmp_ratio(current.0, current.1, next.0, next.1) >= 0 {
            k = k + 1;
        } else {
            return k;
        }
    }
    k
}

/// Squarified treemap of one level: one rectangle for each of `sizes`, in
/// order, within `bounds`. The rectangles share no area, an item of size
/// zero gets an empty one, and where the sizes do not all vanish the
/// rectangles cover `bounds` exactly.
pub fn squarify(sizes: &[u64], bounds: Rect) -> (r: Vec<Rect>)
    requires
        bounds.wf(),
        seq_sum(sizes@) <= u64::MAX,
    ensures
        r@.len() == sizes@.len(),
        forall|i: int| 0 <= i < r@.len() ==> (#[trigger] r@[i]).wf() && bounds.contains(r@[i]),
        forall|i: int| 0 <= i < r@.len() && sizes@[i] == 0 ==> (#[trigger] r@[i]).area_spec() == 0,
        forall|i: int, j: int|
            0 <= i < r@.len() && 0 <= j < r@.len() && i != j ==> (#[trigger] r@[i]).disjoint(
                #[trigger] r@[j],
            ),
        seq_sum(sizes@) > 0 ==> sum_areas(r@) == bounds.area_spec(),
        r@ == squarify_from(sizes@, 0, bounds, seq_sum(sizes@)),
{
    let ghost s = sizes@;
    let mut total: u64 = 0;
    let mut i: usize = 0;
    while i < sizes.len()
        invariant
            i <= s.len(),
            s == sizes@,
            seq_sum(s) <= u64::MAX,
            total == seq_sum(s.take(i as int)),
        decreases s.len() - i,
    {
        proof {
            crate::metric::lemma_seq_sum_prefix(s, i as int + 1);
            assert(s.take(i as int + 1).drop_last() == s.take(i as int));
        }
        total = total + sizes[i];
        i = i + 1;
    }
    assert(s.take(i as int) == s);
    assert(s.subrange(0, s.len() as int) == s);
    let mut l = Layouting { remaining: bounds, remaining_size: total, result: Vec::new() };
    let mut start: usize = 0;
    while start < sizes.len()
        invariant
            start <= s.len(),
            s == sizes@,
            seq_sum(s) <= u64::MAX,
            total == seq_sum(s),
            bounds.wf(),
            l.remaining.wf(),
            bounds.contains(l.remaining),
            l.remaining_size == seq_sum(s.subrange(start as int, s.len() as int)),
            l.result@.len() == start,
            forall|i: int|
                0 <= i < l.result@.len() ==> {
                    let r = #[trigger] l.result@[i];
                    &&& r.wf()
                    &&& bounds.contains(r)
                    &&& r.disjoint(l.remaining)
                    &&& s[i] == 0 ==> r.area_spec() == 0
                },
            forall|i: int, j: int|
                0 <= i < j < l.result@.len() ==> (#[trigger] l.result@[i]).disjoint(
                    #[trigger] l.result@[j],
                ),
            sum_areas(l.result@) + l.remaining.area_spec() == bounds.area_spec(),
            total > 0 && l.remaining_size == 0 ==> l.remaining.area_spec() == 0,
            l.result@ + squarify_from(s, start as int, l.remaining, l.remaining_size as int)
                == squarify_from(s, 0, bounds, total as int),
        decreases s.len() - start,
    {
        let length = l.short_length();
        let end = row_end(sizes, start, length);
        let ghost before = l;
        l.layout_row(sizes, start, end);
        proof {
            lemma_seq_sum_split(s, start as int, end as int, s.len() as int);
            let tail = squarify_from(s, end as int, l.remaining, l.remaining_size as int);
            assert(squarify_from(s, start as int, before.remaining, before.remaining_size as int)
                == row_rects(s, start as int, end as int, before.remaining, before.remaining_size as int)
                + tail);
            assert(l.result@ + tail =~= before.result@ + squarify_from(
                s,
                start as int,
                before.remaining,
                before.remaining_size as int,
            ));
            assert forall|i: int| 0 <= i < before.result@.len() implies #[trigger] l.result@[i]
                == before.result@[i] by {
                assert(l.result@.take(before.result@.len() as int)[i] == l.result@[i]);
            }
            assert forall|i: int| 0 <= i < l.result@.len() implies {
                let r = #[trigger] l.result@[i];
                &&& r.wf()
                &&& bounds.contains(r)
                &&& r.disjoint(l.remaining)
                &&& s[i] == 0 ==> r.area_spec() == 0
            } by {
                if i < before.result@.len() {
                    let r = l.result@[i];
                    assert(r == before.result@[i]);
                    assert(r.disjoint(before.remaining));
                    assert(before.remaining.contains(l.remaining));
                }
            }
            assert forall|i: int, j: int|
                0 <= i < j < l.result@.len() implies (#[trigger] l.result@[i]).disjoint(
                #[trigger] l.result@[j],
            ) by {
                if j < before.result@.len() {
                    assert(l.result@[i] == before.result@[i]);
                    assert(l.result@[j] == before.result@[j]);
                } else if i < before.result@.len() {
                    assert(l.result@[i] == before.result@[i]);
                    assert(l.result@[i].disjoint(before.remaining));
                    assert(before.remaining.contains(l.result@[j]));
                }
            }
        }
        start = end;
    }
    proof {
        assert(s.subrange(start as int, s.len() as int).len() == 0);
        assert(squarify_from(s, start as int, l.remaining, l.remaining_size as int) == Seq::<Rect>::empty());
        assert(l.result@ + Seq::<Rect>::empty() =~= l.result@);
        assert forall|i: int, j: int|
            0 <= i < l.result@.len() && 0 <= j < l.result@.len() && i != j implies (
            #[trigger] l.result@[i]).disjoint(#[trigger] l.result@[j]) by {
            if j < i {
                assert(l.result@[j].disjoint(l.result@[i]));
            }
        }
    }
    l.result
}

} // verus!
