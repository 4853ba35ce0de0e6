//! Axis-aligned rectangles on an integer grid.
use vstd::prelude::*;

verus! {

/// The rectangle `[x0, x1) x [y0, y1)`; well-formed when `x0 <= x1` and
/// `y0 <= y1`. Empty (zero-width or zero-height) rectangles are allowed.
#[derive(Clone, Copy, Debug, PartialEq, Eq, Structural)]
pub struct Rect {
    pub x0: u32,
    pub y0: u32,
    pub x1: u32,
    pub y1: u32,
}

impl Rect {
    pub open spec fn wf(self) -> bool {
        self.x0 <= self.x1 && self.y0 <= self.y1
    }

    pub open spec fn width_spec(self) -> int {
        self.x1 - self.x0
    }

    pub open spec fn height_spec(self) -> int {
        self.y1 - self.y0
    }

    pub open spec fn area_spec(self) -> int {
        self.width_spec() * self.height_spec()
    }

    /// `inner` lies within `self`.
    pub open spec fn contains(self, inner: Rect) -> bool {
        self.x0 <= inner.x0 && inner.x1 <= self.x1 && self.y0 <= inner.y0 && inner.y1 <= self.y1
    }

    /// The two rectangles share no area: their intersection has no width
    /// or no height.
    pub open spec fn disjoint(self, o: Rect) -> bool {
        min_of(self.x1 as int, o.x1 as int) <= max_of(self.x0 as int, o.x0 as int) || min_of(
            self.y1 as int,
            o.y1 as int,
        ) <= max_of(self.y0 as int, o.y0 as int)
    }

    /// Taller than wide: the height-to-width aspect ratio exceeds one.
    pub open spec fn is_tall(self) -> bool {
        self.height_spec() > self.width_spec()
    }

    pub fn new(x0: u32, y0: u32, x1: u32, y1: u32) -> (r: Rect)
        requires
            x0 <= x1,
            y0 <= y1,
        ensures
            r == (Rect { x0, y0, x1, y1 }),
            r.wf(),
    {
        Rect { x0, y0, x1, y1 }
    }

    pub fn width(&self) -> (r: u32)
        requires
            self.wf(),
        ensures
            r == self.width_spec(),
    {
        self.x1 - self.x0
    }

    pub fn height(&self) -> (r: u32)
        requires
            self.wf(),
        ensures
            r == self.height_spec(),
    {
        self.y1 - self.y0
    }

    pub fn area(&self) -> (r: u64)
        requires
            self.wf(),
        ensures
            r == self.area_spec(),
    {
        let w = self.width() as u64;
        let h = self.height() as u64;
        assert(w * h <= u32::MAX as u64 * u32::MAX as u64) by (nonlinear_arith)
            requires
                w <= u32::MAX,
                h <= u32::MAX,
        ;
        w * h
    }

    /// Whether the point `(x, y)` lies in the rectangle.
    pub fn contains_point(&self, x: u32, y: u32) -> (r: bool)
        ensures
            r == (self.x0 <= x < self.x1 && self.y0 <= y < self.y1),
    {
        self.x0 <= x && x < self.x1 && self.y0 <= y && y < self.y1
    }
}

pub open spec fn min_of(a: int, b: int) -> int {
    if a <= b {
        a
    } else {
        b
    }
}

pub open spec fn max_of(a: int, b: int) -> int {
    if a >= b {
        a
    } else {
        b
    }
}

/// Where the cut falls along a side of length `len` that starts at `start`,
/// for the fraction `num / den`.
pub open spec fn cut_at(start: int, len: int, num: int, den: int) -> int {
    start + len * num / den
}

/// Splits `source` in two by the fraction `num / den`. A rectangle whose
/// height is less than 1.2 times its width is cut across its width, any
/// other across its height; the first part takes the fraction, the second
/// part the rest, and the two share the cut.
pub fn divide_rect(source: Rect, num: u32, den: u32) -> (r: (Rect, Rect))
    requires
        source.wf(),
        0 < den,
        num <= den,
    ensures
        r.0.wf(),
        r.1.wf(),
        5 * source.height_spec() < 6 * source.width_spec() ==> {
            let c = cut_at(source.x0 as int, source.width_spec(), num as int, den as int);
            &&& r.0 == (Rect { x0: source.x0, y0: source.y0, x1: c as u32, y1: source.y1 })
            &&& r.1 == (Rect { x0: c as u32, y0: source.y0, x1: source.x1, y1: source.y1 })
        },
        !(5 * source.height_spec() < 6 * source.width_spec()) ==> {
            let c = cut_at(source.y0 as int, source.height_spec(), num as int, den as int);
            &&& r.0 == (Rect { x0: source.x0, y0: source.y0, x1: source.x1, y1: c as u32 })
            &&& r.1 == (Rect { x0: source.x0, y0: c as u32, x1: source.x1, y1: source.y1 })
        },
{
    let w = source.width() as u64;
    let h = source.height() as u64;
    if 5 * h < 6 * w {
        let d = scale(w, num, den);
        let c = source.x0 + d;
        (
            Rect { x0: source.x0, y0: source.y0, x1: c, y1: source.y1 },
            Rect { x0: c, y0: source.y0, x1: source.x1, y1: source.y1 },
        )
    } else {
        let d = scale(h, num, den);
        let c = source.y0 + d;
        (
            Rect { x0: source.x0, y0: source.y0, x1: source.x1, y1: c },
            Rect { x0: source.x0, y0: c, x1: source.x1, y1: source.y1 },
        )
    }
}

/// `len * num / den`, rounded down, for a fraction no larger than one.
fn scale(len: u64, num: u32, den: u32) -> (r: u32)
    requires
        len <= u32::MAX,
        0 < den,
        num <= den,
    ensures
        r == len * num / (den as int),
        r <= len,
{
    proof {
        assert(len * num <= len * den) by (nonlinear_arith)
            requires
                num <= den,
                0 <= len,
        ;
        assert(len * num / (den as int) <= len) by (nonlinear_arith)
            requires
                len * num <= len * den,
                0 < den,
                0 <= len,
        ;
        assert(len * num <= u32::MAX as u64 * u32::MAX as u64) by (nonlinear_arith)
            requires
                num <= u32::MAX,
                len <= u32::MAX,
        ;
    }
    let p = len * (num as u64);
    (p / (den as u64)) as u32
}

} // verus!
