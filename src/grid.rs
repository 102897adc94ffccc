use vstd::prelude::*;

verus! {

/// A position on a grid: `x` along the width, `y` along the depth.
#[derive(Clone, Copy, Debug, PartialEq, Eq, Hash, Structural)]
pub struct Coord {
    pub x: u8,
    pub y: u8,
}

impl Coord {
    pub fn new(x: u8, y: u8) -> (r: Coord)
        ensures
            r == (Coord { x, y }),
    {
        Coord { x, y }
    }
}

/// The rectangle of coordinates from `start` to `end`, both included.
#[derive(Clone, Copy, Debug, PartialEq, Eq, Hash, Structural)]
pub struct Bounds {
    pub start: Coord,
    pub end: Coord,
}

impl Bounds {
    pub open spec fn wf(self) -> bool {
        self.start.x <= self.end.x && self.start.y <= self.end.y
    }

    pub open spec fn spec_start(self) -> Coord {
        self.start
    }

    pub open spec fn spec_end(self) -> Coord {
        self.end
    }

    pub open spec fn spec_width(self) -> nat {
        (self.end.x - self.start.x + 1) as nat
    }

    pub open spec fn spec_depth(self) -> nat {
        (self.end.y - self.start.y + 1) as nat
    }

    /// Number of cells.
    pub open spec fn size(self) -> nat {
        self.spec_width() * self.spec_depth()
    }

    pub open spec fn spec_contains(self, c: Coord) -> bool {
        self.start.x <= c.x <= self.end.x && self.start.y <= c.y <= self.end.y
    }

    /// Row-major position of `c`: rows by depth, cells by width within a row.
    pub open spec fn spec_index(self, c: Coord) -> int {
        (c.y - self.start.y) * self.spec_width() + (c.x - self.start.x)
    }

    /// The coordinate at row-major position `i`.
    pub open spec fn spec_coord(self, i: int) -> Coord {
        Coord {
            x: (self.start.x + i % (self.spec_width() as int)) as u8,
            y: (self.start.y + i / (self.spec_width() as int)) as u8,
        }
    }

    /// A `width` by `depth` rectangle starting at `(0, 0)`.
    pub fn new(width: u8, depth: u8) -> (r: Bounds)
        requires
            width >= 1,
            depth >= 1,
        ensures
            r.wf(),
            r.spec_start() == (Coord { x: 0, y: 0 }),
            r.spec_end() == (Coord { x: (width - 1) as u8, y: (depth - 1) as u8 }),
            r.spec_width() == width,
            r.spec_depth() == depth,
    {
        Bounds { start: Coord { x: 0, y: 0 }, end: Coord { x: width - 1, y: depth - 1 } }
    }

    /// The rectangle with corners `start` and `end`.
    pub fn spanning(start: Coord, end: Coord) -> (r: Bounds)
        requires
            start.x <= end.x,
            start.y <= end.y,
        ensures
            r.wf(),
            r.spec_start() == start,
            r.spec_end() == end,
    {
        Bounds { start, end }
    }

    pub fn start(&self) -> (r: Coord)
        ensures
            r == self.spec_start(),
    {
        self.start
    }

    pub fn end(&self) -> (r: Coord)
        ensures
            r == self.spec_end(),
    {
        self.end
    }

    pub fn width(&self) -> (r: u16)
        requires
            self.wf(),
        ensures
            r == self.spec_width(),
    {
        (self.end.x - self.start.x) as u16 + 1
    }

    pub fn depth(&self) -> (r: u16)
        requires
            self.wf(),
        ensures
            r == self.spec_depth(),
    {
        (self.end.y - self.start.y) as u16 + 1
    }

    /// A rectangle has at most 65536 cells.
    pub proof fn lemma_size_bound(self)
        requires
            self.wf(),
        ensures
            self.size() <= 65536,
    {
        lemma_index_in_range(self.spec_width(), self.spec_depth(), 0, 0);
    }

    /// Number of cells.
    pub fn cell_count(&self) -> (r: usize)
        requires
            self.wf(),
        ensures
            r == self.size(),
            r <= 65536,
    {
        let w = self.width();
        let d = self.depth();
        proof {
            lemma_index_in_range(w as nat, d as nat, 0, 0);
        }
        w as usize * d as usize
    }

    pub fn contains(&self, c: Coord) -> (r: bool)
        ensures
            r == self.spec_contains(c),
    {
        self.start.x <= c.x && c.x <= self.end.x && self.start.y <= c.y && c.y <= self.end.y
    }

    pub fn index(&self, c: Coord) -> (r: usize)
        requires
            self.wf(),
            self.spec_contains(c),
        ensures
            r == self.spec_index(c),
            r < self.size(),
    {
        let w: usize = self.width() as usize;
        let dy: usize = (c.y - self.start.y) as usize;
        let dx: usize = (c.x - self.start.x) as usize;
        proof {
            lemma_index_in_range(self.spec_width(), self.spec_depth(), dy as nat, dx as nat);
        }
        dy * w + dx
    }
}

proof fn lemma_index_in_range(w: nat, d: nat, dy: nat, dx: nat)
    requires
        dy < d,
        dx < w,
        w <= 256,
        d <= 256,
    ensures
        dy * w + dx < w * d,
        w * d <= 65536,
{
    assert(dy * w + dx < w * d) by (nonlinear_arith)
        requires
            dy < d,
            dx < w,
    ;
    assert(w * d <= 65536) by (nonlinear_arith)
        requires
            w <= 256,
            d <= 256,
    ;
}

/// Distinct coordinates of a rectangle have distinct row-major positions,
/// and every position below the size belongs to exactly one coordinate.
pub proof fn lemma_index_coord(b: Bounds, c: Coord)
    requires
        b.wf(),
        b.spec_contains(c),
    ensures
        0 <= b.spec_index(c) < b.size(),
        b.spec_coord(b.spec_index(c)) == c,
{
    let w = b.spec_width() as int;
    let dy = (c.y - b.start.y) as int;
    let dx = (c.x - b.start.x) as int;
    lemma_index_in_range(b.spec_width(), b.spec_depth(), dy as nat, dx as nat);
    assert((dy * w + dx) % w == dx && (dy * w + dx) / w == dy) by (nonlinear_arith)
        requires
            0 <= dx < w,
            0 <= dy,
    ;
}

/// Every row-major position below the size is the position of a coordinate
/// of the rectangle.
pub proof fn lemma_coord_index(b: Bounds, i: int)
    requires
        b.wf(),
        0 <= i < b.size(),
    ensures
        b.spec_contains(b.spec_coord(i)),
        b.spec_index(b.spec_coord(i)) == i,
{
    let w = b.spec_width() as int;
    let d = b.spec_depth() as int;
    assert(0 <= i % w < w && 0 <= i / w < d && (i / w) * w + i % w == i) by (nonlinear_arith)
        requires
            0 <= i < w * d,
            w >= 1,
    ;
}

} // verus!
