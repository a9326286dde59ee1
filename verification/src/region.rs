use vstd::prelude::*;

verus! {

/// Rectangular area within a `Universe`. All coordinates are game coordinates.
#[derive(Eq, PartialEq, Structural, Ord, PartialOrd, Copy, Clone, Debug)]
pub struct Region {
    left: isize,
    top: isize,
    width: usize,
    height: usize,
}

/// A region is valid when it is not empty and its right and bottom edges are representable.
pub open spec fn region_params_ok(left: int, top: int, width: int, height: int) -> bool {
    &&& 0 < width <= isize::MAX
    &&& 0 < height <= isize::MAX
    &&& left + width - 1 <= isize::MAX
    &&& top + height - 1 <= isize::MAX
    &&& isize::MIN <= left
    &&& isize::MIN <= top
}

impl Region {
    #[verifier::type_invariant]
    pub open spec fn inv(self) -> bool {
        region_params_ok(self.left_spec(), self.top_spec(), self.width_spec(), self.height_spec())
    }

    /// Leftmost column.
    pub closed spec fn left_spec(self) -> int {
        self.left as int
    }

    /// Uppermost row.
    pub closed spec fn top_spec(self) -> int {
        self.top as int
    }

    /// Number of columns.
    pub closed spec fn width_spec(self) -> int {
        self.width as int
    }

    /// Number of rows.
    pub closed spec fn height_spec(self) -> int {
        self.height as int
    }

    pub open spec fn right_spec(self) -> int {
        self.left_spec() + self.width_spec() - 1
    }

    pub open spec fn bottom_spec(self) -> int {
        self.top_spec() + self.height_spec() - 1
    }

    /// Whether the cell `(col, row)` lies within the region.
    pub open spec fn contains_spec(self, col: int, row: int) -> bool {
        &&& self.left_spec() <= col <= self.right_spec()
        &&& self.top_spec() <= row <= self.bottom_spec()
    }

    /// A region is determined by its left column, top row, width and height.
    pub proof fn lemma_region_ext(a: Region, b: Region)
        requires
            a.left_spec() == b.left_spec(),
            a.top_spec() == b.top_spec(),
            a.width_spec() == b.width_spec(),
            a.height_spec() == b.height_spec(),
        ensures
            a == b,
    {
    }

    /// Creates a new region given x and y coordinates of top-left corner, and width and height,
    /// all in units of cells (game coordinates). Width and height must both be positive.
    pub fn new(left: isize, top: isize, width: usize, height: usize) -> (r: Self)
        requires
            region_params_ok(left as int, top as int, width as int, height as int),
        ensures
            r.left_spec() == left,
            r.top_spec() == top,
            r.width_spec() == width,
            r.height_spec() == height,
    {
        Region { left, top, width, height }
    }

    /// Returns the x coordinate of the leftmost cells of the Region, in game coordinates.
    pub fn left(&self) -> (r: isize)
        ensures
            r == self.left_spec(),
    {
        self.left
    }

    /// Returns the x coordinate of the rightmost cells of the Region, in game coordinates.
    pub fn right(&self) -> (r: isize)
        ensures
            r == self.right_spec(),
    {
        proof {
            use_type_invariant(self);
        }
        self.left + ((self.width - 1) as isize)
    }

    /// Returns the y coordinate of the uppermost cells of the Region, in game coordinates.
    pub fn top(&self) -> (r: isize)
        ensures
            r == self.top_spec(),
    {
        self.top
    }

    /// Returns the y coordinate of the lowermost cells of the Region, in game coordinates.
    pub fn bottom(&self) -> (r: isize)
        ensures
            r == self.bottom_spec(),
    {
        proof {
            use_type_invariant(self);
        }
        self.top + ((self.height - 1) as isize)
    }

    /// Returns the width of the Region (along x axis), in game coordinates.
    pub fn width(&self) -> (r: usize)
        ensures
            r == self.width_spec(),
    {
        self.width
    }

    /// Returns the height of the Region (along y axis), in game coordinates.
    pub fn height(&self) -> (r: usize)
        ensures
            r == self.height_spec(),
    {
        self.height
    }

    /// Determines whether the specified cell is part of the Region.
    pub fn contains(&self, col: isize, row: isize) -> (r: bool)
        ensures
            r == self.contains_spec(col as int, row as int),
    {
        self.left <= col && col <= self.right() && self.top <= row && row <= self.bottom()
    }

    /// The region covering exactly the cells that lie in both regions, if there are any.
    pub open spec fn intersection_spec(self, other: Region) -> Option<(int, int, int, int)> {
        let left = if self.left_spec() >= other.left_spec() { self.left_spec() } else { other.left_spec() };
        let right = if self.right_spec() <= other.right_spec() { self.right_spec() } else { other.right_spec() };
        let top = if self.top_spec() >= other.top_spec() { self.top_spec() } else { other.top_spec() };
        let bottom = if self.bottom_spec() <= other.bottom_spec() { self.bottom_spec() } else { other.bottom_spec() };
        if left > right || top > bottom {
            None
        } else {
            Some((left, top, right - left + 1, bottom - top + 1))
        }
    }

    /// Returns the region of cells common to `self` and `other`, or `None` if they do not overlap.
    pub fn intersection(&self, other: Region) -> (r: Option<Region>)
        ensures
            match self.intersection_spec(other) {
                None => r is None,
                Some((l, t, w, h)) => r matches Some(reg) && reg.left_spec() == l && reg.top_spec() == t
                    && reg.width_spec() == w && reg.height_spec() == h,
            },
    {
        proof {
            use_type_invariant(self);
            use_type_invariant(&other);
        }
        let left = if self.left() >= other.left() { self.left() } else { other.left() };
        let right = if self.right() <= other.right() { self.right() } else { other.right() };
        if left > right {
            return None;
        }
        let width = right - left + 1;
        let top = if self.top() >= other.top() { self.top() } else { other.top() };
        let bottom = if self.bottom() <= other.bottom() { self.bottom() } else { other.bottom() };
        if top > bottom {
            return None;
        }
        let height = bottom - top + 1;
        Some(Region::new(left, top, width as usize, height as usize))
    }

    /// A cell lies in the intersection of two regions exactly when it lies in both of them, and
    /// the intersection is absent exactly when no cell lies in both.
    pub proof fn lemma_intersection_cells(a: Region, b: Region, col: int, row: int)
        ensures
            match a.intersection_spec(b) {
                None => !(a.contains_spec(col, row) && b.contains_spec(col, row)),
                Some((l, t, w, h)) => (l <= col <= l + w - 1 && t <= row <= t + h - 1)
                    <==> (a.contains_spec(col, row) && b.contains_spec(col, row)),
            },
    {
    }

    /// Intersection does not depend on the order of its operands.
    pub proof fn lemma_intersection_commutes(a: Region, b: Region)
        ensures
            a.intersection_spec(b) == b.intersection_spec(a),
    {
    }

    /// A region intersected with itself is itself.
    pub proof fn lemma_intersection_self(a: Region)
        requires
            a.inv(),
        ensures
            a.intersection_spec(a) == Some((a.left_spec(), a.top_spec(), a.width_spec(), a.height_spec())),
    {
    }
}

} // verus!
