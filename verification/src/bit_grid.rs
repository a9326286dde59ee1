use vstd::prelude::*;
use crate::bitwise::bit_at;
use crate::region::Region;

verus! {

/// What to do with the bits selected by a mask.
#[derive(Eq, PartialEq, Structural, Copy, Clone, Debug)]
pub enum BitOperation {
    Clear,
    SetBit,
    Toggle,
}

/// The effect of an operation on one word, given the selecting mask.
pub open spec fn apply_op(op: BitOperation, w: u64, mask: u64) -> u64 {
    match op {
        BitOperation::Clear => w & !mask,
        BitOperation::SetBit => w | mask,
        BitOperation::Toggle => w ^ mask,
    }
}

/// The effect of an operation on one cell, given whether the mask selects it.
pub open spec fn apply_op_bit(op: BitOperation, b: bool, selected: bool) -> bool {
    if !selected {
        b
    } else {
        match op {
            BitOperation::Clear => false,
            BitOperation::SetBit => true,
            BitOperation::Toggle => !b,
        }
    }
}

/// The word with only offset `k` set.
pub open spec fn single_bit(k: int) -> u64 {
    1u64 << ((63 - k) as u64)
}

/// An operation on a word acts on each cell independently.
pub proof fn lemma_apply_op_bits(op: BitOperation, w: u64, mask: u64, k: int)
    requires
        0 <= k < 64,
    ensures
        bit_at(apply_op(op, w, mask), k) == apply_op_bit(op, bit_at(w, k), bit_at(mask, k)),
{
    let s: u64 = (63 - k) as u64;
    match op {
        BitOperation::Clear => {
            assert(((w & !mask) >> s) & 1u64 == 1u64 <==> ((w >> s) & 1u64 == 1u64 && !((mask >> s) & 1u64 == 1u64)))
                by (bit_vector) requires s < 64;
        },
        BitOperation::SetBit => {
            assert(((w | mask) >> s) & 1u64 == 1u64 <==> ((w >> s) & 1u64 == 1u64 || (mask >> s) & 1u64 == 1u64))
                by (bit_vector) requires s < 64;
        },
        BitOperation::Toggle => {
            assert(((w ^ mask) >> s) & 1u64 == 1u64 <==> ((w >> s) & 1u64 == 1u64 != ((mask >> s) & 1u64 == 1u64)))
                by (bit_vector) requires s < 64;
        },
    }
}

/// The single-bit word selects exactly its own offset.
pub proof fn lemma_single_bit(k: int, j: int)
    requires
        0 <= k < 64,
        0 <= j < 64,
    ensures
        bit_at(single_bit(k), j) == (j == k),
{
    let s: u64 = (63 - k) as u64;
    let t: u64 = (63 - j) as u64;
    assert(((1u64 << s) >> t) & 1u64 == 1u64 <==> s == t) by (bit_vector) requires s < 64, t < 64;
}

/// A grid of cells, stored as rows of 64-cell words (the leftmost cell of a word is its most
/// significant bit).
#[derive(Clone, Debug, PartialEq)]
pub struct BitGrid(pub Vec<Vec<u64>>);

impl BitGrid {
    /// Number of rows.
    pub open spec fn rows(&self) -> nat {
        self.0@.len()
    }

    /// The grid has `height` rows of `words` words each.
    pub open spec fn shaped(&self, words: nat, height: nat) -> bool {
        &&& self.0@.len() == height
        &&& forall|r: int| 0 <= r < height ==> #[trigger] self.0@[r]@.len() == words
    }

    /// Word `c` of row `r`.
    pub open spec fn word(&self, r: int, c: int) -> u64 {
        self.0@[r]@[c]
    }

    /// Whether the cell at column `col` of row `row` is set.
    pub open spec fn cell(&self, col: int, row: int) -> bool {
        bit_at(self.word(row, col / 64), col % 64)
    }

    /// The grids have the same shape and the same words everywhere.
    pub open spec fn same_words(&self, other: &BitGrid, words: nat, height: nat) -> bool {
        &&& self.shaped(words, height)
        &&& other.shaped(words, height)
        &&& forall|r: int, c: int| 0 <= r < height && 0 <= c < words ==> #[trigger] self.word(r, c) == other.word(r, c)
    }

    /// Creates a grid of `height` rows of `width_in_words` words, with every cell clear.
    pub fn new(width_in_words: usize, height: usize) -> (g: BitGrid)
        ensures
            g.shaped(width_in_words as nat, height as nat),
            forall|r: int, c: int| 0 <= r < height && 0 <= c < width_in_words ==> #[trigger] g.word(r, c) == 0,
    {
        let mut rows: Vec<Vec<u64>> = Vec::new();
        let mut r: usize = 0;
        while r < height
            invariant
                r <= height,
                rows@.len() == r,
                forall|i: int| 0 <= i < r ==> #[trigger] rows@[i]@.len() == width_in_words,
                forall|i: int, c: int| 0 <= i < r && 0 <= c < width_in_words ==> #[trigger] rows@[i]@[c] == 0,
            decreases height - r,
        {
            let mut row: Vec<u64> = Vec::new();
            let mut c: usize = 0;
            while c < width_in_words
                invariant
                    c <= width_in_words,
                    row@.len() == c,
                    forall|j: int| 0 <= j < c ==> #[trigger] row@[j] == 0,
                decreases width_in_words - c,
            {
                row.push(0);
                c += 1;
            }
            rows.push(row);
            r += 1;
        }
        BitGrid(rows)
    }

    /// Width in 64-cell words (zero for a grid without rows).
    pub fn width_in_words(&self) -> (r: usize)
        ensures
            self.rows() > 0 ==> r == self.0@[0]@.len(),
            self.rows() == 0 ==> r == 0,
    {
        if self.0.len() == 0 {
            0
        } else {
            self.0[0].len()
        }
    }

    /// Width in cells.
    pub fn width(&self) -> (r: usize)
        requires
            self.rows() > 0 ==> self.0@[0]@.len() * 64 <= usize::MAX,
        ensures
            self.rows() > 0 ==> r == self.0@[0]@.len() * 64,
            self.rows() == 0 ==> r == 0,
    {
        self.width_in_words() * 64
    }

    /// Height in cells.
    pub fn height(&self) -> (r: usize)
        ensures
            r == self.rows(),
    {
        self.0.len()
    }

    /// Words per row, taken from the first row.
    pub open spec fn words_per_row(&self) -> nat {
        if self.0@.len() > 0 { self.0@[0]@.len() } else { 0 }
    }

    /// Every row has the same number of words, and cell coordinates fit in an `isize`.
    pub open spec fn well_shaped(&self) -> bool {
        &&& self.shaped(self.words_per_row(), self.rows())
        &&& self.words_per_row() * 64 <= isize::MAX
        &&& self.rows() <= isize::MAX
    }

    /// Whether `(col, row)` is a cell of the grid.
    pub open spec fn in_grid(&self, col: int, row: int) -> bool {
        0 <= row < self.rows() && 0 <= col < self.words_per_row() * 64
    }

    /// Applies `op` to every cell of the grid that lies in `region`; cells of the region outside
    /// the grid are ignored.
    pub fn modify_region(&mut self, region: Region, op: BitOperation)
        requires
            old(self).well_shaped(),
        ensures
            final(self).shaped(old(self).words_per_row(), old(self).rows()),
            final(self).words_per_row() == old(self).words_per_row(),
            forall|c: int, r: int| old(self).in_grid(c, r) ==> #[trigger] final(self).cell(c, r)
                == apply_op_bit(op, old(self).cell(c, r), region.contains_spec(c, r)),
    {
        let ghost old_g = *self;
        let h = self.0.len();
        if h == 0 {
            return;
        }
        let words = self.0[0].len();
        let top = region.top();
        let bottom = region.bottom();
        let left = region.left();
        let right = region.right();
        let mut y: usize = if top < 0 { 0 } else if top as usize > h { h } else { top as usize };
        while y < h && (y as isize) <= bottom
            invariant
                h == old_g.rows(),
                words == old_g.words_per_row(),
                old_g.well_shaped(),
                h > 0,
                y <= h,
                top <= y || y == h,
                top == region.top_spec(),
                bottom == region.bottom_spec(),
                left == region.left_spec(),
                right == region.right_spec(),
                self.shaped(words as nat, h as nat),
                forall|c: int, r: int| old_g.in_grid(c, r) ==> #[trigger] self.cell(c, r) == if r < y {
                    apply_op_bit(op, old_g.cell(c, r), region.contains_spec(c, r))
                } else {
                    old_g.cell(c, r)
                },
            decreases h - y,
        {
            let mut wc: usize = 0;
            while wc < words
                invariant
                    h == old_g.rows(),
                    words == old_g.words_per_row(),
                    old_g.well_shaped(),
                    y < h,
                    top <= y <= bottom,
                    top == region.top_spec(),
                    bottom == region.bottom_spec(),
                    wc <= words,
                    left == region.left_spec(),
                    right == region.right_spec(),
                    self.shaped(words as nat, h as nat),
                    forall|c: int, r: int| old_g.in_grid(c, r) ==> #[trigger] self.cell(c, r) == if r < y || (r == y && c / 64 < wc) {
                        apply_op_bit(op, old_g.cell(c, r), region.contains_spec(c, r))
                    } else {
                        old_g.cell(c, r)
                    },
                decreases words - wc,
            {
                let x_left: usize = wc * 64;
                let mut mask: u64 = 0;
                let mut k: usize = 0;
                proof {
                    assert forall|j: int| 0 <= j < 64 implies !bit_at(mask, j) by {
                        lemma_zero_word(j);
                    }
                }
                while k < 64
                    invariant
                        k <= 64,
                        x_left == wc * 64,
                        wc < words,
                        words * 64 <= isize::MAX,
                        left == region.left_spec(),
                        right == region.right_spec(),
                        forall|j: int| 0 <= j < 64 ==> #[trigger] bit_at(mask, j) == (j < k
                            && region.left_spec() <= x_left + j <= region.right_spec()),
                    decreases 64 - k,
                {
                    let x = (x_left + k) as isize;
                    if left <= x && x <= right {
                        let ghost m0 = mask;
                        mask = mask | (1u64 << ((63 - k) as u64));
                        proof {
                            assert forall|j: int| 0 <= j < 64 implies #[trigger] bit_at(mask, j) == (j < k + 1
                                && region.left_spec() <= x_left + j <= region.right_spec()) by {
                                lemma_apply_op_bits(BitOperation::SetBit, m0, single_bit(k as int), j);
                                lemma_single_bit(k as int, j);
                            }
                        }
                    }
                    k += 1;
                }
                let ghost prev = *self;
                self.modify_bits_in_word(y, wc, mask, op);
                proof {
                    lemma_word_update_cells(&prev, self, y as int, wc as int, op, mask, words as nat, h as nat);
                    assert forall|c: int, r: int| old_g.in_grid(c, r) implies #[trigger] self.cell(c, r) == if r < y || (r == y && c / 64 < wc + 1) {
                        apply_op_bit(op, old_g.cell(c, r), region.contains_spec(c, r))
                    } else {
                        old_g.cell(c, r)
                    } by {
                        if r == y && c / 64 == wc {
                            assert(prev.cell(c, r) == old_g.cell(c, r));
                            assert(x_left + c % 64 == c);
                        } else {
                            assert(self.cell(c, r) == prev.cell(c, r));
                        }
                    }
                }
                wc += 1;
            }
            y += 1;
        }
    }

    /// Whether `(run, ch)` describes the maximal run of identical cells that starts at
    /// `(col, row)` and extends to the right, `ch` being 'o' for set cells and 'b' for clear ones.
    pub open spec fn is_run(&self, col: int, row: int, run: int, ch: char) -> bool {
        let v = self.cell(col, row);
        &&& 1 <= run
        &&& col + run <= self.words_per_row() * 64
        &&& forall|i: int| col <= i < col + run ==> #[trigger] self.cell(i, row) == v
        &&& (col + run == self.words_per_row() * 64 || self.cell(col + run, row) != v)
        &&& ch == if v { 'o' } else { 'b' }
    }

    /// The length of the maximal run of identical cells that starts at `(col, row)` and extends
    /// to the right.
    pub open spec fn run_len(&self, col: int, row: int) -> int
        decreases self.words_per_row() * 64 - col,
    {
        if col + 1 >= self.words_per_row() * 64 || self.cell(col + 1, row) != self.cell(col, row) {
            1
        } else {
            1 + self.run_len(col + 1, row)
        }
    }

    /// The run from `(col, row)` covers every cell that follows with the same value: when the
    /// `k` cells from `(col, row)` all have its value, the run is at least `k` long.
    pub proof fn lemma_run_len_at_least(&self, col: int, row: int, k: int)
        requires
            0 <= col,
            1 <= k,
            col + k <= self.words_per_row() * 64,
            forall|i: int| col <= i < col + k ==> #[trigger] self.cell(i, row) == self.cell(col, row),
        ensures
            self.run_len(col, row) >= k,
        decreases k,
    {
        self.lemma_run_len_cells(col, row);
        if k > 1 {
            assert(self.cell(col + 1, row) == self.cell(col, row));
            self.lemma_run_len_at_least(col + 1, row, k - 1);
        }
    }

    /// Every cell of the run that starts at `(col, row)` has the value of its first cell, and the
    /// run ends within the row.
    pub proof fn lemma_run_len_cells(&self, col: int, row: int)
        requires
            0 <= col < self.words_per_row() * 64,
        ensures
            1 <= self.run_len(col, row),
            col + self.run_len(col, row) <= self.words_per_row() * 64,
            forall|i: int| col <= i < col + self.run_len(col, row) ==> #[trigger] self.cell(i, row) == self.cell(col, row),
        decreases self.words_per_row() * 64 - col,
    {
        if !(col + 1 >= self.words_per_row() * 64 || self.cell(col + 1, row) != self.cell(col, row)) {
            self.lemma_run_len_cells(col + 1, row);
        }
    }

    /// A run as described by `is_run` has the length `run_len`.
    pub proof fn lemma_run_len(&self, col: int, row: int, run: int, ch: char)
        requires
            self.is_run(col, row, run, ch),
        ensures
            run == self.run_len(col, row),
        decreases run,
    {
        if run > 1 {
            assert(self.cell(col + 1, row) == self.cell(col, row));
            assert(self.is_run(col + 1, row, run - 1, ch)) by {
                assert forall|i: int| col + 1 <= i < col + 1 + run - 1 implies #[trigger] self.cell(i, row)
                    == self.cell(col + 1, row) by {
                    assert(self.cell(i, row) == self.cell(col, row));
                }
            }
            self.lemma_run_len(col + 1, row, run - 1, ch);
        }
    }

    /// Given a starting cell at `(col, row)`, get the character at that cell ('o' if set, 'b' if
    /// not) and the number of contiguous identical cells, considering only this cell and the
    /// cells to the right of it.
    pub fn get_run(&self, col: usize, row: usize) -> (r: (usize, char))
        requires
            self.well_shaped(),
            self.in_grid(col as int, row as int),
        ensures
            self.is_run(col as int, row as int, r.0 as int, r.1),
            r.0 == self.run_len(col as int, row as int),
    {
        let width = self.0[0].len() * 64;
        let first = (self.0[row][col / 64] >> ((63 - col % 64) as u64)) & 1 == 1;
        let mut end = col + 1;
        while end < width
            invariant
                self.well_shaped(),
                self.in_grid(col as int, row as int),
                width == self.words_per_row() * 64,
                col < end <= width,
                first == self.cell(col as int, row as int),
                forall|i: int| col <= i < end ==> #[trigger] self.cell(i, row as int) == first,
            ensures
                col < end <= width,
                forall|i: int| col <= i < end ==> #[trigger] self.cell(i, row as int) == first,
                end == width || self.cell(end as int, row as int) != first,
            decreases width - end,
        {
            let v = (self.0[row][end / 64] >> ((63 - end % 64) as u64)) & 1 == 1;
            if v != first {
                break;
            }
            end += 1;
        }
        let r = (end - col, if first { 'o' } else { 'b' });
        proof {
            self.lemma_run_len(col as int, row as int, r.0 as int, r.1);
        }
        r
    }

    /// Copies `src` into this grid with an "or": the cell `(0, 0)` of `src` lands on the top-left
    /// cell of `region`. Only cells that lie in `region`, in this grid and in `src` are affected.
    pub fn copy(src: &BitGrid, dst: &mut BitGrid, region: Region)
        requires
            src.well_shaped(),
            old(dst).well_shaped(),
        ensures
            final(dst).shaped(old(dst).words_per_row(), old(dst).rows()),
            final(dst).words_per_row() == old(dst).words_per_row(),
            forall|c: int, r: int| old(dst).in_grid(c, r) ==> #[trigger] final(dst).cell(c, r) == (old(dst).cell(c, r)
                || (region.contains_spec(c, r) && src.in_grid(c - region.left_spec(), r - region.top_spec())
                    && src.cell(c - region.left_spec(), r - region.top_spec()))),
    {
        let ghost old_g = *dst;
        let h = dst.0.len();
        let sh = src.0.len();
        if h == 0 || sh == 0 {
            return;
        }
        let words = dst.0[0].len();
        let swords = src.0[0].len();
        let top = region.top();
        let left = region.left();
        let bottom = region.bottom();
        let right = region.right();
        let mut y: usize = 0;
        while y < h
            invariant
                h == old_g.rows(),
                h > 0,
                words == old_g.words_per_row(),
                old_g.well_shaped(),
                src.well_shaped(),
                sh == src.rows(),
                sh > 0,
                swords == src.words_per_row(),
                top == region.top_spec(),
                left == region.left_spec(),
                bottom == region.bottom_spec(),
                right == region.right_spec(),
                y <= h,
                dst.shaped(words as nat, h as nat),
                forall|c: int, r: int| old_g.in_grid(c, r) ==> #[trigger] dst.cell(c, r) == (old_g.cell(c, r) || (r < y
                    && region.contains_spec(c, r) && src.in_grid(c - left, r - top) && src.cell(c - left, r - top))),
            decreases h - y,
        {
            let row_in = top <= y as isize && y as isize <= bottom && (y as i128) - (top as i128) < sh as i128;
            let mut x: usize = 0;
            while x < words * 64
                invariant
                    h == old_g.rows(),
                    words == old_g.words_per_row(),
                    old_g.well_shaped(),
                    src.well_shaped(),
                    sh == src.rows(),
                    swords == src.words_per_row(),
                    top == region.top_spec(),
                    left == region.left_spec(),
                    bottom == region.bottom_spec(),
                    right == region.right_spec(),
                    y < h,
                    x <= words * 64,
                    row_in == (top <= y && y <= bottom && y - top < sh),
                    dst.shaped(words as nat, h as nat),
                    forall|c: int, r: int| old_g.in_grid(c, r) ==> #[trigger] dst.cell(c, r) == (old_g.cell(c, r) || ((r < y || (r == y && c < x))
                        && region.contains_spec(c, r) && src.in_grid(c - left, r - top) && src.cell(c - left, r - top))),
                decreases words * 64 - x,
            {
                if row_in && left <= x as isize && x as isize <= right && (x as i128) - (left as i128) < (swords * 64) as i128 {
                    let sx = ((x as isize) - left) as usize;
                    let sy = ((y as isize) - top) as usize;
                    let v = (src.0[sy][sx / 64] >> ((63 - sx % 64) as u64)) & 1 == 1;
                    if v {
                        let ghost prev = *dst;
                        let mask: u64 = 1u64 << ((63 - x % 64) as u64);
                        dst.modify_bits_in_word(y, x / 64, mask, BitOperation::SetBit);
                        proof {
                            lemma_word_update_cells(&prev, dst, y as int, (x / 64) as int, BitOperation::SetBit, mask,
                                words as nat, h as nat);
                            assert forall|c: int, r: int| old_g.in_grid(c, r) implies #[trigger] dst.cell(c, r) == (old_g.cell(c, r) || ((r < y || (r == y && c < x + 1))
                                && region.contains_spec(c, r) && src.in_grid(c - left, r - top) && src.cell(c - left, r - top))) by {
                                if r == y && c / 64 == x / 64 {
                                    lemma_single_bit((x % 64) as int, c % 64);
                                }
                            }
                        }
                    }
                }
                x += 1;
            }
            y += 1;
        }
    }

    /// Clears, in every word that `region` touches, the cells that are set in `mask` (this can
    /// reach cells to the left and right of the region that share a word with it).
    pub fn clear_where_in_words(&mut self, mask: &BitGrid, region: Region)
        requires
            old(self).well_shaped(),
            mask.shaped(old(self).words_per_row(), old(self).rows()),
            region_within(region, old(self).words_per_row(), old(self).rows()),
        ensures
            final(self).shaped(old(self).words_per_row(), old(self).rows()),
            final(self).words_per_row() == old(self).words_per_row(),
            forall|c: int, r: int| old(self).in_grid(c, r) ==> #[trigger] final(self).cell(c, r)
                == (old(self).cell(c, r) && !(in_region_words(region, c, r) && mask.cell(c, r))),
    {
        let ghost old_g = *self;
        let ghost words = self.words_per_row();
        let ghost h = self.rows();
        proof {
            use_type_invariant(&region);
        }
        let top = region.top() as usize;
        let bottom = region.bottom() as usize;
        let wl = (region.left() as usize) / 64;
        let wr = (region.right() as usize) / 64;
        proof {
            let l = region.left_spec();
            let r = region.right_spec();
            assert(l / 64 <= r / 64) by (nonlinear_arith) requires 0 <= l <= r;
        }
        let mut row = top;
        while row <= bottom
            invariant
                old_g.well_shaped(),
                words == old_g.words_per_row(),
                h == old_g.rows(),
                mask.shaped(words, h),
                region_within(region, words, h),
                top == region.top_spec(),
                bottom == region.bottom_spec(),
                wl == region.left_spec() / 64,
                wr == region.right_spec() / 64,
                wl <= wr,
                top <= row <= bottom + 1,
                self.shaped(words, h),
                forall|c: int, r: int| old_g.in_grid(c, r) ==> #[trigger] self.cell(c, r)
                    == (old_g.cell(c, r) && !(in_region_words(region, c, r) && r < row && mask.cell(c, r))),
            decreases bottom + 1 - row,
        {
            let mut wc = wl;
            while wc <= wr
                invariant
                    old_g.well_shaped(),
                    words == old_g.words_per_row(),
                    h == old_g.rows(),
                    mask.shaped(words, h),
                    region_within(region, words, h),
                    top == region.top_spec(),
                    bottom == region.bottom_spec(),
                    wl == region.left_spec() / 64,
                    wr == region.right_spec() / 64,
                    wl <= wr,
                    top <= row <= bottom,
                    wl <= wc <= wr + 1,
                    self.shaped(words, h),
                    forall|c: int, r: int| old_g.in_grid(c, r) ==> #[trigger] self.cell(c, r)
                        == (old_g.cell(c, r) && !(in_region_words(region, c, r) && (r < row || (r == row && c / 64 < wc))
                            && mask.cell(c, r))),
                decreases wr + 1 - wc,
            {
                let ghost prev = *self;
                let m = mask.0[row][wc];
                self.modify_bits_in_word(row, wc, m, BitOperation::Clear);
                proof {
                    lemma_word_update_cells(&prev, self, row as int, wc as int, BitOperation::Clear, m, words, h);
                }
                wc += 1;
            }
            row += 1;
        }
    }

    /// A grid with the same words as this one.
    pub fn copy_words(&self, words: usize, height: usize) -> (g: BitGrid)
        requires
            self.shaped(words as nat, height as nat),
        ensures
            g.shaped(words as nat, height as nat),
            forall|r: int, c: int| 0 <= r < height && 0 <= c < words ==> #[trigger] g.word(r, c) == self.word(r, c),
    {
        let mut rows: Vec<Vec<u64>> = Vec::new();
        let mut r: usize = 0;
        while r < height
            invariant
                self.shaped(words as nat, height as nat),
                r <= height,
                rows@.len() == r,
                forall|i: int| 0 <= i < r ==> #[trigger] rows@[i]@.len() == words,
                forall|i: int, c: int| 0 <= i < r && 0 <= c < words ==> #[trigger] rows@[i]@[c] == self.word(i, c),
            decreases height - r,
        {
            let mut row: Vec<u64> = Vec::new();
            let mut c: usize = 0;
            while c < words
                invariant
                    self.shaped(words as nat, height as nat),
                    r < height,
                    c <= words,
                    row@.len() == c,
                    forall|j: int| 0 <= j < c ==> #[trigger] row@[j] == self.word(r as int, j),
                decreases words - c,
            {
                row.push(self.0[r][c]);
                c += 1;
            }
            rows.push(row);
            r += 1;
        }
        BitGrid(rows)
    }

    /// Replaces word `col` of row `row`.
    pub fn set_word(&mut self, row: usize, col: usize, w: u64)
        requires
            row < old(self).rows(),
            col < old(self).0@[row as int]@.len(),
        ensures
            final(self).rows() == old(self).rows(),
            forall|r: int| 0 <= r < old(self).rows() ==> #[trigger] final(self).0@[r]@.len() == old(self).0@[r]@.len(),
            final(self).word(row as int, col as int) == w,
            forall|r: int, c: int| 0 <= r < old(self).rows() && 0 <= c < old(self).0@[r]@.len() && (r != row || c != col)
                ==> #[trigger] final(self).word(r, c) == old(self).word(r, c),
    {
        let ghost prev = *self;
        self.0[row][col] = w;
        proof {
            assert forall|r: int| 0 <= r < prev.rows() implies #[trigger] self.0@[r]@.len() == prev.0@[r]@.len() by {
                if r != row { assert(self.0@[r] == prev.0@[r]); }
            }
            assert forall|r: int, c: int| 0 <= r < prev.rows() && 0 <= c < prev.0@[r]@.len() && (r != row || c != col)
                implies #[trigger] self.word(r, c) == prev.word(r, c) by {
                if r != row { assert(self.0@[r] == prev.0@[r]); }
            }
        }
    }

    /// Applies `op` to the bits of word `word_col` in row `row` that are set in `mask`.
    pub fn modify_bits_in_word(&mut self, row: usize, word_col: usize, mask: u64, op: BitOperation)
        requires
            row < old(self).rows(),
            word_col < old(self).0@[row as int]@.len(),
        ensures
            final(self).rows() == old(self).rows(),
            forall|r: int| 0 <= r < old(self).rows() && r != row ==> #[trigger] final(self).0@[r] == old(self).0@[r],
            final(self).0@[row as int]@ == old(self).0@[row as int]@.update(
                word_col as int,
                apply_op(op, old(self).word(row as int, word_col as int), mask),
            ),
    {
        let w = self.0[row][word_col];
        let nw = match op {
            BitOperation::Clear => w & !mask,
            BitOperation::SetBit => w | mask,
            BitOperation::Toggle => w ^ mask,
        };
        self.0[row][word_col] = nw;
    }
}

/// Every cell of the empty word is clear.
pub proof fn lemma_zero_word(k: int)
    requires
        0 <= k < 64,
    ensures
        !bit_at(0u64, k),
        bit_at(0xffff_ffff_ffff_ffffu64, k),
{
    let s: u64 = (63 - k) as u64;
    assert((0u64 >> s) & 1u64 != 1u64) by (bit_vector);
    assert((0xffff_ffff_ffff_ffffu64 >> s) & 1u64 == 1u64) by (bit_vector) requires s < 64;
}

/// Changing one word of a grid with an operation changes exactly the cells of that word that
/// the mask selects.
pub proof fn lemma_word_update_cells(
    old: &BitGrid,
    new: &BitGrid,
    row: int,
    wc: int,
    op: BitOperation,
    mask: u64,
    words: nat,
    height: nat,
)
    requires
        old.shaped(words, height),
        0 <= row < height,
        0 <= wc < words,
        new.0@.len() == old.0@.len(),
        forall|r: int| 0 <= r < height && r != row ==> #[trigger] new.0@[r] == old.0@[r],
        new.0@[row]@ == old.0@[row]@.update(wc, apply_op(op, old.word(row, wc), mask)),
    ensures
        new.shaped(words, height),
        forall|c: int, r: int| 0 <= r < height && 0 <= c < words * 64 ==> #[trigger] new.cell(c, r)
            == if r == row && c / 64 == wc {
                apply_op_bit(op, old.cell(c, r), bit_at(mask, c % 64))
            } else {
                old.cell(c, r)
            },
{
    assert forall|r: int| 0 <= r < height implies #[trigger] new.0@[r]@.len() == words by {
        if r != row {
            assert(new.0@[r] == old.0@[r]);
        }
    }
    assert forall|c: int, r: int| 0 <= r < height && 0 <= c < words * 64 implies #[trigger] new.cell(c, r)
        == if r == row && c / 64 == wc {
            apply_op_bit(op, old.cell(c, r), bit_at(mask, c % 64))
        } else {
            old.cell(c, r)
        } by {
        if r == row && c / 64 == wc {
            lemma_apply_op_bits(op, old.word(row, wc), mask, c % 64);
        } else if r != row {
            assert(new.0@[r] == old.0@[r]);
        }
    }
}

/// The region lies within a grid of `words` words by `height` rows.
pub open spec fn region_within(region: Region, words: nat, height: nat) -> bool {
    &&& 0 <= region.left_spec()
    &&& 0 <= region.top_spec()
    &&& region.right_spec() < words * 64
    &&& region.bottom_spec() < height
}

/// Cell `(c, r)` lies in a row of `region` and in a word that the region touches in that row.
pub open spec fn in_region_words(region: Region, c: int, r: int) -> bool {
    &&& region.top_spec() <= r <= region.bottom_spec()
    &&& region.left_spec() / 64 <= c / 64 <= region.right_spec() / 64
}

/// The value of cell `(c, r)` after cell `(col, row)` of `old` is given the value `v`.
pub open spec fn cell_after(old: &BitGrid, col: int, row: int, v: bool, c: int, r: int) -> bool {
    if c == col && r == row { v } else { old.cell(c, r) }
}

/// Changing one cell of a grid through its single-bit mask changes only that cell.
pub proof fn lemma_single_cell_update(
    old: &BitGrid,
    new: &BitGrid,
    col: int,
    row: int,
    op: BitOperation,
    words: nat,
    height: nat,
)
    requires
        old.shaped(words, height),
        0 <= row < height,
        0 <= col < words * 64,
        new.0@.len() == old.0@.len(),
        forall|r: int| 0 <= r < height && r != row ==> #[trigger] new.0@[r] == old.0@[r],
        new.0@[row]@ == old.0@[row]@.update(col / 64, apply_op(op, old.word(row, col / 64), single_bit(col % 64))),
    ensures
        new.shaped(words, height),
        forall|c: int, r: int| 0 <= r < height && 0 <= c < words * 64 ==> #[trigger] new.cell(c, r)
            == cell_after(old, col, row, apply_op_bit(op, old.cell(col, row), true), c, r),
{
    lemma_word_update_cells(old, new, row, col / 64, op, single_bit(col % 64), words, height);
    assert forall|c: int, r: int| 0 <= r < height && 0 <= c < words * 64 implies #[trigger] new.cell(c, r)
        == cell_after(old, col, row, apply_op_bit(op, old.cell(col, row), true), c, r) by {
        if r == row && c / 64 == col / 64 {
            lemma_single_bit(col % 64, c % 64);
        }
    }
}

/// The usual ways of testing one cell of a word through its single-bit mask.
pub proof fn lemma_mask_test(w: u64, k: int)
    requires
        0 <= k < 64,
    ensures
        ((w & single_bit(k)) >> ((63 - k) as u64) == 1u64) == bit_at(w, k),
        ((w & single_bit(k)) > 0u64) == bit_at(w, k),
        ((w & single_bit(k)) == 0u64) == !bit_at(w, k),
{
    let s: u64 = (63 - k) as u64;
    assert(((w & (1u64 << s)) >> s == 1u64) == ((w >> s) & 1u64 == 1u64)) by (bit_vector) requires s < 64;
    assert(((w & (1u64 << s)) > 0u64) == ((w >> s) & 1u64 == 1u64)) by (bit_vector) requires s < 64;
    assert(((w & (1u64 << s)) == 0u64) == !((w >> s) & 1u64 == 1u64)) by (bit_vector) requires s < 64;
}

} // verus!
