use vstd::prelude::*;
use vstd::arithmetic::div_mod::{lemma_add_mod_noop_right, lemma_fundamental_div_mod_converse};
use crate::bit_grid::{BitGrid, BitOperation, apply_op, single_bit, lemma_apply_op_bits, lemma_single_bit, lemma_zero_word,
    lemma_word_update_cells};
use crate::universe::{Universe, MAX_DIM};
use crate::bitwise::{bit_at, lemma_bool_ops};

verus! {

/// The largest fog radius accepted when building a universe.
pub const MAX_FOG_RADIUS: usize = 0x4000_0000;

/// Whether the cell `(x, y)` of the fog circle bitmap for radius `r` lies strictly inside the
/// circle centered on `(r - 1, r - 1)`.
pub open spec fn in_fog_circle(r: int, x: int, y: int) -> bool {
    let dx = x - (r - 1);
    let dy = y - (r - 1);
    dx * dx + dy * dy < r * r
}

/// Height in rows of the fog circle bitmap for radius `r`.
pub open spec fn fog_circle_height(r: int) -> int {
    2 * r - 1
}

/// Width in words of the fog circle bitmap for radius `r`.
pub open spec fn fog_circle_words(r: int) -> int {
    (2 * r - 2) / 64 + 1
}

/// `g` is the fog circle bitmap for radius `r`: 0 bits inside the circle, 1 bits elsewhere.
pub open spec fn is_fog_circle(g: &BitGrid, r: int) -> bool {
    &&& g.shaped(fog_circle_words(r) as nat, fog_circle_height(r) as nat)
    &&& forall|x: int, y: int| 0 <= y < fog_circle_height(r) && 0 <= x < fog_circle_words(r) * 64
        ==> #[trigger] g.cell(x, y) == !in_fog_circle(r, x, y)
}

proof fn lemma_square_bound(d: int, r: int)
    requires
        0 <= d <= 2 * r + 64,
        1 <= r <= MAX_FOG_RADIUS,
    ensures
        d * d <= (2 * MAX_FOG_RADIUS + 64) * (2 * MAX_FOG_RADIUS + 64),
        r * r <= MAX_FOG_RADIUS * MAX_FOG_RADIUS,
{
    assert(d * d <= (2 * MAX_FOG_RADIUS + 64) * (2 * MAX_FOG_RADIUS + 64)) by (nonlinear_arith)
        requires 0 <= d <= 2 * r + 64, 1 <= r <= MAX_FOG_RADIUS;
    assert(r * r <= MAX_FOG_RADIUS * MAX_FOG_RADIUS) by (nonlinear_arith)
        requires 1 <= r <= MAX_FOG_RADIUS;
}

/// Computes the "fog circle" bitmap of the given cell radius, used for clearing fog around a
/// player's cells. The bitmap has 0 bits inside the circle radius, and 1 bits elsewhere. Its
/// height exactly fits the circle's, and the left edge of the circle touches the left edge of the
/// bitmap.
pub fn fog_circle_bitmap(fog_radius: usize) -> (g: BitGrid)
    requires
        1 <= fog_radius <= MAX_FOG_RADIUS,
    ensures
        is_fog_circle(&g, fog_radius as int),
{
    let height = 2 * fog_radius - 1;
    let word_width = (height - 1) / 64 + 1;
    let center = fog_radius - 1;
    let mut rows: Vec<Vec<u64>> = Vec::new();
    let mut y: usize = 0;
    while y < height
        invariant
            1 <= fog_radius <= MAX_FOG_RADIUS,
            height == fog_circle_height(fog_radius as int),
            word_width == fog_circle_words(fog_radius as int),
            center == fog_radius - 1,
            y <= height,
            rows@.len() == y,
            forall|i: int| 0 <= i < y ==> #[trigger] rows@[i]@.len() == word_width,
            forall|i: int, x: int| 0 <= i < y && 0 <= x < word_width * 64 ==>
                #[trigger] bit_at(rows@[i]@[x / 64], x % 64) == !in_fog_circle(fog_radius as int, x, i),
        decreases height - y,
    {
        let mut row: Vec<u64> = Vec::new();
        let mut wc: usize = 0;
        while wc < word_width
            invariant
                1 <= fog_radius <= MAX_FOG_RADIUS,
                height == fog_circle_height(fog_radius as int),
                word_width == fog_circle_words(fog_radius as int),
                center == fog_radius - 1,
                y < height,
                wc <= word_width,
                row@.len() == wc,
                forall|x: int| 0 <= x < wc * 64 ==>
                    #[trigger] bit_at(row@[x / 64], x % 64) == !in_fog_circle(fog_radius as int, x, y as int),
            decreases word_width - wc,
        {
            let mut word: u64 = 0xffff_ffff_ffff_ffff;
            proof {
                assert forall|j: int| 0 <= j < 64 implies bit_at(word, j) by {
                    lemma_zero_word(j);
                }
            }
            let mut k: usize = 0;
            while k < 64
                invariant
                    1 <= fog_radius <= MAX_FOG_RADIUS,
                    height == fog_circle_height(fog_radius as int),
                    word_width == fog_circle_words(fog_radius as int),
                    center == fog_radius - 1,
                    y < height,
                    wc < word_width,
                    k <= 64,
                    forall|j: int| 0 <= j < 64 ==> #[trigger] bit_at(word, j)
                        == !(j < k && in_fog_circle(fog_radius as int, wc * 64 + j, y as int)),
                decreases 64 - k,
            {
                let bit_x = wc * 64 + k;
                assert(bit_x < 2 * fog_radius + 62) by {
                    let hm = (height - 1) as int;
                    assert((hm / 64) * 64 <= hm) by (nonlinear_arith) requires hm >= 0;
                    assert(wc * 64 + k <= (word_width - 1) * 64 + 63) by (nonlinear_arith)
                        requires wc < word_width, k < 64;
                }
                let x_delta: u64 = if center >= bit_x { (center - bit_x) as u64 } else { (bit_x - center) as u64 };
                let y_delta: u64 = if center >= y { (center - y) as u64 } else { (y - center) as u64 };
                proof {
                    lemma_square_bound(x_delta as int, fog_radius as int);
                    lemma_square_bound(y_delta as int, fog_radius as int);
                    assert((x_delta as int) * (x_delta as int) == (bit_x - center) * (bit_x - center)) by (nonlinear_arith)
                        requires x_delta as int == bit_x - center || x_delta as int == center - bit_x;
                    assert((y_delta as int) * (y_delta as int) == (y - center) * (y - center)) by (nonlinear_arith)
                        requires y_delta as int == y - center || y_delta as int == center - y;
                }
                assert(x_delta * x_delta < 0x7000_0000_0000_0000u64) by (nonlinear_arith)
                    requires x_delta <= 0x8000_0040u64;
                assert(y_delta * y_delta < 0x7000_0000_0000_0000u64) by (nonlinear_arith)
                    requires y_delta <= 0x8000_0040u64;
                assert(fog_radius * fog_radius < 0x4000_0000_0000_0000u64) by (nonlinear_arith)
                    requires fog_radius <= 0x4000_0000usize;
                let r64 = fog_radius as u64;
                if x_delta * x_delta + y_delta * y_delta < r64 * r64 {
                    let ghost w0 = word;
                    word = word & !(1u64 << ((63 - k) as u64));
                    proof {
                        assert forall|j: int| 0 <= j < 64 implies #[trigger] bit_at(word, j)
                            == !(j < k + 1 && in_fog_circle(fog_radius as int, wc * 64 + j, y as int)) by {
                            lemma_apply_op_bits(BitOperation::Clear, w0, single_bit(k as int), j);
                            lemma_single_bit(k as int, j);
                        }
                    }
                }
                k += 1;
            }
            row.push(word);
            proof {
                assert forall|x: int| 0 <= x < (wc + 1) * 64 implies
                    #[trigger] bit_at(row@[x / 64], x % 64) == !in_fog_circle(fog_radius as int, x, y as int) by {
                    if x / 64 == wc {
                        assert(wc * 64 + x % 64 == x);
                    }
                }
            }
            wc += 1;
        }
        rows.push(row);
        y += 1;
    }
    BitGrid(rows)
}

/// Stepping `k` rows down from the top of the window around `center` lands on row `k` of the
/// fog circle.
proof fn lemma_fog_row_index(h: int, center: int, rm1: int, kr: int)
    requires
        0 < h,
        0 <= center < h,
        0 <= rm1 <= h + center,
        0 <= kr < h,
    ensures
        (h + ((h + center - rm1) % h + kr) % h - center + rm1) % h == kr,
{
    let a = h + center - rm1;
    lemma_add_mod_noop_right(kr, a, h);
    let x = (a + kr) % h;
    assert(((a % h) + kr) % h == x);
    lemma_add_mod_noop_right(h - center + rm1, a + kr, h);
    assert((h - center + rm1 + x) % h == (h - center + rm1 + a + kr) % h);
    assert(h - center + rm1 + a + kr == 2 * h + kr);
    lemma_fundamental_div_mod_converse(2 * h + kr, h, 2, kr);
    assert(h + x - center + rm1 == h - center + rm1 + x);
}

/// Stepping around a ring of `n` slots from `l` by the wrapped distance to `r` lands on `r`.
proof fn lemma_window_end(n: int, l: int, r: int)
    requires
        0 <= l < n,
        0 <= r < n,
    ensures
        (l + (r + n - l) % n) % n == r,
        0 <= (r + n - l) % n < n,
{
    lemma_add_mod_noop_right(l, r + n - l, n);
    lemma_fundamental_div_mod_converse(r + n, n, 1, r);
}

/// One more step around a ring of `n` slots.
proof fn lemma_ring_step(n: int, start: int, k: int)
    requires
        0 < n,
    ensures
        ((start + k) % n + 1) % n == (start + k + 1) % n,
{
    lemma_add_mod_noop_right(1, start + k, n);
}

/// The last row of the window, `2 * (r - 1)` rows below its top, is the bottom row.
proof fn lemma_row_window_end(h: int, center: int, rm1: int)
    requires
        0 < h,
        0 <= center < h,
        0 <= rm1 <= h + center,
    ensures
        ((h + center - rm1) % h + (2 * rm1) % h) % h == (center + rm1) % h,
{
    let a = h + center - rm1;
    vstd::arithmetic::div_mod::lemma_add_mod_noop(a, 2 * rm1, h);
    assert(a + 2 * rm1 == h + (center + rm1));
    vstd::arithmetic::div_mod::lemma_mod_add_multiples_vanish(center + rm1, h);
}

/// Bit `s` of `w`, counting from the least significant bit.
pub open spec fn low_bit(w: u64, s: int) -> bool {
    w & (1u64 << (s as u64)) > 0
}

/// The window of fog cleared around every set bit of `bits` in word `center_col` of row
/// `center_row` starts at most one full turn of the universe above and to the left of that
/// bit's cell.
pub open spec fn fog_window_in_reach(fog_radius: int, width: int, height: int, center_row: int, center_col: int,
    bits: u64) -> bool {
    forall|s: int| 0 <= s < 64 && #[trigger] low_bit(bits, s) ==>
        fog_radius - 1 <= height + center_row && fog_radius - 1 <= width + center_col * 64 + (63 - s)
}

/// Counting down from bit `s`, the first set bit is reached no later than any set bit `s0`.
proof fn lemma_top_zeros_hit(w: u64, s: int, s0: int)
    requires
        0 <= s0 <= s,
        low_bit(w, s0),
    ensures
        0 <= top_zeros(w, s) <= s - s0,
        low_bit(w, s - top_zeros(w, s)),
    decreases s,
{
    if !low_bit(w, s) {
        lemma_top_zeros_hit(w, s - 1, s0);
    }
}

/// How many bits of `w` are clear from bit `s` down to the first set one.
pub open spec fn top_zeros(w: u64, s: int) -> int
    decreases s + 1,
{
    if s < 0 {
        0
    } else if low_bit(w, s) {
        0
    } else {
        1 + top_zeros(w, s - 1)
    }
}

/// How many bits of `w` are clear from bit `s` up to the first set one.
pub open spec fn bottom_zeros(w: u64, s: int) -> int
    decreases 64 - s,
{
    if s >= 64 {
        0
    } else if low_bit(w, s) {
        0
    } else {
        1 + bottom_zeros(w, s + 1)
    }
}

/// The first row of the window of rows whose fog is cleared around row `center_row`.
pub open spec fn fog_row_top(fog_radius: int, height: int, center_row: int) -> int {
    (height + center_row - (fog_radius - 1)) % height
}

/// How many rows follow the first one in the window of rows (the window wraps around).
pub open spec fn fog_row_span(fog_radius: int, height: int) -> int {
    (2 * (fog_radius - 1)) % height
}

/// The first word of the window of words whose fog is cleared around the set bits of `bits` in
/// word `center_col` (the window wraps around).
pub open spec fn fog_word_left(fog_radius: int, width: int, center_col: int, bits: u64) -> int {
    ((width + center_col * 64 + top_zeros(bits, 63) - (fog_radius - 1)) % width) / 64
}

/// The last word of that window.
pub open spec fn fog_word_right(fog_radius: int, width: int, center_col: int, bits: u64) -> int {
    ((center_col * 64 + 63 - bottom_zeros(bits, 0) + (fog_radius - 1)) % width) / 64
}

/// How many words follow the first one in the window of words.
pub open spec fn fog_word_span(fog_radius: int, width: int, center_col: int, bits: u64) -> int {
    let words = width / 64;
    (fog_word_right(fog_radius, width, center_col, bits) + words - fog_word_left(fog_radius, width, center_col, bits)) % words
}

/// What clearing the fog around the cell at bit `s` of word `center_col` keeps of word
/// `col_idx` of the grid, from word `f` of row `fog_row` of the fog circle: the fog circle word
/// shifted onto the grid word it overlaps (1 bits elsewhere), when the fog circle word starts at
/// that grid word, or ends or starts inside it; otherwise everything.
pub open spec fn circle_term(fog_circle: &BitGrid, fog_row: int, f: int, col_idx: int, center_col: int, s: int,
    width: int, rm1: int) -> u64 {
    let fog_highest_col = (width + center_col * 64 + (63 - s) - rm1) % width;
    let fog_lowest_col = (width + center_col * 64 + (63 - s) - rm1 + 63) % width;
    let current_highest_col = col_idx * 64;
    let current_lowest_col = col_idx * 64 + 63;
    let fw = fog_circle.word(fog_row, f);
    if current_highest_col == fog_highest_col && current_lowest_col == fog_lowest_col {
        fw
    } else if current_highest_col <= fog_lowest_col && fog_lowest_col < current_lowest_col {
        !(!fw << ((current_lowest_col - fog_lowest_col) as u64))
    } else if current_highest_col < fog_highest_col && fog_highest_col <= current_lowest_col {
        !(!fw >> ((fog_highest_col - current_highest_col) as u64))
    } else {
        0xffff_ffff_ffff_ffff
    }
}

/// `acc` anded with the terms of the fog circle words `0 .. m` (see `circle_term`).
pub open spec fn circle_terms(acc: u64, fog_circle: &BitGrid, fog_row: int, m: int, col_idx: int, center_col: int,
    s: int, width: int, rm1: int) -> u64
    decreases m,
{
    if m <= 0 {
        acc
    } else {
        circle_terms(acc, fog_circle, fog_row, m - 1, col_idx, center_col, s, width, rm1)
            & circle_term(fog_circle, fog_row, m - 1, col_idx, center_col, s, width, rm1)
    }
}

/// The mask kept of word `col_idx` after clearing the fog around the set bits `63` down to `n`
/// of `bits` (see `circle_terms`), starting from all ones.
pub open spec fn fog_mask_from(fog_circle: &BitGrid, fog_words: int, fog_row: int, col_idx: int, center_col: int,
    bits: u64, width: int, rm1: int, n: int) -> u64
    decreases 64 - n,
{
    if n >= 64 {
        0xffff_ffff_ffff_ffff
    } else {
        let acc = fog_mask_from(fog_circle, fog_words, fog_row, col_idx, center_col, bits, width, rm1, n + 1);
        if low_bit(bits, n) {
            circle_terms(acc, fog_circle, fog_row, fog_words, col_idx, center_col, n, width, rm1)
        } else {
            acc
        }
    }
}

/// Whether clearing the fog around the set bits of `bits` in word `center_col` of row
/// `center_row` clears cell `(c, r)`: the cell lies in the window of rows and words around
/// them, and the mask kept of its word (for its row of the fog circle) has the cell clear.
pub open spec fn fog_cleared(fog_circle: &BitGrid, fog_radius: int, width: int, height: int, center_row: int,
    center_col: int, bits: u64, c: int, r: int) -> bool {
    let kr = (r - fog_row_top(fog_radius, height, center_row)) % height;
    let kc = (c / 64 - fog_word_left(fog_radius, width, center_col, bits)) % (width / 64);
    &&& bits != 0
    &&& kr <= fog_row_span(fog_radius, height)
    &&& kc <= fog_word_span(fog_radius, width, center_col, bits)
    &&& !bit_at(fog_mask_from(fog_circle, fog_circle_words(fog_radius), kr, c / 64, center_col, bits, width,
        fog_radius - 1, 0), c % 64)
}

/// Once the mask is empty, anding more terms keeps it empty.
proof fn lemma_circle_terms_zero(fog_circle: &BitGrid, fog_row: int, m: int, col_idx: int, center_col: int, s: int,
    width: int, rm1: int)
    ensures
        circle_terms(0, fog_circle, fog_row, m, col_idx, center_col, s, width, rm1) == 0,
    decreases m,
{
    if m > 0 {
        lemma_circle_terms_zero(fog_circle, fog_row, m - 1, col_idx, center_col, s, width, rm1);
        let t = circle_term(fog_circle, fog_row, m - 1, col_idx, center_col, s, width, rm1);
        assert(0u64 & t == 0) by (bit_vector);
    }
}

/// Once the mask is empty, processing lower bits keeps it empty.
proof fn lemma_fog_mask_zero(fog_circle: &BitGrid, fog_words: int, fog_row: int, col_idx: int, center_col: int,
    bits: u64, width: int, rm1: int, n: int, m: int)
    requires
        0 <= m <= n <= 64,
        fog_mask_from(fog_circle, fog_words, fog_row, col_idx, center_col, bits, width, rm1, n) == 0,
    ensures
        fog_mask_from(fog_circle, fog_words, fog_row, col_idx, center_col, bits, width, rm1, m) == 0,
    decreases n - m,
{
    if m < n {
        lemma_fog_mask_zero(fog_circle, fog_words, fog_row, col_idx, center_col, bits, width, rm1, n, m + 1);
        if low_bit(bits, m) {
            lemma_circle_terms_zero(fog_circle, fog_row, fog_words, col_idx, center_col, m, width, rm1);
        }
    }
}

/// Clearing a word with the complement of a mask keeps exactly the mask's cells.
proof fn lemma_not_bit(m: u64, k: int)
    requires
        0 <= k < 64,
    ensures
        bit_at(!m, k) == !bit_at(m, k),
{
    let s: u64 = (63 - k) as u64;
    assert(((!m >> s) & 1u64 == 1u64) == !((m >> s) & 1u64 == 1u64)) by (bit_vector) requires s < 64;
}

/// Anding a word only clears cells.
proof fn lemma_and_clears(w: u64, m: u64)
    ensures
        apply_op(BitOperation::Clear, w, !m) == w & m,
{
    assert(w & !(!m) == w & m) by (bit_vector);
}

/// When the low `s` bits are clear and bit `s` is clear too, the low `s + 1` bits are clear; when
/// all 64 bits are clear the word is zero.
proof fn lemma_low_bits_step(bits: u64, s: u64)
    requires
        s < 64,
        bits & (((1u64 << s) - 1u64) as u64) == 0,
        bits & (1u64 << s) == 0,
    ensures
        s < 63 ==> bits & (((1u64 << ((s + 1) as u64)) - 1u64) as u64) == 0,
        s == 63 ==> bits == 0,
{
    assert(s < 63 ==> bits & (((1u64 << ((s + 1) as u64)) - 1u64) as u64) == 0) by (bit_vector)
        requires s < 64, bits & (((1u64 << s) - 1u64) as u64) == 0, bits & (1u64 << s) == 0;
    assert(s == 63 ==> bits == 0) by (bit_vector)
        requires s < 64, bits & (((1u64 << s) - 1u64) as u64) == 0, bits & (1u64 << s) == 0;
}

/// Counting around a ring of `n` slots: slot `x` is `k` steps after `a` exactly when the
/// wrapped distance from `a` to `x` is `k`.
proof fn lemma_ring_index(n: int, a: int, k: int, x: int)
    requires
        0 <= a < n,
        0 <= k < n,
        0 <= x < n,
    ensures
        ((x - a) % n == k) == (x == (a + k) % n),
        0 <= (x - a) % n < n,
{
    if x >= a {
        lemma_fundamental_div_mod_converse(x - a, n, 0, x - a);
    } else {
        lemma_fundamental_div_mod_converse(x - a, n, -1, x - a + n);
    }
    if a + k < n {
        lemma_fundamental_div_mod_converse(a + k, n, 0, a + k);
    } else {
        lemma_fundamental_div_mod_converse(a + k, n, 1, a + k - n);
    }
}

impl Universe {
    /// Clears the fog for the specified bits in the 64-bit word at `center_row_idx` and
    /// `center_col_idx`, using the fog circle (see `fog_circle_bitmap`): every word of
    /// `player_fog` in the window of rows and words around those bits (which wraps around the
    /// universe) is anded with the fog circle shifted onto each bit (see `fog_cleared`). Fog is
    /// only ever cleared, never added.
    pub fn clear_fog(
        player_fog: &mut BitGrid,
        fog_circle: &BitGrid,
        fog_radius: usize,
        uni_width: usize,
        uni_height: usize,
        center_row_idx: usize,
        center_col_idx: usize,
        bits_to_clear: u64,
    )
        requires
            0 < uni_width <= MAX_DIM,
            uni_width % 64 == 0,
            0 < uni_height <= MAX_DIM,
            old(player_fog).shaped((uni_width / 64) as nat, uni_height as nat),
            1 <= fog_radius <= MAX_FOG_RADIUS,
            is_fog_circle(fog_circle, fog_radius as int),
            center_row_idx < uni_height,
            center_col_idx < uni_width / 64,
            fog_window_in_reach(fog_radius as int, uni_width as int, uni_height as int, center_row_idx as int,
                center_col_idx as int, bits_to_clear),
        ensures
            final(player_fog).shaped((uni_width / 64) as nat, uni_height as nat),
            forall|c: int, r: int| 0 <= c < uni_width && 0 <= r < uni_height ==> #[trigger] final(player_fog).cell(c, r)
                == (old(player_fog).cell(c, r) && !fog_cleared(fog_circle, fog_radius as int, uni_width as int,
                    uni_height as int, center_row_idx as int, center_col_idx as int, bits_to_clear, c, r)),
            bits_to_clear == 0 ==> *final(player_fog) == *old(player_fog),
    {
        if bits_to_clear == 0 {
            return;  // nothing to do
        }
        let ghost old_fog = *player_fog;
        let ghost words = (uni_width / 64) as nat;
        let ghost height = uni_height as nat;
        let ghost width = uni_width as int;
        let ghost hgt = uni_height as int;

        // Get the highest and lowest bits in bits_to_clear
        let mut col_of_highest_to_clear = center_col_idx * 64;
        let mut shift: usize = 64;
        while shift > 0
            invariant_except_break
                col_of_highest_to_clear == center_col_idx * 64 + (64 - shift),
                top_zeros(bits_to_clear, 63) == (64 - shift) + top_zeros(bits_to_clear, shift - 1),
            invariant
                shift <= 64,
                center_col_idx < uni_width / 64,
                uni_width <= MAX_DIM,
            ensures
                col_of_highest_to_clear == center_col_idx * 64 + top_zeros(bits_to_clear, 63),
                col_of_highest_to_clear <= center_col_idx * 64 + 64,
            decreases shift,
        {
            shift -= 1;
            if bits_to_clear & (1u64 << (shift as u64)) > 0 {
                break;
            }
            col_of_highest_to_clear += 1;
        }
        let mut col_of_lowest_to_clear = center_col_idx * 64 + 63;
        let mut shift: usize = 0;
        proof {
            assert(bits_to_clear & (((1u64 << 0u64) - 1u64) as u64) == 0) by (bit_vector);
        }
        while shift < 64
            invariant
                shift < 64,
                bits_to_clear != 0,
                center_col_idx < uni_width / 64,
                uni_width <= MAX_DIM,
                shift < 64 ==> bits_to_clear & (((1u64 << (shift as u64)) - 1u64) as u64) == 0,
                col_of_lowest_to_clear + shift == center_col_idx * 64 + 63,
                bottom_zeros(bits_to_clear, 0) == shift + bottom_zeros(bits_to_clear, shift as int),
            ensures
                col_of_lowest_to_clear == center_col_idx * 64 + 63 - bottom_zeros(bits_to_clear, 0),
                0 <= bottom_zeros(bits_to_clear, 0) < 64,
                low_bit(bits_to_clear, bottom_zeros(bits_to_clear, 0)),
            decreases 64 - shift,
        {
            if bits_to_clear & (1u64 << (shift as u64)) > 0 {
                break;
            }
            proof {
                assert(bits_to_clear & (1u64 << (shift as u64)) == 0);
                lemma_low_bits_step(bits_to_clear, shift as u64);
            }
            col_of_lowest_to_clear -= 1;
            shift += 1;
        }

        proof {
            let s0 = bottom_zeros(bits_to_clear, 0);
            lemma_top_zeros_hit(bits_to_clear, 63, s0);
            assert(low_bit(bits_to_clear, 63 - top_zeros(bits_to_clear, 63)));
        }
        // Get the bounds in terms of game coordinates (from col_left to col_right, inclusive,
        // and from row_top to row_bottom, inclusive).
        let row_top = (uni_height + center_row_idx - (fog_radius - 1)) % uni_height;
        let row_bottom = (center_row_idx + fog_radius - 1) % uni_height;
        let col_left = (uni_width + col_of_highest_to_clear - (fog_radius - 1)) % uni_width;
        let col_right = (col_of_lowest_to_clear + fog_radius - 1) % uni_width;

        // Convert cols to col_idxes
        let col_idx_left = col_left / 64;
        let col_idx_right = col_right / 64;
        let uni_word_width = uni_width / 64;
        let fog_words = fog_circle.width_in_words();
        proof {
            assert(col_idx_left < uni_word_width) by (nonlinear_arith)
                requires col_left < uni_width, uni_width == uni_word_width * 64, col_idx_left == col_left / 64;
            assert(col_idx_right < uni_word_width) by (nonlinear_arith)
                requires col_right < uni_width, uni_width == uni_word_width * 64, col_idx_right == col_right / 64;
            assert(fog_circle.0@[0]@.len() == fog_circle_words(fog_radius as int));
        }
        let ghost rm1 = (fog_radius - 1) as int;
        let ghost kb = (2 * rm1) % (uni_height as int);
        let ghost kbc = (col_idx_right + uni_word_width - col_idx_left) % (uni_word_width as int);
        proof {
            if 2 * rm1 < uni_height {
                lemma_fundamental_div_mod_converse(2 * rm1, uni_height as int, 0, 2 * rm1);
            }
            assert(kb <= 2 * rm1);
            lemma_row_window_end(uni_height as int, center_row_idx as int, rm1);
            lemma_window_end(uni_word_width as int, col_idx_left as int, col_idx_right as int);
            lemma_fundamental_div_mod_converse(row_top as int, uni_height as int, 0, row_top as int);
            assert(row_top == fog_row_top(fog_radius as int, hgt, center_row_idx as int));
            assert(kb == fog_row_span(fog_radius as int, hgt));
            assert(col_idx_left == fog_word_left(fog_radius as int, width, center_col_idx as int, bits_to_clear));
            assert(col_idx_right == fog_word_right(fog_radius as int, width, center_col_idx as int, bits_to_clear));
            assert(kbc == fog_word_span(fog_radius as int, width, center_col_idx as int, bits_to_clear));
        }

        let mut row_idx = row_top;
        let ghost mut kr: int = 0;
        loop
            invariant_except_break
                forall|c: int, r: int| 0 <= c < uni_width && 0 <= r < uni_height ==> #[trigger] player_fog.cell(c, r)
                    == (old_fog.cell(c, r) && !(fog_cleared(fog_circle, fog_radius as int, width, hgt,
                        center_row_idx as int, center_col_idx as int, bits_to_clear, c, r)
                        && (r - row_top) % hgt < kr)),
            invariant
                0 < uni_width <= MAX_DIM,
                0 < uni_height <= MAX_DIM,
                uni_word_width == uni_width / 64,
                uni_width == uni_word_width * 64,
                words == uni_word_width,
                height == uni_height,
                width == uni_width,
                hgt == uni_height,
                bits_to_clear != 0,
                1 <= fog_radius <= MAX_FOG_RADIUS,
                rm1 == fog_radius - 1,
                rm1 <= uni_height + center_row_idx,
                fog_window_in_reach(fog_radius as int, width, hgt, center_row_idx as int, center_col_idx as int, bits_to_clear),
                is_fog_circle(fog_circle, fog_radius as int),
                fog_words == fog_circle_words(fog_radius as int),
                center_row_idx < uni_height,
                center_col_idx < uni_word_width,
                row_top == fog_row_top(fog_radius as int, hgt, center_row_idx as int),
                row_bottom == (center_row_idx + rm1) % (uni_height as int),
                kb == fog_row_span(fog_radius as int, hgt),
                0 <= kb < uni_height,
                kb <= 2 * rm1,
                (row_top + kb) % (uni_height as int) == row_bottom,
                col_idx_left == fog_word_left(fog_radius as int, width, center_col_idx as int, bits_to_clear),
                col_idx_left < uni_word_width,
                col_idx_right < uni_word_width,
                kbc == fog_word_span(fog_radius as int, width, center_col_idx as int, bits_to_clear),
                0 <= kbc < uni_word_width,
                (col_idx_left + kbc) % (uni_word_width as int) == col_idx_right,
                0 <= kr <= kb,
                row_idx == (row_top + kr) % (uni_height as int),
                player_fog.shaped(words, height),
            ensures
                player_fog.shaped(words, height),
                forall|c: int, r: int| 0 <= c < uni_width && 0 <= r < uni_height ==> #[trigger] player_fog.cell(c, r)
                    == (old_fog.cell(c, r) && !fog_cleared(fog_circle, fog_radius as int, width, hgt,
                        center_row_idx as int, center_col_idx as int, bits_to_clear, c, r)),
            decreases kb - kr,
        {
            proof {
                lemma_fundamental_div_mod_converse((row_top + kr) % (uni_height as int), uni_height as int, 0,
                    (row_top + kr) % (uni_height as int));
                lemma_fog_row_index(uni_height as int, center_row_idx as int, rm1, kr);
                lemma_fundamental_div_mod_converse(col_idx_left as int, uni_word_width as int, 0, col_idx_left as int);
            }
            let fog_row_idx = (uni_height + row_idx - center_row_idx + (fog_radius - 1)) % uni_height;
            assert(fog_row_idx == kr);
            let mut col_idx = col_idx_left;
            let ghost mut kc: int = 0;
            loop
                invariant_except_break
                    forall|c: int, r: int| 0 <= c < uni_width && 0 <= r < uni_height ==> #[trigger] player_fog.cell(c, r)
                        == (old_fog.cell(c, r) && !(fog_cleared(fog_circle, fog_radius as int, width, hgt,
                            center_row_idx as int, center_col_idx as int, bits_to_clear, c, r)
                            && ((r - row_top) % hgt < kr
                                || ((r - row_top) % hgt == kr && (c / 64 - col_idx_left) % (uni_word_width as int) < kc)))),
                invariant
                    0 < uni_width <= MAX_DIM,
                    0 < uni_height <= MAX_DIM,
                    uni_word_width == uni_width / 64,
                    uni_width == uni_word_width * 64,
                    words == uni_word_width,
                    height == uni_height,
                    width == uni_width,
                    hgt == uni_height,
                    bits_to_clear != 0,
                    1 <= fog_radius <= MAX_FOG_RADIUS,
                    rm1 == fog_radius - 1,
                    rm1 <= uni_height + center_row_idx,
                fog_window_in_reach(fog_radius as int, width, hgt, center_row_idx as int, center_col_idx as int, bits_to_clear),
                    is_fog_circle(fog_circle, fog_radius as int),
                    fog_words == fog_circle_words(fog_radius as int),
                    center_row_idx < uni_height,
                    center_col_idx < uni_word_width,
                    row_top == fog_row_top(fog_radius as int, hgt, center_row_idx as int),
                    row_idx < uni_height,
                    0 <= kr <= kb,
                    kb == fog_row_span(fog_radius as int, hgt),
                    kb < uni_height,
                    row_idx == (row_top + kr) % (uni_height as int),
                    fog_row_idx == kr,
                    fog_row_idx < fog_circle_height(fog_radius as int),
                    col_idx_left == fog_word_left(fog_radius as int, width, center_col_idx as int, bits_to_clear),
                    col_idx_left < uni_word_width,
                    col_idx_right < uni_word_width,
                    kbc == fog_word_span(fog_radius as int, width, center_col_idx as int, bits_to_clear),
                    0 <= kbc < uni_word_width,
                    (col_idx_left + kbc) % (uni_word_width as int) == col_idx_right,
                    0 <= kc <= kbc,
                    col_idx == (col_idx_left + kc) % (uni_word_width as int),
                    player_fog.shaped(words, height),
                ensures
                    player_fog.shaped(words, height),
                    forall|c: int, r: int| 0 <= c < uni_width && 0 <= r < uni_height ==> #[trigger] player_fog.cell(c, r)
                        == (old_fog.cell(c, r) && !(fog_cleared(fog_circle, fog_radius as int, width, hgt,
                            center_row_idx as int, center_col_idx as int, bits_to_clear, c, r)
                            && (r - row_top) % hgt < kr + 1)),
                decreases kbc - kc,
            {
                proof {
                    lemma_fundamental_div_mod_converse((col_idx_left + kc) % (uni_word_width as int), uni_word_width as int, 0,
                        (col_idx_left + kc) % (uni_word_width as int));
                }
                let mut mask: u64 = 0xffff_ffff_ffff_ffff;
                let mut shift: usize = 64;
                while shift > 0
                    invariant
                        0 < uni_width <= MAX_DIM,
                        uni_width == uni_word_width * 64,
                        1 <= fog_radius <= MAX_FOG_RADIUS,
                        rm1 == fog_radius - 1,
                        fog_window_in_reach(fog_radius as int, width, uni_height as int, center_row_idx as int,
                            center_col_idx as int, bits_to_clear),
                        width == uni_width,
                        is_fog_circle(fog_circle, fog_radius as int),
                        fog_words == fog_circle_words(fog_radius as int),
                        center_col_idx < uni_word_width,
                        fog_row_idx < fog_circle_height(fog_radius as int),
                        col_idx < uni_word_width,
                        shift <= 64,
                        mask == fog_mask_from(fog_circle, fog_words as int, fog_row_idx as int, col_idx as int,
                            center_col_idx as int, bits_to_clear, width, rm1, shift as int),
                    ensures
                        mask == fog_mask_from(fog_circle, fog_words as int, fog_row_idx as int, col_idx as int,
                            center_col_idx as int, bits_to_clear, width, rm1, 0),
                    decreases shift,
                {
                    if mask == 0 {
                        proof {
                            lemma_fog_mask_zero(fog_circle, fog_words as int, fog_row_idx as int, col_idx as int,
                                center_col_idx as int, bits_to_clear, width, rm1, shift as int, 0);
                        }
                        break;
                    }
                    shift -= 1;
                    if bits_to_clear & (1u64 << (shift as u64)) > 0 {
                        let current_highest_col = col_idx * 64;
                        let current_lowest_col = col_idx * 64 + 63;
                        let ghost acc = mask;
                        let mut fog_col_idx: usize = 0;
                        while fog_col_idx < fog_words
                            invariant
                                0 < uni_width <= MAX_DIM,
                                uni_width == uni_word_width * 64,
                                1 <= fog_radius <= MAX_FOG_RADIUS,
                                rm1 == fog_radius - 1,
                                fog_window_in_reach(fog_radius as int, width, uni_height as int, center_row_idx as int,
                                    center_col_idx as int, bits_to_clear),
                                low_bit(bits_to_clear, shift as int),
                                width == uni_width,
                                is_fog_circle(fog_circle, fog_radius as int),
                                fog_words == fog_circle_words(fog_radius as int),
                                center_col_idx < uni_word_width,
                                fog_row_idx < fog_circle_height(fog_radius as int),
                                col_idx < uni_word_width,
                                shift < 64,
                                current_highest_col == col_idx * 64,
                                current_lowest_col == col_idx * 64 + 63,
                                fog_col_idx <= fog_words,
                                mask == circle_terms(acc, fog_circle, fog_row_idx as int, fog_col_idx as int, col_idx as int,
                                    center_col_idx as int, shift as int, width, rm1),
                            decreases fog_words - fog_col_idx,
                        {
                            let fog_highest_col = (uni_width + center_col_idx * 64 + (63 - shift) - (fog_radius - 1)) % uni_width;
                            let fog_lowest_col = (uni_width + center_col_idx * 64 + (63 - shift) - (fog_radius - 1) + 63) % uni_width;
                            assert(fog_circle.0@[fog_row_idx as int]@.len() == fog_words);
                            let ghost before = mask;
                            let ghost term = circle_term(fog_circle, fog_row_idx as int, fog_col_idx as int, col_idx as int,
                                center_col_idx as int, shift as int, width, rm1);
                            if current_highest_col == fog_highest_col && current_lowest_col == fog_lowest_col {
                                mask &= fog_circle.0[fog_row_idx][fog_col_idx];
                            } else if current_highest_col <= fog_lowest_col && fog_lowest_col < current_lowest_col {
                                // we need to double negate so that shifting results in 1s, not 0s
                                mask &= !(!fog_circle.0[fog_row_idx][fog_col_idx] << ((current_lowest_col - fog_lowest_col) as u64));
                            } else if current_highest_col < fog_highest_col && fog_highest_col <= current_lowest_col {
                                mask &= !(!fog_circle.0[fog_row_idx][fog_col_idx] >> ((fog_highest_col - current_highest_col) as u64));
                            } else {
                                assert(before & 0xffff_ffff_ffff_ffffu64 == before) by (bit_vector);
                            }
                            assert(mask == before & term);
                            fog_col_idx += 1;
                        }
                    }
                }
                let ghost prev = *player_fog;
                let w = player_fog.0[row_idx][col_idx];
                player_fog.0[row_idx][col_idx] = w & mask;
                proof {
                    lemma_and_clears(w, mask);
                    lemma_word_update_cells(&prev, player_fog, row_idx as int, col_idx as int, BitOperation::Clear, !mask,
                        words, height);
                    assert forall|c: int, r: int| 0 <= c < uni_width && 0 <= r < uni_height implies #[trigger] player_fog.cell(c, r)
                        == (old_fog.cell(c, r) && !(fog_cleared(fog_circle, fog_radius as int, width, hgt,
                            center_row_idx as int, center_col_idx as int, bits_to_clear, c, r)
                            && ((r - row_top) % hgt < kr
                                || ((r - row_top) % hgt == kr && (c / 64 - col_idx_left) % (uni_word_width as int) < kc + 1)))) by {
                        lemma_ring_index(hgt, row_top as int, kr, r);
                        assert(0 <= c / 64 < uni_word_width) by (nonlinear_arith)
                            requires 0 <= c < uni_width, uni_width == uni_word_width * 64;
                        lemma_ring_index(uni_word_width as int, col_idx_left as int, kc, c / 64);
                        assert(prev.cell(c, r) == (old_fog.cell(c, r) && !(fog_cleared(fog_circle, fog_radius as int, width, hgt,
                            center_row_idx as int, center_col_idx as int, bits_to_clear, c, r)
                            && ((r - row_top) % hgt < kr
                                || ((r - row_top) % hgt == kr && (c / 64 - col_idx_left) % (uni_word_width as int) < kc)))));
                        if r == row_idx && c / 64 == col_idx {
                            lemma_not_bit(mask, c % 64);
                        }
                    }
                }

                if col_idx == col_idx_right {
                    proof {
                        lemma_ring_index(uni_word_width as int, col_idx_left as int, kbc, col_idx as int);
                        lemma_ring_index(uni_word_width as int, col_idx_left as int, kc, col_idx as int);
                        assert forall|c: int, r: int| 0 <= c < uni_width && 0 <= r < uni_height implies #[trigger] player_fog.cell(c, r)
                            == (old_fog.cell(c, r) && !(fog_cleared(fog_circle, fog_radius as int, width, hgt,
                                center_row_idx as int, center_col_idx as int, bits_to_clear, c, r)
                                && (r - row_top) % hgt < kr + 1)) by {
                            assert(0 <= c / 64 < uni_word_width) by (nonlinear_arith)
                                requires 0 <= c < uni_width, uni_width == uni_word_width * 64;
                            lemma_ring_index(uni_word_width as int, col_idx_left as int, kc, c / 64);
                        }
                    }
                    break;
                }
                proof {
                    lemma_ring_step(uni_word_width as int, col_idx_left as int, kc);
                    if kc == kbc {
                        assert(false);
                    }
                    kc = kc + 1;
                }
                col_idx = (col_idx + 1) % uni_word_width;
            }

            if row_idx == row_bottom {
                proof {
                    lemma_ring_index(hgt, row_top as int, kb, row_idx as int);
                    lemma_ring_index(hgt, row_top as int, kr, row_idx as int);
                    assert forall|c: int, r: int| 0 <= c < uni_width && 0 <= r < uni_height implies #[trigger] player_fog.cell(c, r)
                        == (old_fog.cell(c, r) && !fog_cleared(fog_circle, fog_radius as int, width, hgt,
                            center_row_idx as int, center_col_idx as int, bits_to_clear, c, r)) by {
                        lemma_ring_index(hgt, row_top as int, kr, r);
                    }
                }
                break;
            }
            proof {
                lemma_ring_step(uni_height as int, row_top as int, kr);
                if kr == kb {
                    assert(false);
                }
                kr = kr + 1;
            }
            row_idx = (row_idx + 1) % uni_height;
        }
    }
}

/// Cell `(c, r)` lies in the fog circle of radius `fog_radius` around cell `(c0, r0)` of a
/// universe of `width` by `height` cells that wraps around: the offsets from `(c0, r0)` to
/// `(c, r)`, taken modulo the universe's size and shifted by `fog_radius - 1`, fall inside the
/// circle of the fog circle bitmap (see `in_fog_circle`).
pub open spec fn in_circle_around(fog_radius: int, width: int, height: int, c0: int, r0: int, c: int, r: int) -> bool {
    in_fog_circle(fog_radius, (c - c0 + fog_radius - 1) % width, (r - r0 + fog_radius - 1) % height)
}

/// Subtracting a number reduced modulo `w` is subtracting the number, modulo `w`.
proof fn lemma_mod_shift(a: int, b: int, w: int)
    requires
        0 < w,
    ensures
        (a - b % w) % w == (a - b) % w,
{
    vstd::arithmetic::div_mod::lemma_fundamental_div_mod(b, w);
    vstd::arithmetic::div_mod::lemma_mod_multiples_vanish(b / w, a - b, w);
    assert(a - b % w == w * (b / w) + (a - b));
}

/// Bit `k` of a word shifted towards the most significant end by `t` is bit `k + t` of the word.
proof fn lemma_shl_bit(a: u64, t: u64, k: int)
    requires
        t < 64,
        0 <= k < 64,
    ensures
        bit_at(a << t, k) == (k + t < 64 && bit_at(a, k + t)),
{
    let kk: u64 = (63 - k) as u64;
    assert((((a << t) >> kk) & 1u64 == 1u64) == (t <= kk && ((a >> ((kk - t) as u64)) & 1u64 == 1u64))) by (bit_vector)
        requires t < 64, kk < 64;
}

/// Bit `k` of a word shifted towards the least significant end by `t` is bit `k - t` of the
/// word.
proof fn lemma_shr_bit(a: u64, t: u64, k: int)
    requires
        t < 64,
        0 <= k < 64,
    ensures
        bit_at(a >> t, k) == (k >= t && bit_at(a, k - t)),
{
    let kk: u64 = (63 - k) as u64;
    assert((((a >> t) >> kk) & 1u64 == 1u64) == (kk + t < 64 && ((a >> ((kk + t) as u64)) & 1u64 == 1u64))) by (bit_vector)
        requires t < 64, kk < 64;
}

/// When the term of the fog circle for bit `s` has cell `k` of word `col_idx` clear, that cell
/// lies in the circle around the cell of bit `s` (for a fog circle one word wide).
proof fn lemma_circle_term_clear(fog_circle: &BitGrid, fog_radius: int, kr: int, col_idx: int, center_col: int, s: int,
    width: int, k: int)
    requires
        is_fog_circle(fog_circle, fog_radius),
        1 <= fog_radius <= 32,
        0 <= kr < fog_circle_height(fog_radius),
        64 <= width,
        width % 64 == 0,
        0 <= col_idx < width / 64,
        0 <= s < 64,
        0 <= k < 64,
        !bit_at(circle_term(fog_circle, kr, 0, col_idx, center_col, s, width, fog_radius - 1), k),
    ensures
        in_fog_circle(fog_radius, (col_idx * 64 + k - (center_col * 64 + (63 - s)) + fog_radius - 1) % width, kr),
{
    let rm1 = fog_radius - 1;
    let c = col_idx * 64 + k;
    let c0 = center_col * 64 + (63 - s);
    let big_f = (width + c0 - rm1) % width;
    let big_l = (width + c0 - rm1 + 63) % width;
    let cur_h = col_idx * 64;
    let cur_l = col_idx * 64 + 63;
    let fw = fog_circle.word(kr, 0);
    assert(col_idx * 64 + 63 < width) by (nonlinear_arith) requires 0 <= col_idx < width / 64, width % 64 == 0, 64 <= width;
    vstd::arithmetic::div_mod::lemma_mod_bound(width + c0 - rm1, width);
    vstd::arithmetic::div_mod::lemma_mod_bound(width + c0 - rm1 + 63, width);
    // the fog circle word holds the circle's row `kr`
    assert(fog_circle_words(fog_radius) == 1);
    assert forall|x: int| 0 <= x < 64 implies bit_at(fw, x) == !in_fog_circle(fog_radius, x, kr) by {
        assert(fog_circle.cell(x, kr) == !in_fog_circle(fog_radius, x, kr));
    }
    // the offset of the cell from the left end of the circle's window
    lemma_mod_shift(c, width + c0 - rm1, width);
    vstd::arithmetic::div_mod::lemma_mod_multiples_vanish(-1, c - c0 + rm1, width);
    assert((c - big_f) % width == (c - c0 + rm1) % width);
    if cur_h == big_f && cur_l == big_l {
        assert(circle_term(fog_circle, kr, 0, col_idx, center_col, s, width, rm1) == fw);
        vstd::arithmetic::div_mod::lemma_small_mod(k as nat, width as nat);
    } else if cur_h <= big_l && big_l < cur_l {
        let t = (cur_l - big_l) as u64;
        assert(circle_term(fog_circle, kr, 0, col_idx, center_col, s, width, rm1) == !(!fw << t));
        lemma_bool_ops(!fw << t, 0, k);
        lemma_shl_bit(!fw, t, k);
        lemma_bool_ops(fw, 0, k + t);
        lemma_mod_shift(c + 63, width + c0 - rm1 + 63, width);
        assert(c + 63 - big_l == k + t);
        vstd::arithmetic::div_mod::lemma_small_mod((k + t) as nat, width as nat);
    } else if cur_h < big_f && big_f <= cur_l {
        let t = (big_f - cur_h) as u64;
        assert(circle_term(fog_circle, kr, 0, col_idx, center_col, s, width, rm1) == !(!fw >> t));
        lemma_bool_ops(!fw >> t, 0, k);
        lemma_shr_bit(!fw, t, k);
        lemma_bool_ops(fw, 0, k - t);
        vstd::arithmetic::div_mod::lemma_small_mod((k - t) as nat, width as nat);
    } else {
        assert(circle_term(fog_circle, kr, 0, col_idx, center_col, s, width, rm1) == 0xffff_ffff_ffff_ffffu64);
        assert(!0u64 == 0xffff_ffff_ffff_ffffu64) by (bit_vector);
        lemma_bool_ops(0, 0, k);
        lemma_zero_word(k);
    }
}

/// A cell of the mask kept of a word is clear only where the term of some set bit of `bits`
/// (from bit `n` up) is clear (for a fog circle one word wide).
proof fn lemma_mask_clear(fog_circle: &BitGrid, fog_row: int, col_idx: int, center_col: int, bits: u64, width: int,
    rm1: int, n: int, k: int)
    requires
        0 <= n <= 64,
        0 <= k < 64,
        !bit_at(fog_mask_from(fog_circle, 1, fog_row, col_idx, center_col, bits, width, rm1, n), k),
    ensures
        exists|s: int| n <= s < 64 && low_bit(bits, s)
            && !bit_at(#[trigger] circle_term(fog_circle, fog_row, 0, col_idx, center_col, s, width, rm1), k),
    decreases 64 - n,
{
    if n >= 64 {
        assert(!0u64 == 0xffff_ffff_ffff_ffffu64) by (bit_vector);
        lemma_bool_ops(0, 0, k);
        lemma_zero_word(k);
    } else {
        let acc = fog_mask_from(fog_circle, 1, fog_row, col_idx, center_col, bits, width, rm1, n + 1);
        let term = circle_term(fog_circle, fog_row, 0, col_idx, center_col, n, width, rm1);
        if low_bit(bits, n) {
            assert(circle_terms(acc, fog_circle, fog_row, 0, col_idx, center_col, n, width, rm1) == acc);
            assert(circle_terms(acc, fog_circle, fog_row, 1, col_idx, center_col, n, width, rm1) == acc & term);
            lemma_bool_ops(acc, term, k);
            if bit_at(acc, k) {
                assert(!bit_at(term, k));
            } else {
                lemma_mask_clear(fog_circle, fog_row, col_idx, center_col, bits, width, rm1, n + 1, k);
            }
        } else {
            lemma_mask_clear(fog_circle, fog_row, col_idx, center_col, bits, width, rm1, n + 1, k);
        }
    }
}

/// Fog is only cleared inside the fog circle: when clearing the fog around the set bits of
/// `bits` in word `center_col` of row `center_row` clears cell `(c, r)`, the cell lies in the
/// circle around the cell of one of those bits (for fog radii up to 32, whose circle fits in one
/// word).
pub proof fn lemma_fog_cleared_in_circle(fog_circle: &BitGrid, fog_radius: int, width: int, height: int,
    center_row: int, center_col: int, bits: u64, c: int, r: int)
    requires
        is_fog_circle(fog_circle, fog_radius),
        1 <= fog_radius <= 32,
        64 <= width,
        width % 64 == 0,
        0 < height,
        0 <= center_row < height,
        0 <= c < width,
        0 <= r < height,
        fog_cleared(fog_circle, fog_radius, width, height, center_row, center_col, bits, c, r),
    ensures
        exists|s: int| 0 <= s < 64 && low_bit(bits, s)
            && #[trigger] in_circle_around(fog_radius, width, height, center_col * 64 + (63 - s), center_row, c, r),
{
    let rm1 = fog_radius - 1;
    let kr = (r - fog_row_top(fog_radius, height, center_row)) % height;
    lemma_mod_shift(r, height + center_row - rm1, height);
    vstd::arithmetic::div_mod::lemma_mod_multiples_vanish(-1, r - center_row + rm1, height);
    assert(kr == (r - center_row + rm1) % height);
    vstd::arithmetic::div_mod::lemma_mod_bound(2 * rm1, height);
    if 2 * rm1 < height {
        vstd::arithmetic::div_mod::lemma_small_mod((2 * rm1) as nat, height as nat);
    }
    vstd::arithmetic::div_mod::lemma_mod_bound(r - center_row + rm1, height);
    assert(kr < fog_circle_height(fog_radius));
    assert(fog_circle_words(fog_radius) == 1);
    let col_idx = c / 64;
    let k = c % 64;
    assert(0 <= col_idx < width / 64 && col_idx * 64 + k == c && 0 <= k < 64) by (nonlinear_arith)
        requires 0 <= c < width, width % 64 == 0, col_idx == c / 64, k == c % 64;
    lemma_mask_clear(fog_circle, kr, col_idx, center_col, bits, width, rm1, 0, k);
    let s = choose|s: int| 0 <= s < 64 && low_bit(bits, s)
        && !bit_at(#[trigger] circle_term(fog_circle, kr, 0, col_idx, center_col, s, width, rm1), k);
    lemma_circle_term_clear(fog_circle, fog_radius, kr, col_idx, center_col, s, width, k);
    assert(in_circle_around(fog_radius, width, height, center_col * 64 + (63 - s), center_row, c, r));
}

/// Counting up from bit `s`, the first set bit is reached no later than any set bit `s0`.
proof fn lemma_bottom_zeros_hit(w: u64, s: int, s0: int)
    requires
        0 <= s <= s0 < 64,
        low_bit(w, s0),
    ensures
        0 <= bottom_zeros(w, s) <= s0 - s,
    decreases 64 - s,
{
    if !low_bit(w, s) {
        lemma_bottom_zeros_hit(w, s + 1, s0);
    }
}

/// The mask kept of a word has a cell clear where the term of some set bit of `bits` (from bit
/// `n` up) has it clear.
proof fn lemma_mask_has(fog_circle: &BitGrid, fog_row: int, col_idx: int, center_col: int, bits: u64, width: int,
    rm1: int, n: int, k: int, s: int)
    requires
        0 <= n <= s < 64,
        0 <= k < 64,
        low_bit(bits, s),
        !bit_at(circle_term(fog_circle, fog_row, 0, col_idx, center_col, s, width, rm1), k),
    ensures
        !bit_at(fog_mask_from(fog_circle, 1, fog_row, col_idx, center_col, bits, width, rm1, n), k),
    decreases 64 - n,
{
    let acc = fog_mask_from(fog_circle, 1, fog_row, col_idx, center_col, bits, width, rm1, n + 1);
    let term = circle_term(fog_circle, fog_row, 0, col_idx, center_col, n, width, rm1);
    assert(circle_terms(acc, fog_circle, fog_row, 0, col_idx, center_col, n, width, rm1) == acc);
    assert(circle_terms(acc, fog_circle, fog_row, 1, col_idx, center_col, n, width, rm1) == acc & term);
    lemma_bool_ops(acc, term, k);
    if n < s {
        lemma_mask_has(fog_circle, fog_row, col_idx, center_col, bits, width, rm1, n + 1, k, s);
    }
}

/// A cell in the circle around the cell of bit `s` has the term of bit `s` clear in its word
/// (for a fog circle one word wide, on a universe at least two words wide).
proof fn lemma_circle_term_has(fog_circle: &BitGrid, fog_radius: int, kr: int, col_idx: int, center_col: int, s: int,
    width: int, k: int)
    requires
        is_fog_circle(fog_circle, fog_radius),
        1 <= fog_radius <= 32,
        0 <= kr < fog_circle_height(fog_radius),
        128 <= width,
        width % 64 == 0,
        0 <= col_idx < width / 64,
        0 <= s < 64,
        0 <= k < 64,
        in_fog_circle(fog_radius, (col_idx * 64 + k - (center_col * 64 + (63 - s)) + fog_radius - 1) % width, kr),
    ensures
        !bit_at(circle_term(fog_circle, kr, 0, col_idx, center_col, s, width, fog_radius - 1), k),
{
    let rm1 = fog_radius - 1;
    let c = col_idx * 64 + k;
    let c0 = center_col * 64 + (63 - s);
    let big_f = (width + c0 - rm1) % width;
    let big_l = (width + c0 - rm1 + 63) % width;
    let cur_h = col_idx * 64;
    let cur_l = col_idx * 64 + 63;
    let fw = fog_circle.word(kr, 0);
    let x = (c - c0 + rm1) % width;
    assert(col_idx * 64 + 63 < width) by (nonlinear_arith) requires 0 <= col_idx < width / 64, width % 64 == 0, 64 <= width;
    vstd::arithmetic::div_mod::lemma_mod_bound(width + c0 - rm1, width);
    vstd::arithmetic::div_mod::lemma_mod_bound(width + c0 - rm1 + 63, width);
    vstd::arithmetic::div_mod::lemma_mod_bound(c - c0 + rm1, width);
    assert(fog_circle_words(fog_radius) == 1);
    assert forall|z: int| 0 <= z < 64 implies bit_at(fw, z) == !in_fog_circle(fog_radius, z, kr) by {
        assert(fog_circle.cell(z, kr) == !in_fog_circle(fog_radius, z, kr));
    }
    // the offset lies within the circle's width
    let dx = x - rm1;
    let dy = kr - rm1;
    assert(-fog_radius < dx < fog_radius) by (nonlinear_arith)
        requires dx * dx + dy * dy < fog_radius * fog_radius, 1 <= fog_radius;
    assert(0 <= x <= 2 * rm1);
    lemma_mod_shift(c, width + c0 - rm1, width);
    vstd::arithmetic::div_mod::lemma_mod_multiples_vanish(-1, c - c0 + rm1, width);
    assert((c - big_f) % width == x);
    // so the cell lies `x` cells after the window's left end, around the ring
    assert(c - big_f == x || c - big_f == x - width) by {
        if c - big_f >= 0 {
            vstd::arithmetic::div_mod::lemma_small_mod((c - big_f) as nat, width as nat);
        } else {
            vstd::arithmetic::div_mod::lemma_mod_multiples_vanish(1, c - big_f, width);
            vstd::arithmetic::div_mod::lemma_small_mod((c - big_f + width) as nat, width as nat);
        }
    }
    assert(big_l == big_f + 63 || big_l == big_f + 63 - width) by {
        let v = width + c0 - rm1;
        vstd::arithmetic::div_mod::lemma_fundamental_div_mod(v, width);
        vstd::arithmetic::div_mod::lemma_mod_multiples_vanish(v / width, big_f + 63, width);
        assert(v + 63 == width * (v / width) + (big_f + 63));
        if big_f + 63 < width {
            vstd::arithmetic::div_mod::lemma_small_mod((big_f + 63) as nat, width as nat);
        } else {
            vstd::arithmetic::div_mod::lemma_mod_multiples_vanish(1, big_f + 63 - width, width);
            vstd::arithmetic::div_mod::lemma_small_mod((big_f + 63 - width) as nat, width as nat);
        }
    }
    lemma_bool_ops(fw, 0, x);
    if cur_h == big_f && cur_l == big_l {
        assert(circle_term(fog_circle, kr, 0, col_idx, center_col, s, width, rm1) == fw);
        assert(k == x);
    } else if cur_h <= big_l && big_l < cur_l {
        let t = (cur_l - big_l) as u64;
        assert(circle_term(fog_circle, kr, 0, col_idx, center_col, s, width, rm1) == !(!fw << t));
        lemma_bool_ops(!fw << t, 0, k);
        lemma_shl_bit(!fw, t, k);
        assert(k + t == x);
    } else {
        assert(cur_h < big_f && big_f <= cur_l);
        let t = (big_f - cur_h) as u64;
        assert(circle_term(fog_circle, kr, 0, col_idx, center_col, s, width, rm1) == !(!fw >> t));
        lemma_bool_ops(!fw >> t, 0, k);
        lemma_shr_bit(!fw, t, k);
        assert(k - t == x);
    }
}

/// A word with a set bit is not zero.
proof fn lemma_low_bit_nonzero(w: u64, s: int)
    requires
        0 <= s < 64,
        low_bit(w, s),
    ensures
        w != 0,
{
    let t = s as u64;
    assert(w & (1u64 << t) > 0 ==> w != 0) by (bit_vector) requires t < 64;
}

/// Splitting a position that is less than two turns around a ring of `width` cells: its cell
/// on the ring, and its word on the ring of `width / 64` words.
proof fn lemma_ring_pos(p: int, width: int)
    requires
        0 <= p < 2 * width,
        64 <= width,
        width % 64 == 0,
    ensures
        p < width ==> p % width == p && (p % width) / 64 == p / 64,
        p >= width ==> p % width == p - width && (p % width) / 64 == p / 64 - width / 64,
{
    if p < width {
        vstd::arithmetic::div_mod::lemma_small_mod(p as nat, width as nat);
    } else {
        vstd::arithmetic::div_mod::lemma_mod_multiples_vanish(1, p - width, width);
        vstd::arithmetic::div_mod::lemma_small_mod((p - width) as nat, width as nat);
        assert((p - width) / 64 == p / 64 - width / 64) by (nonlinear_arith)
            requires width % 64 == 0, 64 <= width, width <= p;
    }
}

/// Fog is cleared all around a new cell: clearing the fog around the set bits of `bits` in
/// word `center_col` of row `center_row` clears every cell in the circle around the cell of any
/// of those bits (for fog radii up to 32, on a universe at least three words wide and at least
/// as high as the circle).
pub proof fn lemma_fog_cleared_near_bit(fog_circle: &BitGrid, fog_radius: int, width: int, height: int,
    center_row: int, center_col: int, bits: u64, s: int, c: int, r: int)
    requires
        is_fog_circle(fog_circle, fog_radius),
        1 <= fog_radius <= 32,
        192 <= width,
        width % 64 == 0,
        2 * fog_radius - 1 <= height,
        0 <= center_row < height,
        0 <= center_col < width / 64,
        0 <= c < width,
        0 <= r < height,
        0 <= s < 64,
        low_bit(bits, s),
        in_circle_around(fog_radius, width, height, center_col * 64 + (63 - s), center_row, c, r),
    ensures
        fog_cleared(fog_circle, fog_radius, width, height, center_row, center_col, bits, c, r),
{
    let rm1 = fog_radius - 1;
    let words = width / 64;
    let c0 = center_col * 64 + (63 - s);
    let x = (c - c0 + rm1) % width;
    let y = (r - center_row + rm1) % height;
    lemma_low_bit_nonzero(bits, s);
    vstd::arithmetic::div_mod::lemma_mod_bound(c - c0 + rm1, width);
    vstd::arithmetic::div_mod::lemma_mod_bound(r - center_row + rm1, height);
    let dx = x - rm1;
    let dy = y - rm1;
    assert(-fog_radius < dx < fog_radius && -fog_radius < dy < fog_radius) by (nonlinear_arith)
        requires dx * dx + dy * dy < fog_radius * fog_radius, 1 <= fog_radius;
    // the row of the cell in the fog circle, within the window of rows
    let kr = (r - fog_row_top(fog_radius, height, center_row)) % height;
    lemma_mod_shift(r, height + center_row - rm1, height);
    vstd::arithmetic::div_mod::lemma_mod_multiples_vanish(-1, r - center_row + rm1, height);
    assert(kr == y);
    vstd::arithmetic::div_mod::lemma_small_mod((2 * rm1) as nat, height as nat);
    assert(kr <= fog_row_span(fog_radius, height));
    // the word of the cell, within the window of words
    let tz = top_zeros(bits, 63);
    let bz = bottom_zeros(bits, 0);
    lemma_top_zeros_hit(bits, 63, s);
    lemma_bottom_zeros_hit(bits, 0, s);
    let big_a = center_col * 64 + tz - rm1;
    let big_b = center_col * 64 + 63 - bz + rm1;
    let a = (width + big_a) % width;
    let d = c0 - rm1 + x - big_a;
    assert(0 <= d <= big_b - big_a <= 125);
    vstd::arithmetic::div_mod::lemma_mod_bound(width + big_a, width);
    vstd::arithmetic::div_mod::lemma_fundamental_div_mod(width + big_a, width);
    vstd::arithmetic::div_mod::lemma_fundamental_div_mod(c - c0 + rm1, width);
    let qa = (width + big_a) / width;
    let qx = (c - c0 + rm1) / width;
    // the cell is `d` cells after the window's first cell, around the ring
    assert(a + d == width * (1 - qa - qx) + c) by (nonlinear_arith)
        requires
            width + big_a == width * qa + a,
            c - c0 + rm1 == width * qx + x,
            d == c0 - rm1 + x - big_a;
    vstd::arithmetic::div_mod::lemma_mod_multiples_vanish(1 - qa - qx, c, width);
    vstd::arithmetic::div_mod::lemma_small_mod(c as nat, width as nat);
    assert((a + d) % width == c);
    // the window's last cell
    let q = a + (big_b - big_a);
    assert(q == width * (1 - qa) + big_b) by (nonlinear_arith)
        requires width + big_a == width * qa + a, q == a + (big_b - big_a);
    vstd::arithmetic::div_mod::lemma_mod_multiples_vanish(1 - qa, big_b, width);
    assert(q % width == big_b % width);
    lemma_ring_pos(a + d, width);
    lemma_ring_pos(q, width);
    assert(fog_word_left(fog_radius, width, center_col, bits) == a / 64);
    assert(fog_word_right(fog_radius, width, center_col, bits) == (q % width) / 64);
    assert(a / 64 <= (a + d) / 64 <= q / 64 <= a / 64 + 2) by (nonlinear_arith)
        requires 0 <= a, 0 <= d <= q - a, q - a <= 125;
    assert(words >= 3) by (nonlinear_arith) requires 192 <= width, width % 64 == 0, words == width / 64;
    let kc = (c / 64 - a / 64) % words;
    if a + d < width {
        vstd::arithmetic::div_mod::lemma_small_mod(((a + d) / 64 - a / 64) as nat, words as nat);
    } else {
        vstd::arithmetic::div_mod::lemma_mod_multiples_vanish(-1, (a + d) / 64 - a / 64, words);
        vstd::arithmetic::div_mod::lemma_small_mod(((a + d) / 64 - a / 64) as nat, words as nat);
    }
    assert(kc == (a + d) / 64 - a / 64);
    if q < width {
        vstd::arithmetic::div_mod::lemma_mod_multiples_vanish(1, q / 64 - a / 64, words);
        vstd::arithmetic::div_mod::lemma_small_mod((q / 64 - a / 64) as nat, words as nat);
    } else {
        vstd::arithmetic::div_mod::lemma_small_mod((q / 64 - a / 64) as nat, words as nat);
    }
    assert(fog_word_span(fog_radius, width, center_col, bits) == q / 64 - a / 64);
    assert(kc <= fog_word_span(fog_radius, width, center_col, bits));
    // the cell is clear in the mask kept of its word
    let col_idx = c / 64;
    let k = c % 64;
    assert(0 <= col_idx < words && col_idx * 64 + k == c && 0 <= k < 64) by (nonlinear_arith)
        requires 0 <= c < width, width % 64 == 0, col_idx == c / 64, k == c % 64, words == width / 64;
    assert(kr < fog_circle_height(fog_radius));
    lemma_circle_term_has(fog_circle, fog_radius, kr, col_idx, center_col, s, width, k);
    assert(fog_circle_words(fog_radius) == 1);
    lemma_mask_has(fog_circle, kr, col_idx, center_col, bits, width, rm1, 0, k, s);
}

} // verus!
