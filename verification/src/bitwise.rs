use vstd::prelude::*;

verus! {

/// Whether the cell at column offset `k` (0 = leftmost, 63 = rightmost) of a 64-cell word is set.
/// The leftmost cell is the most significant bit.
pub open spec fn bit_at(w: u64, k: int) -> bool {
    (w >> ((63 - k) as u64)) & 1u64 == 1u64
}

/// The cell to the left of offset `k`, taking it from the word `west` when `k` is the first
/// column of `cur`.
pub open spec fn left_of(west: u64, cur: u64, k: int) -> bool {
    if k == 0 { bit_at(west, 63) } else { bit_at(cur, k - 1) }
}

/// The cell to the right of offset `k`, taking it from the word `east` when `k` is the last
/// column of `cur`.
pub open spec fn right_of(cur: u64, east: u64, k: int) -> bool {
    if k == 63 { bit_at(east, 0) } else { bit_at(cur, k + 1) }
}

pub open spec fn b2i(b: bool) -> int {
    if b { 1 } else { 0 }
}

/// Conway's rule: a cell is alive in the next generation if it has exactly three live
/// neighbors, or if it is alive and has exactly two.
pub open spec fn life_rule(center: bool, count: int) -> bool {
    count == 3 || (center && count == 2)
}

/// Number of set values among eight neighbors.
pub open spec fn count8(a: bool, b: bool, c: bool, d: bool, e: bool, f: bool, g: bool, h: bool) -> int {
    b2i(a) + b2i(b) + b2i(c) + b2i(d) + b2i(e) + b2i(f) + b2i(g) + b2i(h)
}

/// Number of live neighbors of offset `k` of `center`, given the eight surrounding words.
pub open spec fn neighbor_count(nw: u64, n: u64, ne: u64, w: u64, center: u64, e: u64, sw: u64, s: u64, se: u64, k: int) -> int {
    count8(
        left_of(nw, n, k), bit_at(n, k), right_of(n, ne, k),
        left_of(w, center, k), right_of(center, e, k),
        left_of(sw, s, k), bit_at(s, k), right_of(s, se, k),
    )
}

/// Whether offset `k` of `center` or any of its eight neighbors is set.
pub open spec fn any_in_block(nw: u64, n: u64, ne: u64, w: u64, center: u64, e: u64, sw: u64, s: u64, se: u64, k: int) -> bool {
    left_of(nw, n, k) || bit_at(n, k) || right_of(n, ne, k) ||
    left_of(w, center, k) || bit_at(center, k) || right_of(center, e, k) ||
    left_of(sw, s, k) || bit_at(s, k) || right_of(s, se, k)
}

/// Whether offset `k` of `center` and all of its eight neighbors are set.
pub open spec fn all_in_block(nw: u64, n: u64, ne: u64, w: u64, center: u64, e: u64, sw: u64, s: u64, se: u64, k: int) -> bool {
    left_of(nw, n, k) && bit_at(n, k) && right_of(n, ne, k) &&
    left_of(w, center, k) && bit_at(center, k) && right_of(center, e, k) &&
    left_of(sw, s, k) && bit_at(s, k) && right_of(s, se, k)
}

proof fn lemma_shift_in_left(west: u64, cur: u64, k: u64)
    requires
        k < 64,
    ensures
        bit_at((west << 63u64) | (cur >> 1u64), k as int) == left_of(west, cur, k as int),
{
    let x = (west << 63u64) | (cur >> 1u64);
    let s: u64 = (63 - k) as u64;
    if k == 0 {
        assert((x >> 63u64) & 1u64 == 1u64 <==> (west >> 0u64) & 1u64 == 1u64) by (bit_vector)
            requires x == (west << 63u64) | (cur >> 1u64);
    } else {
        let t: u64 = (63 - (k - 1)) as u64;
        assert((x >> s) & 1u64 == 1u64 <==> (cur >> t) & 1u64 == 1u64) by (bit_vector)
            requires x == (west << 63u64) | (cur >> 1u64), s < 63, t == s + 1;
    }
}

proof fn lemma_shift_in_right(cur: u64, east: u64, k: u64)
    requires
        k < 64,
    ensures
        bit_at((cur << 1u64) | (east >> 63u64), k as int) == right_of(cur, east, k as int),
{
    let x = (cur << 1u64) | (east >> 63u64);
    let s: u64 = (63 - k) as u64;
    if k == 63 {
        assert((x >> 0u64) & 1u64 == 1u64 <==> (east >> 63u64) & 1u64 == 1u64) by (bit_vector)
            requires x == (cur << 1u64) | (east >> 63u64);
    } else {
        let t: u64 = (63 - (k + 1)) as u64;
        assert((x >> s) & 1u64 == 1u64 <==> (cur >> t) & 1u64 == 1u64) by (bit_vector)
            requires x == (cur << 1u64) | (east >> 63u64), 0 < s < 64, t + 1 == s;
    }
}

/// The bit-parallel adder network that applies Conway's rule to 64 cells at once, given the
/// eight words of neighbors `a` .. `h` already aligned with `center`.
pub open spec fn adder_word(a: u64, b: u64, c: u64, d: u64, center: u64, e: u64, f: u64, g: u64, h: u64) -> u64 {
    let b_xor_c = b ^ c;
    let y1 = (a & b_xor_c) | (b & c);
    let y2 = a ^ b_xor_c;
    let e_xor_f = e ^ f;
    let c2 = (d & e_xor_f) | (e & f);
    let s2 = d ^ e_xor_f;
    let c3 = g & h;
    let s3 = g ^ h;
    let c4 = s2 & s3;
    let y5 = s2 ^ s3;
    let c2_xor_c3 = c2 ^ c3;
    let y3 = (c4 & c2_xor_c3) | (c2 & c3);
    let y4 = c4 ^ c2_xor_c3;
    let y6 = center;
    let int1 = !y3 & !y4;
    !y1 & y6 & (y2 & int1 & y5 | y4 & !y5) | y1 & int1 & (!y2 & (y5 | y6) | y2 & !y5) | !y1 & y4 & (y2 ^ y5)
}

proof fn lemma_adder_lane(a: u64, b: u64, c: u64, d: u64, center: u64, e: u64, f: u64, g: u64, h: u64, s: u64)
    requires
        s < 64,
    ensures
        ({
            let cnt = ((a >> s) & 1u64) + ((b >> s) & 1u64) + ((c >> s) & 1u64) + ((d >> s) & 1u64)
                + ((e >> s) & 1u64) + ((f >> s) & 1u64) + ((g >> s) & 1u64) + ((h >> s) & 1u64);
            ((adder_word(a, b, c, d, center, e, f, g, h) >> s) & 1u64 == 1u64)
                <==> (cnt == 3 || ((center >> s) & 1u64 == 1u64 && cnt == 2))
        }),
{
    let r = adder_word(a, b, c, d, center, e, f, g, h);
    assert(((r >> s) & 1u64 == 1u64) <==> (
        ((a >> s) & 1u64) + ((b >> s) & 1u64) + ((c >> s) & 1u64) + ((d >> s) & 1u64)
                + ((e >> s) & 1u64) + ((f >> s) & 1u64) + ((g >> s) & 1u64) + ((h >> s) & 1u64) == 3
        || ((center >> s) & 1u64 == 1u64 &&
        ((a >> s) & 1u64) + ((b >> s) & 1u64) + ((c >> s) & 1u64) + ((d >> s) & 1u64)
                + ((e >> s) & 1u64) + ((f >> s) & 1u64) + ((g >> s) & 1u64) + ((h >> s) & 1u64) == 2)))
        by (bit_vector)
        requires r == adder_word(a, b, c, d, center, e, f, g, h), s < 64;
}

/// One generation of Conway's rule for the 64 cells of `center`, given the eight words around it.
pub open spec fn life_word(nw: u64, n: u64, ne: u64, w: u64, center: u64, e: u64, sw: u64, s: u64, se: u64) -> u64 {
    adder_word(
        (nw << 63u64) | (n >> 1u64), n, (n << 1u64) | (ne >> 63u64),
        (w << 63u64) | (center >> 1u64), center, (center << 1u64) | (e >> 63u64),
        (sw << 63u64) | (s >> 1u64), s, (s << 1u64) | (se >> 63u64),
    )
}

proof fn lemma_lane_value(x: u64, s: u64)
    requires
        s < 64,
    ensures
        (x >> s) & 1u64 == 0u64 || (x >> s) & 1u64 == 1u64,
{
    assert((x >> s) & 1u64 == 0u64 || (x >> s) & 1u64 == 1u64) by (bit_vector);
}

/// Each cell of the computed word follows Conway's rule applied to that cell's eight neighbors.
pub proof fn lemma_life_word(nw: u64, n: u64, ne: u64, w: u64, center: u64, e: u64, sw: u64, s: u64, se: u64, k: int)
    requires
        0 <= k < 64,
    ensures
        bit_at(life_word(nw, n, ne, w, center, e, sw, s, se), k)
            == life_rule(bit_at(center, k), neighbor_count(nw, n, ne, w, center, e, sw, s, se, k)),
{
    let ku = k as u64;
    let sh: u64 = (63 - k) as u64;
    let a = (nw << 63u64) | (n >> 1u64);
    let c = (n << 1u64) | (ne >> 63u64);
    let d = (w << 63u64) | (center >> 1u64);
    let ee = (center << 1u64) | (e >> 63u64);
    let f = (sw << 63u64) | (s >> 1u64);
    let h = (s << 1u64) | (se >> 63u64);
    lemma_shift_in_left(nw, n, ku);
    lemma_shift_in_right(n, ne, ku);
    lemma_shift_in_left(w, center, ku);
    lemma_shift_in_right(center, e, ku);
    lemma_shift_in_left(sw, s, ku);
    lemma_shift_in_right(s, se, ku);
    lemma_adder_lane(a, n, c, d, center, ee, f, s, h, sh);
    lemma_lane_value(a, sh);
    lemma_lane_value(n, sh);
    lemma_lane_value(c, sh);
    lemma_lane_value(d, sh);
    lemma_lane_value(center, sh);
    lemma_lane_value(ee, sh);
    lemma_lane_value(f, sh);
    lemma_lane_value(s, sh);
    lemma_lane_value(h, sh);
}

/// Bitwise or of a cell and its eight neighbors, for all 64 cells of `center`.
pub open spec fn block_or_word(nw: u64, n: u64, ne: u64, w: u64, center: u64, e: u64, sw: u64, s: u64, se: u64) -> u64 {
    ((nw << 63u64) | (n >> 1u64)) | n | ((n << 1u64) | (ne >> 63u64))
        | ((w << 63u64) | (center >> 1u64)) | center | ((center << 1u64) | (e >> 63u64))
        | ((sw << 63u64) | (s >> 1u64)) | s | ((s << 1u64) | (se >> 63u64))
}

/// Bitwise and of a cell and its eight neighbors, for all 64 cells of `center`.
pub open spec fn block_and_word(nw: u64, n: u64, ne: u64, w: u64, center: u64, e: u64, sw: u64, s: u64, se: u64) -> u64 {
    ((nw << 63u64) | (n >> 1u64)) & n & ((n << 1u64) | (ne >> 63u64))
        & ((w << 63u64) | (center >> 1u64)) & center & ((center << 1u64) | (e >> 63u64))
        & ((sw << 63u64) | (s >> 1u64)) & s & ((s << 1u64) | (se >> 63u64))
}

proof fn lemma_or9_lane(a: u64, b: u64, c: u64, d: u64, x: u64, e: u64, f: u64, g: u64, h: u64, sh: u64)
    requires
        sh < 64,
    ensures
        ((a | b | c | d | x | e | f | g | h) >> sh) & 1u64 == 1u64 <==> (
            (a >> sh) & 1u64 == 1u64 || (b >> sh) & 1u64 == 1u64 || (c >> sh) & 1u64 == 1u64
            || (d >> sh) & 1u64 == 1u64 || (x >> sh) & 1u64 == 1u64 || (e >> sh) & 1u64 == 1u64
            || (f >> sh) & 1u64 == 1u64 || (g >> sh) & 1u64 == 1u64 || (h >> sh) & 1u64 == 1u64),
        ((a & b & c & d & x & e & f & g & h) >> sh) & 1u64 == 1u64 <==> (
            (a >> sh) & 1u64 == 1u64 && (b >> sh) & 1u64 == 1u64 && (c >> sh) & 1u64 == 1u64
            && (d >> sh) & 1u64 == 1u64 && (x >> sh) & 1u64 == 1u64 && (e >> sh) & 1u64 == 1u64
            && (f >> sh) & 1u64 == 1u64 && (g >> sh) & 1u64 == 1u64 && (h >> sh) & 1u64 == 1u64),
{
    assert(((a | b | c | d | x | e | f | g | h) >> sh) & 1u64 == 1u64 <==> (
            (a >> sh) & 1u64 == 1u64 || (b >> sh) & 1u64 == 1u64 || (c >> sh) & 1u64 == 1u64
            || (d >> sh) & 1u64 == 1u64 || (x >> sh) & 1u64 == 1u64 || (e >> sh) & 1u64 == 1u64
            || (f >> sh) & 1u64 == 1u64 || (g >> sh) & 1u64 == 1u64 || (h >> sh) & 1u64 == 1u64))
        by (bit_vector) requires sh < 64;
    assert(((a & b & c & d & x & e & f & g & h) >> sh) & 1u64 == 1u64 <==> (
            (a >> sh) & 1u64 == 1u64 && (b >> sh) & 1u64 == 1u64 && (c >> sh) & 1u64 == 1u64
            && (d >> sh) & 1u64 == 1u64 && (x >> sh) & 1u64 == 1u64 && (e >> sh) & 1u64 == 1u64
            && (f >> sh) & 1u64 == 1u64 && (g >> sh) & 1u64 == 1u64 && (h >> sh) & 1u64 == 1u64))
        by (bit_vector) requires sh < 64;
}

/// Each cell of the or-word is set exactly when the cell or one of its neighbors is set, and each
/// cell of the and-word is set exactly when the cell and all of its neighbors are set.
pub proof fn lemma_block_words(nw: u64, n: u64, ne: u64, w: u64, center: u64, e: u64, sw: u64, s: u64, se: u64, k: int)
    requires
        0 <= k < 64,
    ensures
        bit_at(block_or_word(nw, n, ne, w, center, e, sw, s, se), k)
            == any_in_block(nw, n, ne, w, center, e, sw, s, se, k),
        bit_at(block_and_word(nw, n, ne, w, center, e, sw, s, se), k)
            == all_in_block(nw, n, ne, w, center, e, sw, s, se, k),
{
    let ku = k as u64;
    let sh: u64 = (63 - k) as u64;
    lemma_shift_in_left(nw, n, ku);
    lemma_shift_in_right(n, ne, ku);
    lemma_shift_in_left(w, center, ku);
    lemma_shift_in_right(center, e, ku);
    lemma_shift_in_left(sw, s, ku);
    lemma_shift_in_right(s, se, ku);
    lemma_or9_lane(
        (nw << 63u64) | (n >> 1u64), n, (n << 1u64) | (ne >> 63u64),
        (w << 63u64) | (center >> 1u64), center, (center << 1u64) | (e >> 63u64),
        (sw << 63u64) | (s >> 1u64), s, (s << 1u64) | (se >> 63u64), sh);
}

/// And, or and not act on each cell independently.
pub proof fn lemma_bool_ops(a: u64, b: u64, k: int)
    requires
        0 <= k < 64,
    ensures
        bit_at(a & b, k) == (bit_at(a, k) && bit_at(b, k)),
        bit_at(a | b, k) == (bit_at(a, k) || bit_at(b, k)),
        bit_at(!a, k) == !bit_at(a, k),
{
    let s: u64 = (63 - k) as u64;
    assert(((a & b) >> s) & 1u64 == 1u64 <==> ((a >> s) & 1u64 == 1u64 && (b >> s) & 1u64 == 1u64)) by (bit_vector)
        requires s < 64;
    assert(((a | b) >> s) & 1u64 == 1u64 <==> ((a >> s) & 1u64 == 1u64 || (b >> s) & 1u64 == 1u64)) by (bit_vector)
        requires s < 64;
    assert(((!a) >> s) & 1u64 == 1u64 <==> !((a >> s) & 1u64 == 1u64)) by (bit_vector)
        requires s < 64;
}

} // verus!
