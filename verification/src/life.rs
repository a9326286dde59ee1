use vstd::prelude::*;
use vstd::arithmetic::div_mod::lemma_fundamental_div_mod_converse;
use crate::bit_grid::BitGrid;
use crate::gen_state::GenState;
use crate::bitwise::{bit_at, b2i, left_of, right_of, life_rule, life_word, block_and_word, block_or_word,
    lemma_life_word, lemma_block_words, lemma_bool_ops};

verus! {

/// The cell `(c, r)` of a grid of `w` by `h` cells that wraps around at its edges.
pub open spec fn tcell(g: &BitGrid, c: int, r: int, w: int, h: int) -> bool {
    g.cell(c % w, r % h)
}

/// Number of live neighbors of `(c, r)` on the wrapping grid.
pub open spec fn live_neighbors(g: &BitGrid, c: int, r: int, w: int, h: int) -> int {
    b2i(tcell(g, c - 1, r - 1, w, h)) + b2i(tcell(g, c, r - 1, w, h)) + b2i(tcell(g, c + 1, r - 1, w, h))
        + b2i(tcell(g, c - 1, r, w, h)) + b2i(tcell(g, c + 1, r, w, h))
        + b2i(tcell(g, c - 1, r + 1, w, h)) + b2i(tcell(g, c, r + 1, w, h)) + b2i(tcell(g, c + 1, r + 1, w, h))
}

/// Conway's rule for cell `(c, r)` of the wrapping grid.
pub open spec fn life_next(g: &BitGrid, c: int, r: int, w: int, h: int) -> bool {
    life_rule(g.cell(c, r), live_neighbors(g, c, r, w, h))
}

/// Whether `(c, r)` and all eight of its neighbors are set on the wrapping grid.
pub open spec fn block_all(g: &BitGrid, c: int, r: int, w: int, h: int) -> bool {
    tcell(g, c - 1, r - 1, w, h) && tcell(g, c, r - 1, w, h) && tcell(g, c + 1, r - 1, w, h)
        && tcell(g, c - 1, r, w, h) && g.cell(c, r) && tcell(g, c + 1, r, w, h)
        && tcell(g, c - 1, r + 1, w, h) && tcell(g, c, r + 1, w, h) && tcell(g, c + 1, r + 1, w, h)
}

/// Whether `(c, r)` or any of its eight neighbors is set on the wrapping grid.
pub open spec fn block_any(g: &BitGrid, c: int, r: int, w: int, h: int) -> bool {
    tcell(g, c - 1, r - 1, w, h) || tcell(g, c, r - 1, w, h) || tcell(g, c + 1, r - 1, w, h)
        || tcell(g, c - 1, r, w, h) || g.cell(c, r) || tcell(g, c + 1, r, w, h)
        || tcell(g, c - 1, r + 1, w, h) || tcell(g, c, r + 1, w, h) || tcell(g, c + 1, r + 1, w, h)
}

/// Row above `r`, wrapping.
pub open spec fn nrow(r: int, h: int) -> int {
    (r + h - 1) % h
}

/// Row below `r`, wrapping.
pub open spec fn srow(r: int, h: int) -> int {
    (r + 1) % h
}

/// Word to the left of `c`, wrapping.
pub open spec fn wcol(c: int, words: int) -> int {
    (c + words - 1) % words
}

/// Word to the right of `c`, wrapping.
pub open spec fn ecol(c: int, words: int) -> int {
    (c + 1) % words
}

/// Word `c` of row `r` of the next generation of `g` under Conway's rule, computed 64 cells at a time.
pub open spec fn life_word_at(g: &BitGrid, r: int, c: int, words: int, h: int) -> u64 {
    let (nr, sr, wc, ec) = (nrow(r, h), srow(r, h), wcol(c, words), ecol(c, words));
    life_word(g.word(nr, wc), g.word(nr, c), g.word(nr, ec), g.word(r, wc), g.word(r, c), g.word(r, ec),
        g.word(sr, wc), g.word(sr, c), g.word(sr, ec))
}

/// Word `c` of row `r` of the and of each cell's 3x3 block.
pub open spec fn block_and_at(g: &BitGrid, r: int, c: int, words: int, h: int) -> u64 {
    let (nr, sr, wc, ec) = (nrow(r, h), srow(r, h), wcol(c, words), ecol(c, words));
    block_and_word(g.word(nr, wc), g.word(nr, c), g.word(nr, ec), g.word(r, wc), g.word(r, c), g.word(r, ec),
        g.word(sr, wc), g.word(sr, c), g.word(sr, ec))
}

/// Word `c` of row `r` of the or of each cell's 3x3 block.
pub open spec fn block_or_at(g: &BitGrid, r: int, c: int, words: int, h: int) -> u64 {
    let (nr, sr, wc, ec) = (nrow(r, h), srow(r, h), wcol(c, words), ecol(c, words));
    block_or_word(g.word(nr, wc), g.word(nr, c), g.word(nr, ec), g.word(r, wc), g.word(r, c), g.word(r, ec),
        g.word(sr, wc), g.word(sr, c), g.word(sr, ec))
}

/// A column `wc * 64 + k` lies in word `wc` at offset `k`.
pub proof fn lemma_word_offset(wc: int, k: int)
    requires
        0 <= wc,
        0 <= k < 64,
    ensures
        (wc * 64 + k) / 64 == wc,
        (wc * 64 + k) % 64 == k,
{
    lemma_fundamental_div_mod_converse(wc * 64 + k, 64, wc, k);
}

/// The wrapping row and column helpers agree with reduction modulo the size.
pub proof fn lemma_wrap_index(x: int, n: int)
    requires
        0 <= x < n,
    ensures
        (x + n - 1) % n == (x - 1) % n,
        (x + 1) % n == (x + 1) % n,
        0 <= (x + n - 1) % n < n,
        0 <= (x + 1) % n < n,
        x % n == x,
        (x - 1) % n == if x == 0 { n - 1 } else { x - 1 },
        (x + 1) % n == if x == n - 1 { 0 } else { x + 1 },
{
    lemma_fundamental_div_mod_converse(x, n, 0, x);
    if x == 0 {
        lemma_fundamental_div_mod_converse(x - 1, n, -1, n - 1);
        lemma_fundamental_div_mod_converse(x + n - 1, n, 0, n - 1);
    } else {
        lemma_fundamental_div_mod_converse(x - 1, n, 0, x - 1);
        lemma_fundamental_div_mod_converse(x + n - 1, n, 1, x - 1);
    }
    if x == n - 1 {
        lemma_fundamental_div_mod_converse(x + 1, n, 1, 0);
    } else {
        lemma_fundamental_div_mod_converse(x + 1, n, 0, x + 1);
    }
}

/// Within one row, the neighbors of offset `k` of word `wc` (wrapping around the row) are the
/// cells one column to the left and right.
proof fn lemma_row_neighbors(g: &BitGrid, rr: int, wc: int, k: int, words: int, h: int)
    requires
        g.shaped(words as nat, h as nat),
        0 <= rr < h,
        0 <= wc < words,
        0 <= k < 64,
    ensures
        left_of(g.word(rr, wcol(wc, words)), g.word(rr, wc), k) == g.cell((wc * 64 + k - 1) % (words * 64), rr),
        bit_at(g.word(rr, wc), k) == g.cell(wc * 64 + k, rr),
        right_of(g.word(rr, wc), g.word(rr, ecol(wc, words)), k) == g.cell((wc * 64 + k + 1) % (words * 64), rr),
{
    let w = words * 64;
    let c = wc * 64 + k;
    lemma_word_offset(wc, k);
    lemma_wrap_index(wc, words);
    lemma_wrap_index(c, w);
    if k == 0 {
        if wc == 0 {
            lemma_word_offset(words - 1, 63);
        } else {
            lemma_word_offset(wc - 1, 63);
        }
    } else {
        lemma_word_offset(wc, k - 1);
    }
    if k == 63 {
        if wc == words - 1 {
            lemma_word_offset(0, 0);
        } else {
            lemma_word_offset(wc + 1, 0);
        }
    } else {
        lemma_word_offset(wc, k + 1);
    }
}

/// Each cell of the word computed by the bit-parallel life step follows Conway's rule on the
/// wrapping grid; likewise for the 3x3 and and or words.
pub proof fn lemma_words_at(g: &BitGrid, r: int, wc: int, k: int, words: int, h: int)
    requires
        g.shaped(words as nat, h as nat),
        0 <= r < h,
        0 <= wc < words,
        0 <= k < 64,
    ensures
        bit_at(life_word_at(g, r, wc, words, h), k) == life_next(g, wc * 64 + k, r, words * 64, h),
        bit_at(block_and_at(g, r, wc, words, h), k) == block_all(g, wc * 64 + k, r, words * 64, h),
        bit_at(block_or_at(g, r, wc, words, h), k) == block_any(g, wc * 64 + k, r, words * 64, h),
{
    let w = words * 64;
    let c = wc * 64 + k;
    let (nr, sr, wl, el) = (nrow(r, h), srow(r, h), wcol(wc, words), ecol(wc, words));
    lemma_wrap_index(r, h);
    lemma_wrap_index(wc, words);
    lemma_word_offset(wc, k);
    lemma_wrap_index(c, w);
    lemma_row_neighbors(g, nr, wc, k, words, h);
    lemma_row_neighbors(g, r, wc, k, words, h);
    lemma_row_neighbors(g, sr, wc, k, words, h);
    assert(0 <= c < w);
    lemma_fundamental_div_mod_converse(c, w, 0, c);
    lemma_life_word(g.word(nr, wl), g.word(nr, wc), g.word(nr, el), g.word(r, wl), g.word(r, wc), g.word(r, el),
        g.word(sr, wl), g.word(sr, wc), g.word(sr, el), k);
    lemma_block_words(g.word(nr, wl), g.word(nr, wc), g.word(nr, el), g.word(r, wl), g.word(r, wc), g.word(r, el),
        g.word(sr, wl), g.word(sr, wc), g.word(sr, el), k);
}

/// Whether cell `(c, r)` is alive in the generation after `g`: Conway's rule applies, the cell
/// and all its neighbors are known, and it is not a wall.
pub open spec fn next_alive(g: &GenState, c: int, r: int, w: int, h: int) -> bool {
    life_next(&g.cells, c, r, w, h) && block_all(&g.known, c, r, w, h) && !g.wall_cells.cell(c, r)
}

/// Player `p` claims cell `(c, r)` of the next generation: the cell will be alive and the player
/// owns it or one of its neighbors now.
pub open spec fn claims(g: &GenState, p: int, c: int, r: int, w: int, h: int) -> bool {
    block_any(&g.pcells(p), c, r, w, h) && next_alive(g, c, r, w, h)
}

/// How many of the players `0 .. n` claim cell `(c, r)`.
pub open spec fn claim_count(g: &GenState, n: nat, c: int, r: int, w: int, h: int) -> int
    decreases n,
{
    if n == 0 {
        0
    } else {
        claim_count(g, (n - 1) as nat, c, r, w, h) + b2i(claims(g, n - 1, c, r, w, h))
    }
}

/// Player `p` owns cell `(c, r)` in the next generation: it claims the cell and no other of the
/// `np` players does. A cell claimed by two or more players belongs to no one.
pub open spec fn next_owned(g: &GenState, p: int, np: nat, c: int, r: int, w: int, h: int) -> bool {
    claims(g, p, c, r, w, h) && claim_count(g, np, c, r, w, h) < 2
}

/// Word `c` of row `r` of the alive cells of the next generation.
pub open spec fn next_cells_word(g: &GenState, r: int, c: int, words: int, h: int) -> u64 {
    life_word_at(&g.cells, r, c, words, h) & block_and_at(&g.known, r, c, words, h) & !g.wall_cells.word(r, c)
}

/// Word `c` of row `r` of the cells that player `p` claims.
pub open spec fn claim_word(g: &GenState, p: int, r: int, c: int, words: int, h: int) -> u64 {
    block_or_at(&g.pcells(p), r, c, words, h) & next_cells_word(g, r, c, words, h)
}

/// Cells claimed by at least one of the players `0 .. n`.
pub open spec fn seen_word(g: &GenState, n: nat, r: int, c: int, words: int, h: int) -> u64
    decreases n,
{
    if n == 0 {
        0
    } else {
        seen_word(g, (n - 1) as nat, r, c, words, h) | claim_word(g, n - 1, r, c, words, h)
    }
}

/// Cells claimed by at least two of the players `0 .. n`.
pub open spec fn multi_word(g: &GenState, n: nat, r: int, c: int, words: int, h: int) -> u64
    decreases n,
{
    if n == 0 {
        0
    } else {
        multi_word(g, (n - 1) as nat, r, c, words, h)
            | (claim_word(g, n - 1, r, c, words, h) & seen_word(g, (n - 1) as nat, r, c, words, h))
    }
}

/// Word `c` of row `r` of the cells owned by player `p` in the next generation.
pub open spec fn owner_word(g: &GenState, p: int, np: nat, r: int, c: int, words: int, h: int) -> u64 {
    claim_word(g, p, r, c, words, h) & !multi_word(g, np, r, c, words, h)
}

/// The words of the next generation describe the cells of the next generation.
pub proof fn lemma_next_words(g: &GenState, r: int, wc: int, k: int, words: int, h: int)
    requires
        g.has_shape(words as nat, h as nat),
        0 <= r < h,
        0 <= wc < words,
        0 <= k < 64,
    ensures
        bit_at(next_cells_word(g, r, wc, words, h), k) == next_alive(g, wc * 64 + k, r, words * 64, h),
        bit_at(block_and_at(&g.known, r, wc, words, h), k) == block_all(&g.known, wc * 64 + k, r, words * 64, h),
        bit_at(g.wall_cells.word(r, wc), k) == g.wall_cells.cell(wc * 64 + k, r),
        forall|p: int| 0 <= p < g.players() ==>
            bit_at(#[trigger] claim_word(g, p, r, wc, words, h), k) == claims(g, p, wc * 64 + k, r, words * 64, h),
{
    lemma_word_offset(wc, k);
    lemma_words_at(&g.cells, r, wc, k, words, h);
    lemma_words_at(&g.known, r, wc, k, words, h);
    let a = life_word_at(&g.cells, r, wc, words, h);
    let b = block_and_at(&g.known, r, wc, words, h);
    let w = g.wall_cells.word(r, wc);
    lemma_bool_ops(a, b, k);
    lemma_bool_ops(a & b, !w, k);
    lemma_bool_ops(w, w, k);
    assert forall|p: int| 0 <= p < g.players() implies
        bit_at(#[trigger] claim_word(g, p, r, wc, words, h), k) == claims(g, p, wc * 64 + k, r, words * 64, h) by {
        assert(g.player_states@[p].cells.shaped(words as nat, h as nat));
        lemma_words_at(&g.pcells(p), r, wc, k, words, h);
        lemma_bool_ops(block_or_at(&g.pcells(p), r, wc, words, h), next_cells_word(g, r, wc, words, h), k);
    }
}

/// The seen and multiple-claim words count the claims of each cell.
pub proof fn lemma_claim_counting(g: &GenState, n: nat, r: int, wc: int, k: int, words: int, h: int)
    requires
        g.has_shape(words as nat, h as nat),
        n <= g.players(),
        0 <= r < h,
        0 <= wc < words,
        0 <= k < 64,
    ensures
        bit_at(seen_word(g, n, r, wc, words, h), k) == (claim_count(g, n, wc * 64 + k, r, words * 64, h) >= 1),
        bit_at(multi_word(g, n, r, wc, words, h), k) == (claim_count(g, n, wc * 64 + k, r, words * 64, h) >= 2),
        claim_count(g, n, wc * 64 + k, r, words * 64, h) >= 0,
    decreases n,
{
    if n == 0 {
        crate::bit_grid::lemma_zero_word(k);
    } else {
        let m = (n - 1) as nat;
        lemma_claim_counting(g, m, r, wc, k, words, h);
        lemma_next_words(g, r, wc, k, words, h);
        let cw = claim_word(g, m as int, r, wc, words, h);
        let sw = seen_word(g, m, r, wc, words, h);
        let mw = multi_word(g, m, r, wc, words, h);
        assert(bit_at(cw, k) == claims(g, m as int, wc * 64 + k, r, words * 64, h));
        lemma_bool_ops(sw, cw, k);
        lemma_bool_ops(cw, sw, k);
        lemma_bool_ops(mw, cw & sw, k);
    }
}

/// A cell claimed by player `p` is counted, and claimed by some other player exactly when it is
/// counted at least twice.
proof fn lemma_count_others(g: &GenState, n: nat, p: int, c: int, r: int, w: int, h: int)
    requires
        0 <= p < n,
        claims(g, p, c, r, w, h),
    ensures
        (claim_count(g, n, c, r, w, h) >= 2) == (exists|q: int| 0 <= q < n && q != p && #[trigger] claims(g, q, c, r, w, h)),
        claim_count(g, n, c, r, w, h) >= 1,
    decreases n,
{
    let m = (n - 1) as nat;
    if p == n - 1 {
        lemma_count_nonneg_none(g, m, c, r, w, h);
        if claim_count(g, m, c, r, w, h) >= 1 {
            let q = lemma_count_witness(g, m, c, r, w, h);
            assert(claims(g, q, c, r, w, h));
        }
    } else {
        lemma_count_others(g, m, p, c, r, w, h);
        if claims(g, m as int, c, r, w, h) {
            assert(claims(g, m as int, c, r, w, h) && m != p);
        } else {
            if exists|q: int| 0 <= q < n && q != p && #[trigger] claims(g, q, c, r, w, h) {
                let q = choose|q: int| 0 <= q < n && q != p && #[trigger] claims(g, q, c, r, w, h);
                assert(q < m);
            }
        }
    }
}

/// A count is never negative, and a zero count means no player claims the cell.
proof fn lemma_count_nonneg_none(g: &GenState, n: nat, c: int, r: int, w: int, h: int)
    ensures
        claim_count(g, n, c, r, w, h) >= 0,
        claim_count(g, n, c, r, w, h) == 0 ==> forall|q: int| 0 <= q < n ==> !#[trigger] claims(g, q, c, r, w, h),
    decreases n,
{
    if n > 0 {
        lemma_count_nonneg_none(g, (n - 1) as nat, c, r, w, h);
    }
}

/// A positive count has a claiming player.
proof fn lemma_count_witness(g: &GenState, n: nat, c: int, r: int, w: int, h: int) -> (q: int)
    requires
        claim_count(g, n, c, r, w, h) >= 1,
    ensures
        0 <= q < n,
        claims(g, q, c, r, w, h),
    decreases n,
{
    let m = (n - 1) as nat;
    lemma_count_nonneg_none(g, m, c, r, w, h);
    if claims(g, m as int, c, r, w, h) {
        m as int
    } else {
        lemma_count_witness(g, m, c, r, w, h)
    }
}

/// A player owns a cell in the next generation exactly when it claims the cell and no other
/// player does.
pub proof fn lemma_next_owned_exclusive(g: &GenState, p: int, np: nat, c: int, r: int, w: int, h: int)
    requires
        0 <= p < np,
    ensures
        next_owned(g, p, np, c, r, w, h) == (claims(g, p, c, r, w, h)
            && forall|q: int| 0 <= q < np && q != p ==> !#[trigger] claims(g, q, c, r, w, h)),
{
    if claims(g, p, c, r, w, h) {
        lemma_count_others(g, np, p, c, r, w, h);
    }
}

/// `n` is the generation that follows `g` on a wrapping grid of `w` by `h` cells: alive cells
/// follow Conway's rule where the whole neighborhood is known and there is no wall, a cell is
/// known when its whole neighborhood was, walls stay, each player owns the cells it alone
/// claims, and fog is only ever cleared.
pub open spec fn is_next_state(g: &GenState, n: &GenState, w: int, h: int) -> bool {
    &&& forall|c: int, r: int| 0 <= c < w && 0 <= r < h ==> #[trigger] n.cells.cell(c, r) == next_alive(g, c, r, w, h)
    &&& forall|c: int, r: int| 0 <= c < w && 0 <= r < h ==> #[trigger] n.known.cell(c, r) == block_all(&g.known, c, r, w, h)
    &&& forall|c: int, r: int| 0 <= c < w && 0 <= r < h ==> #[trigger] n.wall_cells.cell(c, r) == g.wall_cells.cell(c, r)
    &&& forall|p: int, c: int, r: int| 0 <= p < g.players() && 0 <= c < w && 0 <= r < h ==>
        #[trigger] n.pcells(p).cell(c, r) == next_owned(g, p, g.players(), c, r, w, h)
    &&& forall|p: int, c: int, r: int| 0 <= p < g.players() && 0 <= c < w && 0 <= r < h && #[trigger] n.pfog(p).cell(c, r)
        ==> g.pfog(p).cell(c, r)
}

} // verus!
