use vstd::prelude::*;
use crate::bit_grid::{BitGrid, BitOperation, single_bit, cell_after, apply_op_bit, lemma_single_cell_update, lemma_mask_test,
    region_within, in_region_words, lemma_zero_word};
use crate::region::Region;
use crate::rle::{NO_OP_CHAR, Pattern, pattern_text, pair_runs, decode, run_char_at, lemma_diff_writes_changes};
use crate::bitwise::bit_at;
use crate::cell_state::{CellState, player_char, cell_char, has_char};

verus! {

/// Player-specific information for one generation.
#[derive(Debug, Clone, PartialEq)]
pub struct PlayerGenState {
    /// Cells belonging to this player (if 1 here, must be 1 in the `GenState` cells).
    pub cells: BitGrid,
    /// Cells that are currently invisible to the player.
    pub fog: BitGrid,
}

/// Describes the state of the universe for a particular generation: the cells alive, the walls,
/// the cells known to this side (server or client), and each player's own state.
#[derive(Debug, Clone, PartialEq)]
pub struct GenState {
    /// Some(generation number); if None, this is an unused buffer.
    pub gen_or_none: Option<usize>,
    /// 1 = cell is known to be Alive.
    pub cells: BitGrid,
    /// 1 = is a wall cell.
    pub wall_cells: BitGrid,
    /// 1 = cell is known (always 1 if this is server).
    pub known: BitGrid,
    /// Player-specific info (indexed by player_id).
    pub player_states: Vec<PlayerGenState>,
}

/// A cell's alive bit after `och` (if any) was written on it.
pub open spec fn alive_after(old: bool, och: Option<char>) -> bool {
    match och {
        Some(ch) => ch == 'o' || ('A' <= ch <= 'V'),
        None => old,
    }
}

/// A cell's wall bit after `och` (if any) was written on it.
pub open spec fn wall_after(old: bool, och: Option<char>) -> bool {
    match och {
        Some(ch) => ch == 'W',
        None => old,
    }
}

/// A cell's known bit after `och` (if any) was written on it: every character but '?' makes
/// it known.
pub open spec fn known_after(old: bool, och: Option<char>) -> bool {
    match och {
        Some(ch) => if ch == '?' { old } else { true },
        None => old,
    }
}

/// Whether player `p` owns a cell after `och` (if any) was written on it.
pub open spec fn pcell_after(old: bool, och: Option<char>, p: int) -> bool {
    match och {
        Some(ch) => if ch == '?' { old } else { 'A' <= ch <= 'V' && p == ch as int - 65 },
        None => old,
    }
}

/// Whether player `p` has fog on a cell after `och` (if any) was written on it as observed with
/// `visibility`: '?' sets the observing player's fog; any other character clears the fog of the
/// observing player, or of every player when there is none.
pub open spec fn pfog_after(old: bool, och: Option<char>, p: int, visibility: Option<usize>) -> bool {
    match och {
        Some(ch) => if ch == '?' {
            if visibility == Some(p as usize) { true } else { old }
        } else {
            if visibility is None || visibility == Some(p as usize) { false } else { old }
        },
        None => old,
    }
}

/// The single-bit mask of column `col` within its word.
pub open spec fn col_mask(col: int) -> u64 {
    single_bit(col % 64)
}

impl GenState {
    /// Words per row.
    pub open spec fn words(&self) -> nat {
        self.cells.words_per_row()
    }

    /// Number of rows.
    pub open spec fn rows(&self) -> nat {
        self.cells.rows()
    }

    /// Number of players.
    pub open spec fn players(&self) -> nat {
        self.player_states@.len()
    }

    /// The cells of player `p`.
    pub open spec fn pcells(&self, p: int) -> BitGrid {
        self.player_states@[p].cells
    }

    /// The fog of player `p`.
    pub open spec fn pfog(&self, p: int) -> BitGrid {
        self.player_states@[p].fog
    }

    /// Every grid has `height` rows of `words` words.
    pub open spec fn has_shape(&self, words: nat, height: nat) -> bool {
        &&& self.cells.shaped(words, height)
        &&& self.wall_cells.shaped(words, height)
        &&& self.known.shaped(words, height)
        &&& forall|p: int| 0 <= p < self.players() ==> (#[trigger] self.player_states@[p]).cells.shaped(words, height)
            && self.player_states@[p].fog.shaped(words, height)
    }

    /// A non-empty generation state whose grids all share one shape.
    pub open spec fn valid(&self) -> bool {
        &&& self.rows() > 0
        &&& self.words() > 0
        &&& self.has_shape(self.words(), self.rows())
        &&& self.words() * 64 <= isize::MAX
        &&& self.rows() <= isize::MAX
    }

    /// Whether `(col, row)` is a cell of this state.
    pub open spec fn in_grid(&self, col: int, row: int) -> bool {
        0 <= row < self.rows() && 0 <= col < self.words() * 64
    }

    /// `other` has the same shape and number of players as `self`.
    pub open spec fn same_shape(&self, other: &GenState) -> bool {
        &&& other.players() == self.players()
        &&& other.has_shape(self.words(), self.rows())
        &&& other.words() == self.words()
        &&& other.rows() == self.rows()
    }

    /// `other` has the same shape, generation and number of players as `self`.
    pub open spec fn same_frame(&self, other: &GenState) -> bool {
        &&& other.gen_or_none == self.gen_or_none
        &&& self.same_shape(other)
    }

    /// `new` is `self` after cell `(col, row)` was set to `st`: the cell's alive and wall bits and
    /// its ownership follow `st`, the owner (if any) no longer has fog there, and nothing else
    /// changes.
    pub open spec fn set_result(&self, new: &GenState, col: int, row: int, st: CellState) -> bool {
        &&& self.same_frame(new)
        &&& new.known == self.known
        &&& forall|c: int, r: int| self.in_grid(c, r) ==>
            #[trigger] new.cells.cell(c, r) == cell_after(&self.cells, col, row, st is Alive, c, r)
        &&& forall|c: int, r: int| self.in_grid(c, r) ==>
            #[trigger] new.wall_cells.cell(c, r) == cell_after(&self.wall_cells, col, row, st is Wall, c, r)
        &&& forall|p: int, c: int, r: int| 0 <= p < self.players() && self.in_grid(c, r) ==>
            #[trigger] new.pcells(p).cell(c, r) == cell_after(&self.pcells(p), col, row,
                st == CellState::Alive(Some(p as usize)), c, r)
        &&& forall|p: int, c: int, r: int| 0 <= p < self.players() && self.in_grid(c, r) ==>
            #[trigger] new.pfog(p).cell(c, r) == if st == CellState::Alive(Some(p as usize)) {
                cell_after(&self.pfog(p), col, row, false, c, r)
            } else {
                self.pfog(p).cell(c, r)
            }
    }

    /// `new` is `self` after toggling cell `(col, row)` on behalf of `opt_player_id`: a live cell
    /// or a wall becomes dead (no longer a wall), a dead cell becomes alive; no player owns the
    /// cell any more, and if it became alive the given player (if any) owns it and has no fog
    /// there. Known cells are untouched.
    pub open spec fn toggle_result(&self, new: &GenState, col: int, row: int, opt_player_id: Option<usize>) -> bool {
        let now_alive = !self.cells.cell(col, row) && !self.wall_cells.cell(col, row);
        &&& self.same_frame(new)
        &&& new.known == self.known
        &&& forall|c: int, r: int| self.in_grid(c, r) ==>
            #[trigger] new.wall_cells.cell(c, r) == cell_after(&self.wall_cells, col, row, false, c, r)
        &&& forall|c: int, r: int| self.in_grid(c, r) ==>
            #[trigger] new.cells.cell(c, r) == cell_after(&self.cells, col, row, now_alive, c, r)
        &&& forall|p: int, c: int, r: int| 0 <= p < self.players() && self.in_grid(c, r) ==>
            #[trigger] new.pcells(p).cell(c, r) == cell_after(&self.pcells(p), col, row,
                now_alive && opt_player_id == Some(p as usize), c, r)
        &&& forall|p: int, c: int, r: int| 0 <= p < self.players() && self.in_grid(c, r) ==>
            #[trigger] new.pfog(p).cell(c, r) == if now_alive && opt_player_id == Some(p as usize) {
                cell_after(&self.pfog(p), col, row, false, c, r)
            } else {
                self.pfog(p).cell(c, r)
            }
    }

    /// Switches the cell between alive and dead, clearing every player's ownership of it; a cell
    /// that becomes alive is given to `opt_player_id` (if any), whose fog is cleared there.
    /// Returns the new state of the cell.
    pub(crate) fn toggle_cell(&mut self, col: usize, row: usize, opt_player_id: Option<usize>) -> (st: CellState)
        requires
            old(self).valid(),
            old(self).in_grid(col as int, row as int),
            opt_player_id matches Some(p) ==> p < old(self).players(),
        ensures
            old(self).toggle_result(final(self), col as int, row as int, opt_player_id),
            st == if old(self).cells.cell(col as int, row as int) || old(self).wall_cells.cell(col as int, row as int) {
                CellState::Dead
            } else {
                CellState::Alive(opt_player_id)
            },
    {
        let ghost words = self.words();
        let ghost height = self.rows();
        let ghost old_s = *self;
        let word_col = col / 64;
        let shift = 63 - (col % 64);
        let mask: u64 = 1u64 << (shift as u64);
        assert(mask == col_mask(col as int));

        let wall_word = self.wall_cells.0[row][word_col];
        let was_wall = (wall_word & mask) > 0;
        proof {
            lemma_mask_test(wall_word, (col % 64) as int);
            assert(wall_word == self.wall_cells.word(row as int, col as int / 64));
        }
        let next_cell;
        if was_wall {
            // a wall becomes a dead cell
            self.wall_cells.modify_bits_in_word(row, word_col, mask, BitOperation::Clear);
            proof {
                lemma_single_cell_update(&old_s.wall_cells, &self.wall_cells, col as int, row as int, BitOperation::Clear, words, height);
            }
            let ghost mid = *self;
            self.cells.modify_bits_in_word(row, word_col, mask, BitOperation::Clear);
            proof {
                lemma_single_cell_update(&mid.cells, &self.cells, col as int, row as int, BitOperation::Clear, words, height);
            }
            next_cell = false;
        } else {
            self.cells.modify_bits_in_word(row, word_col, mask, BitOperation::Toggle);
            proof {
                lemma_single_cell_update(&old_s.cells, &self.cells, col as int, row as int, BitOperation::Toggle, words, height);
            }
            let word = self.cells.0[row][word_col];
            // Cell transitioned Dead -> Alive
            next_cell = (word & mask) > 0;
            proof {
                lemma_mask_test(word, (col % 64) as int);
                assert(self.cells.cell(col as int, row as int) == !old_s.cells.cell(col as int, row as int));
                assert(word == self.cells.word(row as int, col as int / 64));
                assert(next_cell == !old_s.cells.cell(col as int, row as int));
            }
        }
        proof {
            assert(next_cell == (!old_s.cells.cell(col as int, row as int) && !old_s.wall_cells.cell(col as int, row as int)));
            assert forall|c: int, r: int| old_s.in_grid(c, r) implies
                #[trigger] self.cells.cell(c, r) == cell_after(&old_s.cells, col as int, row as int, next_cell, c, r) by {}
            assert forall|c: int, r: int| old_s.in_grid(c, r) implies
                #[trigger] self.wall_cells.cell(c, r) == cell_after(&old_s.wall_cells, col as int, row as int, false, c, r) by {}
        }
        let ghost toggled = *self;

        // clear all player cell bits
        let np = self.player_states.len();
        let mut player_id: usize = 0;
        while player_id < np
            invariant
                np == old_s.players(),
                player_id <= np,
                old_s.valid(),
                old_s.in_grid(col as int, row as int),
                words == old_s.words(),
                height == old_s.rows(),
                word_col == col / 64,
                mask == col_mask(col as int),
                old_s.same_frame(self),
                self.cells == toggled.cells,
                self.wall_cells == toggled.wall_cells,
                self.known == old_s.known,
                forall|p: int| 0 <= p < np ==> #[trigger] self.pfog(p) == old_s.pfog(p),
                forall|p: int, c: int, r: int| 0 <= p < np && old_s.in_grid(c, r) ==> #[trigger] self.pcells(p).cell(c, r)
                    == if p < player_id { cell_after(&old_s.pcells(p), col as int, row as int, false, c, r) } else { old_s.pcells(p).cell(c, r) },
            decreases np - player_id,
        {
            let ghost prev = self.pcells(player_id as int);
            let ghost before = *self;
            assert(self.player_states@[player_id as int].cells.shaped(words, height));
            self.player_states[player_id].cells.modify_bits_in_word(row, word_col, mask, BitOperation::Clear);
            proof {
                lemma_single_cell_update(&prev, &self.pcells(player_id as int), col as int, row as int,
                    BitOperation::Clear, words, height);
                assert forall|p: int| 0 <= p < np && p != player_id implies #[trigger] self.player_states@[p] == before.player_states@[p] by {}
                assert(old_s.same_frame(self));
                assert forall|p: int| 0 <= p < np implies #[trigger] self.pfog(p) == old_s.pfog(p) by {
                    if p != player_id {
                        assert(self.player_states@[p] == before.player_states@[p]);
                        assert(before.pfog(p) == old_s.pfog(p));
                    } else {
                        assert(self.pfog(p) == before.pfog(p));
                        assert(before.pfog(p) == old_s.pfog(p));
                    }
                }
                assert forall|p: int, c: int, r: int| 0 <= p < np && old_s.in_grid(c, r) implies #[trigger] self.pcells(p).cell(c, r)
                    == if p < player_id + 1 { cell_after(&old_s.pcells(p), col as int, row as int, false, c, r) } else { old_s.pcells(p).cell(c, r) } by {
                    if p != player_id {
                        assert(self.player_states@[p] == before.player_states@[p]);
                        assert(before.pcells(p).cell(c, r) == if p < player_id { cell_after(&old_s.pcells(p), col as int, row as int, false, c, r) } else { old_s.pcells(p).cell(c, r) });
                    } else {
                        assert(prev.cell(c, r) == old_s.pcells(p).cell(c, r));
                        assert(prev.cell(col as int, row as int) == old_s.pcells(p).cell(col as int, row as int));
                    }
                }
            }
            player_id += 1;
        }
        let ghost cleared = *self;

        if next_cell {
            // set this player's cell bit, if needed, and clear fog
            if let Some(player_id) = opt_player_id {
                let ghost mid2 = *self;
                assert(self.player_states@[player_id as int].cells.shaped(words, height));
                self.player_states[player_id].cells.modify_bits_in_word(row, word_col, mask, BitOperation::SetBit);
                proof { lemma_single_cell_update(&mid2.pcells(player_id as int), &self.pcells(player_id as int), col as int, row as int, BitOperation::SetBit, words, height); }
                let ghost mid3 = *self;
                assert(self.player_states@[player_id as int].fog.shaped(words, height));
                self.player_states[player_id].fog.modify_bits_in_word(row, word_col, mask, BitOperation::Clear);
                proof {
                    lemma_single_cell_update(&mid3.pfog(player_id as int), &self.pfog(player_id as int), col as int, row as int, BitOperation::Clear, words, height);
                    assert forall|p: int| 0 <= p < np && p != player_id implies #[trigger] self.player_states@[p] == cleared.player_states@[p] by {
                        assert(mid3.player_states@[p] == mid2.player_states@[p]);
                    }
                    assert(self.pcells(player_id as int) == mid3.pcells(player_id as int));
                    assert(mid3.pfog(player_id as int) == cleared.pfog(player_id as int));
                    assert forall|p: int| 0 <= p < np implies (#[trigger] self.player_states@[p]).cells.shaped(words, height) && self.player_states@[p].fog.shaped(words, height) by {
                        if p != player_id {
                            assert(self.player_states@[p] == cleared.player_states@[p]);
                        }
                    }
                }
            }
        }
        proof {
            assert forall|c: int, r: int| old_s.in_grid(c, r) implies
                #[trigger] self.cells.cell(c, r) == cell_after(&old_s.cells, col as int, row as int, next_cell, c, r) by {
            }
            assert forall|p: int, c: int, r: int| 0 <= p < np && old_s.in_grid(c, r) implies
                #[trigger] self.pcells(p).cell(c, r) == cell_after(&old_s.pcells(p), col as int, row as int,
                    next_cell && opt_player_id == Some(p as usize), c, r) by {
                assert(cleared.pcells(p).cell(c, r) == cell_after(&old_s.pcells(p), col as int, row as int, false, c, r));
                assert(cleared.pcells(p).cell(col as int, row as int) == cell_after(&old_s.pcells(p), col as int, row as int, false, col as int, row as int));
                if !(next_cell && opt_player_id == Some(p as usize)) {
                    assert(self.player_states@[p] == cleared.player_states@[p]);
                }
            }
            assert forall|p: int, c: int, r: int| 0 <= p < np && old_s.in_grid(c, r) implies
                #[trigger] self.pfog(p).cell(c, r) == if next_cell && opt_player_id == Some(p as usize) {
                    cell_after(&old_s.pfog(p), col as int, row as int, false, c, r)
                } else {
                    old_s.pfog(p).cell(c, r)
                } by {
                assert(cleared.pfog(p) == old_s.pfog(p));
                if !(next_cell && opt_player_id == Some(p as usize)) {
                    assert(self.player_states@[p] == cleared.player_states@[p]);
                }
            }
        }
        if next_cell {
            CellState::Alive(opt_player_id)
        } else {
            CellState::Dead
        }
    }

    /// The lowest-numbered of the players `0 .. n` that owns cell `(c, r)`, if any.
    pub open spec fn lowest_owner(&self, n: nat, c: int, r: int) -> Option<usize>
        decreases n,
    {
        if n == 0 {
            None
        } else {
            let prev = self.lowest_owner((n - 1) as nat, c, r);
            if prev is Some {
                prev
            } else if self.pcells(n - 1).cell(c, r) {
                Some((n - 1) as usize)
            } else {
                None
            }
        }
    }

    /// How many of the players `0 .. n` own cell `(c, r)`.
    pub open spec fn owner_count(&self, n: nat, c: int, r: int) -> int
        decreases n,
    {
        if n == 0 {
            0
        } else {
            self.owner_count((n - 1) as nat, c, r) + if self.pcells(n - 1).cell(c, r) { 1int } else { 0int }
        }
    }

    /// Cell `(c, r)` is in a consistent state, as observed with `visibility`: it is not both
    /// alive and a wall; an unknown cell is neither alive nor a wall; a known live cell has at
    /// most one owner and no owner has fog on it; and the observing player (if any) owns no
    /// unknown cell and no wall.
    pub open spec fn cell_consistent(&self, visibility: Option<usize>, c: int, r: int) -> bool {
        let alive = self.cells.cell(c, r);
        let wall = self.wall_cells.cell(c, r);
        let known = self.known.cell(c, r);
        &&& !(alive && wall)
        &&& !known ==> !alive && !wall
        &&& (alive && known) ==> {
            &&& self.owner_count(self.players(), c, r) <= 1
            &&& forall|p: int| 0 <= p < self.players() ==> !(#[trigger] self.pcells(p).cell(c, r) && self.pfog(p).cell(c, r))
        }
        &&& visibility matches Some(p) ==> {
            &&& !(!known && self.pcells(p as int).cell(c, r))
            &&& !(wall && self.pcells(p as int).cell(c, r))
        }
    }

    /// The state of cell `(c, r)` as observed with `visibility`: fog where the observing player
    /// has fog or the cell is unknown, otherwise alive (with its owner), wall or dead.
    pub open spec fn cell_view(&self, visibility: Option<usize>, c: int, r: int) -> CellState {
        let alive = self.cells.cell(c, r);
        let wall = self.wall_cells.cell(c, r);
        let known = self.known.cell(c, r);
        if (visibility matches Some(p) && self.pfog(p as int).cell(c, r)) {
            CellState::Fog
        } else if alive {
            CellState::Alive(self.lowest_owner(self.players(), c, r))
        } else if wall {
            CellState::Wall
        } else if known {
            CellState::Dead
        } else {
            CellState::Fog
        }
    }

    /// The state listed for a cell does not depend on who observes it, except through the
    /// observer's fog: two observations that have no fog on the cell (nobody, or players without
    /// fog there) list the same state.
    pub proof fn lemma_cell_view_same_for_observers(&self, v1: Option<usize>, v2: Option<usize>, c: int, r: int)
        requires
            !(v1 matches Some(p) && self.pfog(p as int).cell(c, r)),
            !(v2 matches Some(p) && self.pfog(p as int).cell(c, r)),
        ensures
            self.cell_view(v1, c, r) == self.cell_view(v2, c, r),
    {
    }

    /// A live cell owned by exactly one player `p` is listed as `Alive(Some(p))` by every observer
    /// without fog on it, nobody included; a live cell owned by no player is listed as
    /// `Alive(None)`.
    pub proof fn lemma_cell_view_owner(&self, visibility: Option<usize>, c: int, r: int, p: int)
        requires
            self.cells.cell(c, r),
            !(visibility matches Some(q) && self.pfog(q as int).cell(c, r)),
            0 <= p < self.players(),
        ensures
            self.pcells(p).cell(c, r) && (forall|q: int| 0 <= q < self.players() && q != p ==> !#[trigger] self.pcells(q).cell(c, r))
                ==> self.cell_view(visibility, c, r) == CellState::Alive(Some(p as usize)),
            (forall|q: int| 0 <= q < self.players() ==> !#[trigger] self.pcells(q).cell(c, r))
                ==> self.cell_view(visibility, c, r) == CellState::Alive(None),
    {
        assert(self.players() == self.player_states.len());
        if self.pcells(p).cell(c, r) && (forall|q: int| 0 <= q < self.players() && q != p ==> !#[trigger] self.pcells(q).cell(c, r)) {
            self.lemma_lowest_owner_unique(self.players(), c, r, p);
        }
        self.lemma_lowest_owner(self.players(), c, r);
    }

    /// The lowest owner, if any, owns the cell and is a valid player; without one no player owns
    /// the cell.
    pub proof fn lemma_lowest_owner(&self, n: nat, c: int, r: int)
        requires
            n <= usize::MAX,
        ensures
            self.lowest_owner(n, c, r) matches Some(p) ==> p < n && self.pcells(p as int).cell(c, r)
                && self.owner_count(n, c, r) >= 1,
            self.lowest_owner(n, c, r) is None ==> self.owner_count(n, c, r) == 0
                && forall|q: int| 0 <= q < n ==> !#[trigger] self.pcells(q).cell(c, r),
            self.owner_count(n, c, r) >= 0,
        decreases n,
    {
        if n > 0 {
            self.lemma_lowest_owner((n - 1) as nat, c, r);
        }
    }

    /// `new` is `self` after writing the character `ch` at `(col, row)` as observed with
    /// `visibility`. For '?' only the observing player's fog is set there. Any other character
    /// makes the cell known, clears fog there (for the observing player, or for all players when
    /// there is none), sets the alive and wall bits, and gives the cell to the player it names
    /// ('A' is player 0), if any.
    pub open spec fn write_result(&self, new: &GenState, col: int, row: int, ch: char, visibility: Option<usize>) -> bool {
        let alive = ch == 'o' || ('A' <= ch <= 'V');
        &&& self.same_frame(new)
        &&& forall|c: int, r: int| self.in_grid(c, r) ==>
            #[trigger] new.cells.cell(c, r) == cell_after(&self.cells, col, row, alive, c, r)
        &&& forall|c: int, r: int| self.in_grid(c, r) ==>
            #[trigger] new.wall_cells.cell(c, r) == cell_after(&self.wall_cells, col, row, ch == 'W', c, r)
        &&& forall|c: int, r: int| self.in_grid(c, r) ==>
            #[trigger] new.known.cell(c, r) == if ch == '?' { self.known.cell(c, r) } else {
                cell_after(&self.known, col, row, true, c, r)
            }
        &&& forall|p: int, c: int, r: int| 0 <= p < self.players() && self.in_grid(c, r) ==>
            #[trigger] new.pcells(p).cell(c, r) == if ch == '?' { self.pcells(p).cell(c, r) } else {
                cell_after(&self.pcells(p), col, row, 'A' <= ch <= 'V' && p == ch as int - 65, c, r)
            }
        &&& forall|p: int, c: int, r: int| 0 <= p < self.players() && self.in_grid(c, r) ==>
            #[trigger] new.pfog(p).cell(c, r) == if ch == '?' {
                if visibility == Some(p as usize) { cell_after(&self.pfog(p), col, row, true, c, r) } else { self.pfog(p).cell(c, r) }
            } else {
                if visibility is None || visibility == Some(p as usize) {
                    cell_after(&self.pfog(p), col, row, false, c, r)
                } else {
                    self.pfog(p).cell(c, r)
                }
            }
    }

    /// `new` is `self` after each cell `(c, r)` for which `chars(c, r)` is a character was
    /// written with it as observed with `visibility` (see `write_result`); the other cells are
    /// unchanged.
    pub open spec fn written(&self, new: &GenState, chars: spec_fn(int, int) -> Option<char>, visibility: Option<usize>) -> bool {
        &&& self.same_shape(new)
        &&& forall|c: int, r: int| self.in_grid(c, r) ==>
            #[trigger] new.cells.cell(c, r) == alive_after(self.cells.cell(c, r), chars(c, r))
        &&& forall|c: int, r: int| self.in_grid(c, r) ==>
            #[trigger] new.wall_cells.cell(c, r) == wall_after(self.wall_cells.cell(c, r), chars(c, r))
        &&& forall|c: int, r: int| self.in_grid(c, r) ==>
            #[trigger] new.known.cell(c, r) == known_after(self.known.cell(c, r), chars(c, r))
        &&& forall|p: int, c: int, r: int| 0 <= p < self.players() && self.in_grid(c, r) ==>
            #[trigger] new.pcells(p).cell(c, r) == pcell_after(self.pcells(p).cell(c, r), chars(c, r), p)
        &&& forall|p: int, c: int, r: int| 0 <= p < self.players() && self.in_grid(c, r) ==>
            #[trigger] new.pfog(p).cell(c, r) == pfog_after(self.pfog(p).cell(c, r), chars(c, r), p, visibility)
    }

    /// Cell `(c, r)` is tidy: an unknown cell is neither alive nor a wall, a live cell is not a
    /// wall, a cell has at most one owner, and an owned cell is alive and known.
    pub open spec fn tidy_cell(&self, c: int, r: int) -> bool {
        &&& !self.known.cell(c, r) ==> !self.cells.cell(c, r) && !self.wall_cells.cell(c, r)
        &&& self.cells.cell(c, r) ==> !self.wall_cells.cell(c, r)
        &&& self.owner_count(self.players(), c, r) <= 1
        &&& forall|p: int| 0 <= p < self.players() && #[trigger] self.pcells(p).cell(c, r) ==>
            self.cells.cell(c, r) && self.known.cell(c, r)
    }

    /// Every cell is tidy (see `tidy_cell`).
    pub open spec fn tidy(&self) -> bool {
        forall|c: int, r: int| self.in_grid(c, r) ==> #[trigger] self.tidy_cell(c, r)
    }

    /// Two different owners make the owner count at least two.
    proof fn lemma_two_owners(&self, n: nat, c: int, r: int, q1: int, q2: int)
        requires
            0 <= q1 < n,
            0 <= q2 < n,
            q1 != q2,
            self.pcells(q1).cell(c, r),
            self.pcells(q2).cell(c, r),
            n <= usize::MAX,
        ensures
            self.owner_count(n, c, r) >= 2,
        decreases n,
    {
        self.lemma_lowest_owner((n - 1) as nat, c, r);
        if q1 != n - 1 && q2 != n - 1 {
            self.lemma_two_owners((n - 1) as nat, c, r, q1, q2);
        } else if q1 == n - 1 {
            self.lemma_lowest_owner((n - 1) as nat, c, r);
            assert(self.owner_count((n - 1) as nat, c, r) >= 1) by {
                if self.lowest_owner((n - 1) as nat, c, r) is None {
                    assert(!self.pcells(q2).cell(c, r));
                }
            }
        } else {
            assert(self.owner_count((n - 1) as nat, c, r) >= 1) by {
                if self.lowest_owner((n - 1) as nat, c, r) is None {
                    assert(!self.pcells(q1).cell(c, r));
                }
            }
        }
    }

    /// In a tidy cell whose state (observed by nobody) has a character, that character
    /// determines the cell's bits: known unless '?', alive for 'o' and the player letters, a wall
    /// for 'W', and owned by exactly the player of its letter.
    pub proof fn lemma_tidy_bits(&self, c: int, r: int)
        requires
            self.tidy_cell(c, r),
            has_char(self.run_state(None, c, r)),
            self.players() <= usize::MAX,
        ensures
            ({
                let ch = cell_char(self.run_state(None, c, r));
                &&& self.known.cell(c, r) == (ch != '?')
                &&& self.cells.cell(c, r) == (ch == 'o' || ('A' <= ch <= 'V'))
                &&& self.wall_cells.cell(c, r) == (ch == 'W')
                &&& forall|p: int| 0 <= p < self.players() ==>
                    #[trigger] self.pcells(p).cell(c, r) == ('A' <= ch <= 'V' && p == ch as int - 65)
            }),
    {
        let n = self.players();
        self.lemma_lowest_owner(n, c, r);
        let ch = cell_char(self.run_state(None, c, r));
        assert forall|p: int| 0 <= p < n implies
            #[trigger] self.pcells(p).cell(c, r) == ('A' <= ch <= 'V' && p == ch as int - 65) by {
            match self.lowest_owner(n, c, r) {
                Some(q) => {
                    if self.known.cell(c, r) && self.cells.cell(c, r) {
                        assert(ch == player_char(q as int));
                        assert(player_char(q as int) as int == 65 + q);
                        if p != q && self.pcells(p).cell(c, r) {
                            self.lemma_two_owners(n, c, r, p, q as int);
                        }
                    } else {
                        assert(self.pcells(q as int).cell(c, r));
                    }
                },
                None => {},
            }
        }
        if self.known.cell(c, r) && self.cells.cell(c, r) {
            if let Some(q) = self.lowest_owner(n, c, r) {
                assert(player_char(q as int) as int == 65 + q);
            }
        }
    }

    /// Writing nothing leaves everything as it was.
    pub proof fn lemma_written_none(&self, visibility: Option<usize>)
        requires
            self.valid(),
        ensures
            self.written(self, |c: int, r: int| None::<char>, visibility),
    {
    }

    /// Writing one more cell, not written before, adds it to the cells written.
    pub proof fn lemma_written_step(
        a: &GenState,
        b: &GenState,
        c: &GenState,
        chars: spec_fn(int, int) -> Option<char>,
        col: int,
        row: int,
        ch: char,
        visibility: Option<usize>,
    )
        requires
            a.written(b, chars, visibility),
            chars(col, row) is None,
            b.write_result(c, col, row, ch, visibility),
        ensures
            a.written(c, |x: int, y: int| if x == col && y == row { Some(ch) } else { chars(x, y) }, visibility),
    {
        let f = |x: int, y: int| if x == col && y == row { Some(ch) } else { chars(x, y) };
        assert forall|x: int, y: int| a.in_grid(x, y) implies #[trigger] c.cells.cell(x, y) == alive_after(a.cells.cell(x, y), f(x, y)) by {
            assert(b.cells.cell(x, y) == alive_after(a.cells.cell(x, y), chars(x, y)));
        }
        assert forall|x: int, y: int| a.in_grid(x, y) implies #[trigger] c.wall_cells.cell(x, y) == wall_after(a.wall_cells.cell(x, y), f(x, y)) by {
            assert(b.wall_cells.cell(x, y) == wall_after(a.wall_cells.cell(x, y), chars(x, y)));
        }
        assert forall|x: int, y: int| a.in_grid(x, y) implies #[trigger] c.known.cell(x, y) == known_after(a.known.cell(x, y), f(x, y)) by {
            assert(b.known.cell(x, y) == known_after(a.known.cell(x, y), chars(x, y)));
        }
        assert forall|p: int, x: int, y: int| 0 <= p < a.players() && a.in_grid(x, y) implies
            #[trigger] c.pcells(p).cell(x, y) == pcell_after(a.pcells(p).cell(x, y), f(x, y), p) by {
            assert(b.pcells(p).cell(x, y) == pcell_after(a.pcells(p).cell(x, y), chars(x, y), p));
        }
        assert forall|p: int, x: int, y: int| 0 <= p < a.players() && a.in_grid(x, y) implies
            #[trigger] c.pfog(p).cell(x, y) == pfog_after(a.pfog(p).cell(x, y), f(x, y), p, visibility) by {
            assert(b.pfog(p).cell(x, y) == pfog_after(a.pfog(p).cell(x, y), chars(x, y), p, visibility));
        }
    }

    /// `other` has the same shape as `self` and the same value in every cell of every grid.
    pub open spec fn same_cells(&self, other: &GenState) -> bool {
        &&& self.same_shape(other)
        &&& forall|c: int, r: int| self.in_grid(c, r) ==> #[trigger] other.cells.cell(c, r) == self.cells.cell(c, r)
        &&& forall|c: int, r: int| self.in_grid(c, r) ==> #[trigger] other.wall_cells.cell(c, r) == self.wall_cells.cell(c, r)
        &&& forall|c: int, r: int| self.in_grid(c, r) ==> #[trigger] other.known.cell(c, r) == self.known.cell(c, r)
        &&& forall|p: int, c: int, r: int| 0 <= p < self.players() && self.in_grid(c, r) ==>
            #[trigger] other.pcells(p).cell(c, r) == self.pcells(p).cell(c, r)
        &&& forall|p: int, c: int, r: int| 0 <= p < self.players() && self.in_grid(c, r) ==>
            #[trigger] other.pfog(p).cell(c, r) == self.pfog(p).cell(c, r)
    }

    /// What was written does not depend on the generation number of the result.
    pub proof fn lemma_written_regen(a: &GenState, b: &GenState, g: Option<usize>,
        chars: spec_fn(int, int) -> Option<char>, visibility: Option<usize>)
        requires
            a.written(b, chars, visibility),
        ensures
            a.written(&GenState { gen_or_none: g, ..*b }, chars, visibility),
    {
        let nb = GenState { gen_or_none: g, ..*b };
        assert forall|p: int, c: int, r: int| 0 <= p < a.players() && a.in_grid(c, r) implies
            #[trigger] nb.pcells(p).cell(c, r) == pcell_after(a.pcells(p).cell(c, r), chars(c, r), p) by {
            assert(nb.pcells(p) == b.pcells(p));
        }
        assert forall|p: int, c: int, r: int| 0 <= p < a.players() && a.in_grid(c, r) implies
            #[trigger] nb.pfog(p).cell(c, r) == pfog_after(a.pfog(p).cell(c, r), chars(c, r), p, visibility) by {
            assert(nb.pfog(p) == b.pfog(p));
        }
        assert forall|p: int| 0 <= p < nb.players() implies (#[trigger] nb.player_states@[p]).cells.shaped(a.words(), a.rows())
            && nb.player_states@[p].fog.shaped(a.words(), a.rows()) by {
            assert(nb.player_states@[p] == b.player_states@[p]);
        }
    }

    /// Writing into a state with the same cells as `a` has the same effect as writing into `a`.
    pub proof fn lemma_written_same_cells(a: &GenState, b: &GenState, c: &GenState,
        chars: spec_fn(int, int) -> Option<char>, visibility: Option<usize>)
        requires
            a.same_cells(b),
            b.written(c, chars, visibility),
        ensures
            a.written(c, chars, visibility),
    {
        assert forall|x: int, y: int| a.in_grid(x, y) implies #[trigger] c.cells.cell(x, y) == alive_after(a.cells.cell(x, y), chars(x, y)) by {
            assert(b.cells.cell(x, y) == a.cells.cell(x, y));
        }
        assert forall|x: int, y: int| a.in_grid(x, y) implies #[trigger] c.wall_cells.cell(x, y) == wall_after(a.wall_cells.cell(x, y), chars(x, y)) by {
            assert(b.wall_cells.cell(x, y) == a.wall_cells.cell(x, y));
        }
        assert forall|x: int, y: int| a.in_grid(x, y) implies #[trigger] c.known.cell(x, y) == known_after(a.known.cell(x, y), chars(x, y)) by {
            assert(b.known.cell(x, y) == a.known.cell(x, y));
        }
        assert forall|p: int, x: int, y: int| 0 <= p < a.players() && a.in_grid(x, y) implies
            #[trigger] c.pcells(p).cell(x, y) == pcell_after(a.pcells(p).cell(x, y), chars(x, y), p) by {
            assert(b.pcells(p).cell(x, y) == a.pcells(p).cell(x, y));
        }
        assert forall|p: int, x: int, y: int| 0 <= p < a.players() && a.in_grid(x, y) implies
            #[trigger] c.pfog(p).cell(x, y) == pfog_after(a.pfog(p).cell(x, y), chars(x, y), p, visibility) by {
            assert(b.pfog(p).cell(x, y) == a.pfog(p).cell(x, y));
        }
    }

    /// When player `q` is the only one of `0 .. n` that owns the cell, it is the lowest owner.
    pub proof fn lemma_lowest_owner_unique(&self, n: nat, c: int, r: int, q: int)
        requires
            0 <= q < n <= usize::MAX,
            self.pcells(q).cell(c, r),
            forall|p: int| 0 <= p < n && p != q ==> !#[trigger] self.pcells(p).cell(c, r),
        ensures
            self.lowest_owner(n, c, r) == Some(q as usize),
        decreases n,
    {
        if n - 1 > q {
            self.lemma_lowest_owner_unique((n - 1) as nat, c, r, q);
        } else {
            self.lemma_lowest_owner((n - 1) as nat, c, r);
        }
    }

    /// Reading a cell (as exported to a pattern) after writing a character on it, as observed
    /// with the same visibility, gives back that character.
    pub proof fn lemma_write_then_read(old_s: &GenState, new_s: &GenState, col: int, row: int, ch: char,
        visibility: Option<usize>)
        requires
            old_s.valid(),
            old_s.in_grid(col, row),
            GenState::writable_char(ch, old_s.players()),
            ch == '?' ==> visibility is Some,
            visibility matches Some(p) ==> p < old_s.players(),
            old_s.write_result(new_s, col, row, ch, visibility),
        ensures
            has_char(new_s.run_state(visibility, col, row)),
            cell_char(new_s.run_state(visibility, col, row)) == ch,
    {
        assert(old_s.players() == old_s.player_states.len());
        if ch != '?' {
            if 'A' <= ch <= 'V' {
                let q = ch as int - 65;
                assert forall|p: int| 0 <= p < new_s.players() && p != q implies !#[trigger] new_s.pcells(p).cell(col, row) by {}
                new_s.lemma_lowest_owner_unique(new_s.players(), col, row, q);
                assert(player_char(q) == ch);
            } else {
                new_s.lemma_lowest_owner(new_s.players(), col, row);
                if new_s.lowest_owner(new_s.players(), col, row) is Some {
                    let p = new_s.lowest_owner(new_s.players(), col, row)->0;
                    assert(new_s.pcells(p as int).cell(col, row));
                }
            }
        }
    }

    /// After writing, a written cell reads back as the character written on it, and any other
    /// cell reads as before (as observed with the same visibility).
    pub proof fn lemma_written_read(a: &GenState, b: &GenState, chars: spec_fn(int, int) -> Option<char>,
        visibility: Option<usize>, c: int, r: int)
        requires
            a.valid(),
            a.written(b, chars, visibility),
            a.in_grid(c, r),
            visibility matches Some(p) ==> p < a.players(),
            chars(c, r) matches Some(ch) ==> GenState::writable_char(ch, a.players()) && (ch == '?' ==> visibility is Some),
        ensures
            chars(c, r) is None ==> b.run_state(visibility, c, r) == a.run_state(visibility, c, r),
            chars(c, r) matches Some(ch) ==> has_char(b.run_state(visibility, c, r))
                && cell_char(b.run_state(visibility, c, r)) == ch,
    {
        assert(a.players() == a.player_states.len());
        match chars(c, r) {
            None => {
                assert forall|p: int| 0 <= p < a.players() implies #[trigger] a.pcells(p).cell(c, r) == b.pcells(p).cell(c, r) by {}
                GenState::lemma_lowest_owner_states(a, b, a.players(), c, r);
            },
            Some(ch) => {
                if ch != '?' {
                    if 'A' <= ch <= 'V' {
                        let q = ch as int - 65;
                        assert forall|p: int| 0 <= p < b.players() && p != q implies !#[trigger] b.pcells(p).cell(c, r) by {}
                        b.lemma_lowest_owner_unique(b.players(), c, r, q);
                        assert(player_char(q) == ch);
                    } else {
                        b.lemma_lowest_owner(b.players(), c, r);
                        if b.lowest_owner(b.players(), c, r) is Some {
                            let p = b.lowest_owner(b.players(), c, r)->0;
                            assert(b.pcells(p as int).cell(c, r));
                        }
                    }
                }
            },
        }
    }

    /// The character a cell shows is '?' exactly for fog, and can otherwise be written back.
    pub proof fn lemma_shown_char(&self, visibility: Option<usize>, c: int, r: int)
        requires
            has_char(self.run_state(visibility, c, r)),
        ensures
            (cell_char(self.run_state(visibility, c, r)) == '?') == (self.run_state(visibility, c, r) is Fog),
            !(self.run_state(visibility, c, r) is Fog) ==>
                GenState::writable_char(cell_char(self.run_state(visibility, c, r)), self.players()),
    {
        assert(self.players() == self.player_states.len());
        self.lemma_lowest_owner(self.players(), c, r);
        if let CellState::Alive(Some(p)) = self.run_state(visibility, c, r) {
            assert(player_char(p as int) as int == 65 + p);
        }
    }

    /// Whether `ch` can be written into a generation state with `players` players.
    pub open spec fn writable_char(ch: char, players: nat) -> bool {
        ch == 'o' || ch == 'b' || ch == 'W' || ch == '?' || ('A' <= ch <= 'V' && (ch as int - 65) < players)
    }

    /// Applies `op` to cell `(col, row)` of player `p`'s cells or fog.
    fn modify_player_bit(&mut self, p: usize, fog: bool, col: usize, row: usize, op: BitOperation)
        requires
            old(self).valid(),
            old(self).in_grid(col as int, row as int),
            p < old(self).players(),
        ensures
            old(self).same_frame(final(self)),
            final(self).cells == old(self).cells,
            final(self).wall_cells == old(self).wall_cells,
            final(self).known == old(self).known,
            forall|q: int| 0 <= q < old(self).players() && q != p ==> #[trigger] final(self).player_states@[q] == old(self).player_states@[q],
            fog ==> final(self).pcells(p as int) == old(self).pcells(p as int),
            !fog ==> final(self).pfog(p as int) == old(self).pfog(p as int),
            forall|c: int, r: int| old(self).in_grid(c, r) ==> #[trigger] final(self).pcells(p as int).cell(c, r)
                == if fog { old(self).pcells(p as int).cell(c, r) } else {
                    cell_after(&old(self).pcells(p as int), col as int, row as int,
                        apply_op_bit(op, old(self).pcells(p as int).cell(col as int, row as int), true), c, r)
                },
            forall|c: int, r: int| old(self).in_grid(c, r) ==> #[trigger] final(self).pfog(p as int).cell(c, r)
                == if !fog { old(self).pfog(p as int).cell(c, r) } else {
                    cell_after(&old(self).pfog(p as int), col as int, row as int,
                        apply_op_bit(op, old(self).pfog(p as int).cell(col as int, row as int), true), c, r)
                },
    {
        let ghost old_s = *self;
        let ghost words = self.words();
        let ghost height = self.rows();
        let mask: u64 = 1u64 << ((63 - col % 64) as u64);
        assert(self.player_states@[p as int].cells.shaped(words, height));
        if fog {
            self.player_states[p].fog.modify_bits_in_word(row, col / 64, mask, op);
            proof {
                lemma_single_cell_update(&old_s.pfog(p as int), &self.pfog(p as int), col as int, row as int, op, words, height);
            }
        } else {
            self.player_states[p].cells.modify_bits_in_word(row, col / 64, mask, op);
            proof {
                lemma_single_cell_update(&old_s.pcells(p as int), &self.pcells(p as int), col as int, row as int, op, words, height);
            }
        }
        proof {
            assert forall|q: int| 0 <= q < old_s.players() && q != p implies #[trigger] self.player_states@[q] == old_s.player_states@[q] by {}
            assert forall|q: int| 0 <= q < old_s.players() implies (#[trigger] self.player_states@[q]).cells.shaped(words, height)
                && self.player_states@[q].fog.shaped(words, height) by {
                if q != p { assert(self.player_states@[q] == old_s.player_states@[q]); }
            }
        }
    }

    /// Writes the character `ch` at `(col, row)` as observed with `visibility` (see
    /// `write_result`).
    pub fn write_at_position(&mut self, col: usize, row: usize, ch: char, visibility: Option<usize>)
        requires
            old(self).valid(),
            old(self).in_grid(col as int, row as int),
            GenState::writable_char(ch, old(self).players()),
            visibility matches Some(p) ==> p < old(self).players(),
            ch == '?' ==> visibility is Some,
        ensures
            old(self).write_result(final(self), col as int, row as int, ch, visibility),
    {
        let ghost old_s = *self;
        let ghost words = self.words();
        let ghost height = self.rows();
        let word_col = col / 64;
        let shift = 63 - (col % 64);
        let mask: u64 = 1u64 << (shift as u64);
        let alive = ch == 'o' || ('A' <= ch && ch <= 'V');
        // cells
        if alive {
            self.cells.modify_bits_in_word(row, word_col, mask, BitOperation::SetBit);
            proof { lemma_single_cell_update(&old_s.cells, &self.cells, col as int, row as int, BitOperation::SetBit, words, height); }
        } else {
            self.cells.modify_bits_in_word(row, word_col, mask, BitOperation::Clear);
            proof { lemma_single_cell_update(&old_s.cells, &self.cells, col as int, row as int, BitOperation::Clear, words, height); }
        }
        // wall cells
        let ghost s1 = *self;
        if ch == 'W' {
            self.wall_cells.modify_bits_in_word(row, word_col, mask, BitOperation::SetBit);
            proof { lemma_single_cell_update(&s1.wall_cells, &self.wall_cells, col as int, row as int, BitOperation::SetBit, words, height); }
        } else {
            self.wall_cells.modify_bits_in_word(row, word_col, mask, BitOperation::Clear);
            proof { lemma_single_cell_update(&s1.wall_cells, &self.wall_cells, col as int, row as int, BitOperation::Clear, words, height); }
        }
        let ghost s2 = *self;
        // player_states
        if ch == '?' {
            // only set fog bit for the observing player
            let player_id = visibility.unwrap();
            self.modify_player_bit(player_id, true, col, row, BitOperation::SetBit);
            proof {
                assert(s2.player_states == old_s.player_states);
                assert(old_s.player_states.len() == old_s.players());
                assert forall|p: int, c: int, r: int| 0 <= p < old_s.players() && old_s.in_grid(c, r) implies
                    #[trigger] self.pfog(p).cell(c, r) == if visibility == Some(p as usize) {
                        cell_after(&old_s.pfog(p), col as int, row as int, true, c, r)
                    } else { old_s.pfog(p).cell(c, r) } by {
                    if p != player_id {
                        assert(self.player_states@[p] == s2.player_states@[p]);
                        assert(s2.pfog(p) == old_s.pfog(p));
                        assert(visibility == Some(player_id));
                        assert(p as usize == p);
                        assert(visibility != Some(p as usize));
                        assert(self.pfog(p).cell(c, r) == old_s.pfog(p).cell(c, r));
                    } else {
                        assert(visibility == Some(p as usize));
                        assert(s2.pfog(p) == old_s.pfog(p));
                        assert(self.pfog(p).cell(c, r) == cell_after(&s2.pfog(p), col as int, row as int,
                            apply_op_bit(BitOperation::SetBit, s2.pfog(p).cell(col as int, row as int), true), c, r));
                        assert(self.pfog(p).cell(c, r) == cell_after(&old_s.pfog(p), col as int, row as int, true, c, r));
                    }
                }
                assert forall|p: int, c: int, r: int| 0 <= p < old_s.players() && old_s.in_grid(c, r) implies
                    #[trigger] self.pcells(p).cell(c, r) == old_s.pcells(p).cell(c, r) by {
                    if p != player_id { assert(self.player_states@[p] == s2.player_states@[p]); }
                }
            }
        } else {
            self.known.modify_bits_in_word(row, word_col, mask, BitOperation::SetBit);
            proof { lemma_single_cell_update(&s2.known, &self.known, col as int, row as int, BitOperation::SetBit, words, height); }
            let ghost s3 = *self;
            let np = self.player_states.len();
            // clear the fog bit of the observing player, or of all players
            let mut i: usize = 0;
            while i < np
                invariant
                    np == old_s.players(),
                    i <= np,
                    old_s.valid(),
                    old_s.in_grid(col as int, row as int),
                    words == old_s.words(),
                    height == old_s.rows(),
                    visibility matches Some(p) ==> p < np,
                    old_s.same_frame(self),
                    self.cells == s3.cells,
                    self.wall_cells == s3.wall_cells,
                    self.known == s3.known,
                    forall|p: int| 0 <= p < np ==> #[trigger] self.pcells(p) == old_s.pcells(p),
                    forall|p: int, c: int, r: int| 0 <= p < np && old_s.in_grid(c, r) ==> #[trigger] self.pfog(p).cell(c, r)
                        == if p < i && (visibility is None || visibility == Some(p as usize)) {
                            cell_after(&old_s.pfog(p), col as int, row as int, false, c, r)
                        } else {
                            old_s.pfog(p).cell(c, r)
                        },
                decreases np - i,
            {
                let ghost before = *self;
                if visibility.is_none() || visibility == Some(i) {
                    self.modify_player_bit(i, true, col, row, BitOperation::Clear);
                }
                proof {
                    assert forall|p: int| 0 <= p < np implies #[trigger] self.pcells(p) == old_s.pcells(p) by {
                        if p != i { assert(self.player_states@[p] == before.player_states@[p]); }
                        assert(before.pcells(p) == old_s.pcells(p));
                    }
                    assert forall|p: int, c: int, r: int| 0 <= p < np && old_s.in_grid(c, r) implies #[trigger] self.pfog(p).cell(c, r)
                        == if p < i + 1 && (visibility is None || visibility == Some(p as usize)) {
                            cell_after(&old_s.pfog(p), col as int, row as int, false, c, r)
                        } else {
                            old_s.pfog(p).cell(c, r)
                        } by {
                        if p != i {
                            assert(self.player_states@[p] == before.player_states@[p]);
                        }
                        assert(before.pfog(p).cell(c, r) == if p < i && (visibility is None || visibility == Some(p as usize)) {
                            cell_after(&old_s.pfog(p), col as int, row as int, false, c, r)
                        } else {
                            old_s.pfog(p).cell(c, r)
                        });
                        if p == i {
                            assert(before.pfog(p).cell(col as int, row as int) == old_s.pfog(p).cell(col as int, row as int));
                        }
                    }
                }
                i += 1;
            }
            let ghost s4 = *self;
            // clear all players' cells, then give the cell to the player it names
            let mut i: usize = 0;
            while i < np
                invariant
                    np == old_s.players(),
                    i <= np,
                    old_s.valid(),
                    old_s.in_grid(col as int, row as int),
                    words == old_s.words(),
                    height == old_s.rows(),
                    old_s.same_frame(self),
                    self.cells == s3.cells,
                    self.wall_cells == s3.wall_cells,
                    self.known == s3.known,
                    forall|p: int| 0 <= p < np ==> #[trigger] self.pfog(p) == s4.pfog(p),
                    forall|p: int| 0 <= p < np ==> #[trigger] s4.pcells(p) == old_s.pcells(p),
                    forall|p: int, c: int, r: int| 0 <= p < np && old_s.in_grid(c, r) ==> #[trigger] self.pcells(p).cell(c, r)
                        == if p < i { cell_after(&old_s.pcells(p), col as int, row as int, false, c, r) } else { old_s.pcells(p).cell(c, r) },
                decreases np - i,
            {
                let ghost before = *self;
                self.modify_player_bit(i, false, col, row, BitOperation::Clear);
                proof {
                    assert forall|p: int| 0 <= p < np implies #[trigger] self.pfog(p) == s4.pfog(p) by {
                        if p != i { assert(self.player_states@[p] == before.player_states@[p]); }
                        assert(before.pfog(p) == s4.pfog(p));
                    }
                    assert forall|p: int, c: int, r: int| 0 <= p < np && old_s.in_grid(c, r) implies #[trigger] self.pcells(p).cell(c, r)
                        == if p < i + 1 { cell_after(&old_s.pcells(p), col as int, row as int, false, c, r) } else { old_s.pcells(p).cell(c, r) } by {
                        if p != i {
                            assert(self.player_states@[p] == before.player_states@[p]);
                        }
                        assert(before.pcells(p).cell(c, r) == if p < i { cell_after(&old_s.pcells(p), col as int, row as int, false, c, r) } else { old_s.pcells(p).cell(c, r) });
                        if p == i {
                            assert(before.pcells(p).cell(col as int, row as int) == old_s.pcells(p).cell(col as int, row as int));
                        }
                    }
                }
                i += 1;
            }
            let ghost s5 = *self;
            if 'A' <= ch && ch <= 'V' {
                let p_id = (ch as u32 - 65) as usize;
                self.modify_player_bit(p_id, false, col, row, BitOperation::SetBit);
                proof {
                    assert forall|p: int, c: int, r: int| 0 <= p < np && old_s.in_grid(c, r) implies
                        #[trigger] self.pcells(p).cell(c, r) == cell_after(&old_s.pcells(p), col as int, row as int,
                            p == ch as int - 65, c, r) by {
                        if p != p_id { assert(self.player_states@[p] == s5.player_states@[p]); }
                        assert(s5.pcells(p).cell(c, r) == cell_after(&old_s.pcells(p), col as int, row as int, false, c, r));
                    }
                    assert forall|p: int| 0 <= p < np implies #[trigger] self.pfog(p) == s4.pfog(p) by {
                        if p != p_id { assert(self.player_states@[p] == s5.player_states@[p]); }
                        assert(s5.pfog(p) == s4.pfog(p));
                    }
                }
            }
            proof {
                assert forall|p: int, c: int, r: int| 0 <= p < np && old_s.in_grid(c, r) implies
                    #[trigger] self.pfog(p).cell(c, r) == if visibility is None || visibility == Some(p as usize) {
                        cell_after(&old_s.pfog(p), col as int, row as int, false, c, r)
                    } else {
                        old_s.pfog(p).cell(c, r)
                    } by {
                    assert(self.pfog(p) == s4.pfog(p));
                }
                assert forall|p: int, c: int, r: int| 0 <= p < np && old_s.in_grid(c, r) implies
                    #[trigger] self.pcells(p).cell(c, r) == cell_after(&old_s.pcells(p), col as int, row as int,
                        'A' <= ch <= 'V' && p == ch as int - 65, c, r) by {
                }
            }
        }
    }

    /// Whether `ch` may appear in a pattern written into a generation state: a cell character or
    /// the no-op character.
    pub fn is_valid(ch: char) -> (r: bool)
        ensures
            r == (ch == 'o' || ch == 'b' || ('A' <= ch <= 'W') || ch == '?' || ch == '"'),
    {
        ch == 'o' || ch == 'b' || ('A' <= ch && ch <= 'W') || ch == '?' || ch == '"'
    }

    /// The state of cell `(c, r)` as exported to a pattern for `visibility`: fog where the cell is
    /// unknown or the observing player has fog, otherwise alive (with its lowest-numbered owner,
    /// if any), wall or dead.
    pub open spec fn run_state(&self, visibility: Option<usize>, c: int, r: int) -> CellState {
        if !self.known.cell(c, r) {
            CellState::Fog
        } else if (visibility matches Some(p) && self.pfog(p as int).cell(c, r)) {
            CellState::Fog
        } else if self.cells.cell(c, r) {
            CellState::Alive(self.lowest_owner(self.players(), c, r))
        } else if self.wall_cells.cell(c, r) {
            CellState::Wall
        } else {
            CellState::Dead
        }
    }

    /// The `k` cells from `(c, r)` to the right are all dead as observed with `visibility`:
    /// known, not alive, not walls, and not fogged for the observer (if any).
    pub open spec fn dead_from(&self, visibility: Option<usize>, c: int, r: int, k: int) -> bool {
        forall|i: int| c <= i < c + k ==> {
            &&& #[trigger] self.known.cell(i, r)
            &&& !self.cells.cell(i, r)
            &&& !self.wall_cells.cell(i, r)
            &&& !(visibility matches Some(p) && self.pfog(p as int).cell(i, r))
        }
    }

    /// The `k` cells from `(c, r)` to the right all carry the bits of `(c, r)`: known, alive and
    /// wall bits, every player's cells, and the observer's fog (if any).
    pub open spec fn same_from(&self, visibility: Option<usize>, c: int, r: int, k: int) -> bool {
        forall|i: int| c <= i < c + k ==> {
            &&& #[trigger] self.known.cell(i, r) == self.known.cell(c, r)
            &&& self.cells.cell(i, r) == self.cells.cell(c, r)
            &&& self.wall_cells.cell(i, r) == self.wall_cells.cell(c, r)
            &&& (visibility matches Some(p) ==> self.pfog(p as int).cell(i, r) == self.pfog(p as int).cell(c, r))
            &&& forall|q: int| 0 <= q < self.players() ==> #[trigger] self.pcells(q).cell(i, r) == self.pcells(q).cell(c, r)
        }
    }

    /// The capped player run covers `k` cells when the cap and every player's run do.
    proof fn lemma_player_run_cap_at_least(&self, n: nat, c: int, r: int, m: int, k: int)
        requires
            m >= k,
            forall|q: int| 0 <= q < n ==> #[trigger] self.pcells(q).run_len(c, r) >= k,
        ensures
            self.player_run_cap(n, c, r, m) >= k,
        decreases n,
    {
        if n > 0 {
            self.lemma_player_run_cap_at_least((n - 1) as nat, c, r, m, k);
        }
    }

    /// A run is not cut short: from a cell followed (itself included) by `k` cells with the same
    /// bits, the run reported reaches at least `k` cells, whatever the word boundaries.
    pub proof fn lemma_run_reaches(&self, visibility: Option<usize>, c: int, r: int, k: int)
        requires
            self.valid(),
            0 <= c,
            0 <= r < self.rows(),
            1 <= k,
            c + k <= self.words() * 64,
            visibility matches Some(p) ==> p < self.players(),
            self.same_from(visibility, c, r, k),
        ensures
            self.run_length(visibility, c, r) >= k,
    {
        assert(self.known.words_per_row() == self.words());
        assert(self.cells.words_per_row() == self.words());
        assert(self.wall_cells.words_per_row() == self.words());
        assert forall|i: int| c <= i < c + k implies #[trigger] self.known.cell(i, r) == self.known.cell(c, r) by {}
        self.known.lemma_run_len_at_least(c, r, k);
        assert forall|i: int| c <= i < c + k implies #[trigger] self.cells.cell(i, r) == self.cells.cell(c, r) by {
            assert(self.known.cell(i, r) == self.known.cell(c, r));
        }
        self.cells.lemma_run_len_at_least(c, r, k);
        assert forall|i: int| c <= i < c + k implies #[trigger] self.wall_cells.cell(i, r) == self.wall_cells.cell(c, r) by {
            assert(self.known.cell(i, r) == self.known.cell(c, r));
        }
        self.wall_cells.lemma_run_len_at_least(c, r, k);
        if let Some(p) = visibility {
            assert(self.player_states@[p as int].fog.shaped(self.words(), self.rows()));
            assert(self.pfog(p as int).words_per_row() == self.words());
            assert forall|i: int| c <= i < c + k implies #[trigger] self.pfog(p as int).cell(i, r) == self.pfog(p as int).cell(c, r) by {
                assert(self.known.cell(i, r) == self.known.cell(c, r));
            }
            self.pfog(p as int).lemma_run_len_at_least(c, r, k);
        }
        assert forall|q: int| 0 <= q < self.players() implies #[trigger] self.pcells(q).run_len(c, r) >= k by {
            assert(self.player_states@[q].cells.shaped(self.words(), self.rows()));
            assert(self.pcells(q).words_per_row() == self.words());
            assert forall|i: int| c <= i < c + k implies #[trigger] self.pcells(q).cell(i, r) == self.pcells(q).cell(c, r) by {
                assert(self.known.cell(i, r) == self.known.cell(c, r));
            }
            self.pcells(q).lemma_run_len_at_least(c, r, k);
        }
        assert(self.players() == self.player_states.len());
        self.lemma_lowest_owner(self.players(), c, r);
        let m1 = vstd::math::min(self.words() * 64 - c, self.known.run_len(c, r));
        let m2 = if (visibility matches Some(p)) { vstd::math::min(m1, self.pfog(visibility->0 as int).run_len(c, r)) } else { m1 };
        let m3 = vstd::math::min(vstd::math::min(m2, self.cells.run_len(c, r)), self.wall_cells.run_len(c, r));
        assert(m3 >= k);
        match self.lowest_owner(self.players(), c, r) {
            Some(q) => self.lemma_player_run_cap_at_least((q + 1) as nat, c, r, m3, k),
            None => self.lemma_player_run_cap_at_least(self.players(), c, r, m3, k),
        }
    }

    /// A run of dead cells is not cut short: from a cell followed (itself included) by `k` dead
    /// cells, the run reported reaches at least `k` cells, whatever the word boundaries.
    pub proof fn lemma_dead_run_reaches(&self, visibility: Option<usize>, c: int, r: int, k: int)
        requires
            self.valid(),
            0 <= c,
            0 <= r < self.rows(),
            1 <= k,
            c + k <= self.words() * 64,
            visibility matches Some(p) ==> p < self.players(),
            self.dead_from(visibility, c, r, k),
        ensures
            self.run_length(visibility, c, r) >= k,
    {
        assert(self.known.cell(c, r));
        assert(self.known.words_per_row() == self.words());
        assert(self.cells.words_per_row() == self.words());
        assert(self.wall_cells.words_per_row() == self.words());
        assert forall|i: int| c <= i < c + k implies #[trigger] self.known.cell(i, r) == self.known.cell(c, r) by {}
        self.known.lemma_run_len_at_least(c, r, k);
        assert forall|i: int| c <= i < c + k implies #[trigger] self.cells.cell(i, r) == self.cells.cell(c, r) by {
            assert(self.known.cell(i, r));
        }
        self.cells.lemma_run_len_at_least(c, r, k);
        assert forall|i: int| c <= i < c + k implies #[trigger] self.wall_cells.cell(i, r) == self.wall_cells.cell(c, r) by {
            assert(self.known.cell(i, r));
        }
        self.wall_cells.lemma_run_len_at_least(c, r, k);
        if let Some(p) = visibility {
            assert(self.player_states@[p as int].fog.shaped(self.words(), self.rows()));
            assert(self.pfog(p as int).words_per_row() == self.words());
            assert forall|i: int| c <= i < c + k implies #[trigger] self.pfog(p as int).cell(i, r) == self.pfog(p as int).cell(c, r) by {
                assert(self.known.cell(i, r));
            }
            self.pfog(p as int).lemma_run_len_at_least(c, r, k);
        }
    }

    /// The shortest run, capped at `m`, among the cells of players `0 .. n` from `(c, r)`.
    pub open spec fn player_run_cap(&self, n: nat, c: int, r: int, m: int) -> int
        decreases n,
    {
        if n == 0 {
            m
        } else {
            vstd::math::min(self.player_run_cap((n - 1) as nat, c, r, m), self.pcells(n - 1).run_len(c, r))
        }
    }

    /// The run length reported from `(c, r)` for `visibility`: the shortest of the runs, from
    /// `(c, r)`, of the grids that decide the cell's state (the known grid; then the observing
    /// player's fog; then the alive and wall grids; then the cells of the players up to the
    /// owner, or of all players when the cell is alive without owner), capped at the end of the
    /// row.
    pub open spec fn run_length(&self, visibility: Option<usize>, c: int, r: int) -> int {
        let m1 = vstd::math::min(self.words() * 64 - c, self.known.run_len(c, r));
        if !self.known.cell(c, r) {
            m1
        } else {
            let m2 = if (visibility matches Some(p)) {
                vstd::math::min(m1, self.pfog(visibility->0 as int).run_len(c, r))
            } else {
                m1
            };
            if (visibility matches Some(p) && self.pfog(p as int).cell(c, r)) {
                m2
            } else {
                let m3 = vstd::math::min(vstd::math::min(m2, self.cells.run_len(c, r)), self.wall_cells.run_len(c, r));
                if self.cells.cell(c, r) {
                    let n = match self.lowest_owner(self.players(), c, r) {
                        Some(q) => (q + 1) as nat,
                        None => self.players(),
                    };
                    self.player_run_cap(n, c, r, m3)
                } else {
                    m3
                }
            }
        }
    }

    /// Once some player of `0 .. m` owns the cell, more players do not change the lowest owner;
    /// and the lowest owner `q` among `0 .. n` is already the lowest owner among `0 .. q + 1`.
    pub proof fn lemma_lowest_owner_prefix(&self, m: nat, n: nat, c: int, r: int)
        requires
            m <= n <= usize::MAX,
        ensures
            self.lowest_owner(m, c, r) is Some ==> self.lowest_owner(n, c, r) == self.lowest_owner(m, c, r),
            self.lowest_owner(n, c, r) matches Some(q) ==> q < n && self.lowest_owner((q + 1) as nat, c, r) == Some(q),
        decreases n,
    {
        if n > 0 {
            if m < n {
                self.lemma_lowest_owner_prefix(m, (n - 1) as nat, c, r);
            }
            self.lemma_lowest_owner_prefix((n - 1) as nat, (n - 1) as nat, c, r);
        }
    }

    /// The lowest owner depends only on whether each player owns the cell.
    pub proof fn lemma_lowest_owner_same(&self, n: nat, c1: int, c2: int, r: int)
        requires
            forall|p: int| 0 <= p < n ==> #[trigger] self.pcells(p).cell(c1, r) == self.pcells(p).cell(c2, r),
        ensures
            self.lowest_owner(n, c1, r) == self.lowest_owner(n, c2, r),
        decreases n,
    {
        if n > 0 {
            self.lemma_lowest_owner_same((n - 1) as nat, c1, c2, r);
        }
    }

    /// The capped player run is at most the cap and at most each of the players' runs.
    pub proof fn lemma_player_run_cap(&self, n: nat, c: int, r: int, m: int)
        ensures
            self.player_run_cap(n, c, r, m) <= m,
            forall|p: int| 0 <= p < n ==> self.player_run_cap(n, c, r, m) <= #[trigger] self.pcells(p).run_len(c, r),
            self.player_run_cap(n, c, r, m) == m || exists|p: int| 0 <= p < n && self.player_run_cap(n, c, r, m) == #[trigger] self.pcells(p).run_len(c, r),
        decreases n,
    {
        if n > 0 {
            self.lemma_player_run_cap((n - 1) as nat, c, r, m);
        }
    }

    /// The lowest owner in two states agrees when each player owns the cell in both or neither.
    pub proof fn lemma_lowest_owner_states(a: &GenState, b: &GenState, n: nat, c: int, r: int)
        requires
            forall|p: int| 0 <= p < n ==> #[trigger] a.pcells(p).cell(c, r) == b.pcells(p).cell(c, r),
        ensures
            a.lowest_owner(n, c, r) == b.lowest_owner(n, c, r),
        decreases n,
    {
        if n > 0 {
            GenState::lemma_lowest_owner_states(a, b, (n - 1) as nat, c, r);
        }
    }

    /// The run reported from `(c, r)` is not empty, ends within the row, and every cell of it
    /// is in the state of its first cell.
    pub proof fn lemma_run_length(&self, visibility: Option<usize>, c: int, r: int)
        requires
            self.valid(),
            self.in_grid(c, r),
            visibility matches Some(p) ==> p < self.players(),
        ensures
            1 <= self.run_length(visibility, c, r),
            c + self.run_length(visibility, c, r) <= self.words() * 64,
            forall|i: int| c <= i < c + self.run_length(visibility, c, r) ==>
                #[trigger] self.run_state(visibility, i, r) == self.run_state(visibility, c, r),
    {
        assert(self.players() == self.player_states.len());
        self.known.lemma_run_len_cells(c, r);
        self.cells.lemma_run_len_cells(c, r);
        self.wall_cells.lemma_run_len_cells(c, r);
        self.lemma_lowest_owner(self.players(), c, r);
        if let Some(p) = visibility {
            assert(self.player_states@[p as int].fog.shaped(self.words(), self.rows()));
            self.pfog(p as int).lemma_run_len_cells(c, r);
        }
        let rl = self.run_length(visibility, c, r);
        if self.known.cell(c, r) && !(visibility matches Some(p) && self.pfog(p as int).cell(c, r)) && self.cells.cell(c, r) {
            let m1 = vstd::math::min(self.words() * 64 - c, self.known.run_len(c, r));
            let m2 = if (visibility matches Some(p)) {
                vstd::math::min(m1, self.pfog(visibility->0 as int).run_len(c, r))
            } else {
                m1
            };
            let m3 = vstd::math::min(vstd::math::min(m2, self.cells.run_len(c, r)), self.wall_cells.run_len(c, r));
            let n = match self.lowest_owner(self.players(), c, r) {
                Some(q) => (q + 1) as nat,
                None => self.players(),
            };
            self.lemma_player_run_cap(n, c, r, m3);
            assert forall|p: int| 0 <= p < n implies 1 <= #[trigger] self.pcells(p).run_len(c, r) by {
                assert(self.player_states@[p].cells.shaped(self.words(), self.rows()));
                self.pcells(p).lemma_run_len_cells(c, r);
            }
            assert(rl == self.player_run_cap(n, c, r, m3));
            assert forall|i: int| c <= i < c + rl implies #[trigger] self.run_state(visibility, i, r) == self.run_state(visibility, c, r) by {
                assert forall|p: int| 0 <= p < n implies #[trigger] self.pcells(p).cell(i, r) == self.pcells(p).cell(c, r) by {
                    assert(self.player_states@[p].cells.shaped(self.words(), self.rows()));
                    self.pcells(p).lemma_run_len_cells(c, r);
                    assert(rl <= self.pcells(p).run_len(c, r));
                }
                self.lemma_lowest_owner_same(n, c, i, r);
                if let Some(q) = self.lowest_owner(self.players(), c, r) {
                    self.lemma_lowest_owner_prefix((q + 1) as nat, self.players(), c, r);
                    self.lemma_lowest_owner_prefix((q + 1) as nat, self.players(), i, r);
                }
            }
        }
    }

    /// Given a starting cell at `(col, row)`, gets the character of that cell as observed with
    /// `visibility`, and a number of cells, starting there and going right, that all show that
    /// character (see `run_state` and `run_length`). This is intended for exporting to RLE.
    pub fn get_run(&self, col: usize, row: usize, visibility: Option<usize>) -> (res: (usize, char))
        requires
            self.valid(),
            self.in_grid(col as int, row as int),
            visibility matches Some(p) ==> p < self.players(),
            has_char(self.run_state(visibility, col as int, row as int)),
        ensures
            res.1 == cell_char(self.run_state(visibility, col as int, row as int)),
            res.0 == self.run_length(visibility, col as int, row as int),
            1 <= res.0,
            col + res.0 <= self.words() * 64,
            forall|i: int| col <= i < col + res.0 ==> #[trigger] self.run_state(visibility, i, row as int)
                == self.run_state(visibility, col as int, row as int),
            forall|k: int| 1 <= k && col + k <= self.words() * 64 && #[trigger] self.dead_from(visibility, col as int, row as int, k)
                ==> res.0 >= k,
            forall|k: int| 1 <= k && col + k <= self.words() * 64 && #[trigger] self.same_from(visibility, col as int, row as int, k)
                ==> res.0 >= k,
    {
        proof {
            assert forall|k: int| 1 <= k && col + k <= self.words() * 64 && #[trigger] self.same_from(visibility, col as int, row as int, k)
                implies self.run_length(visibility, col as int, row as int) >= k by {
                self.lemma_run_reaches(visibility, col as int, row as int, k);
            }
            assert forall|k: int| 1 <= k && col + k <= self.words() * 64 && #[trigger] self.dead_from(visibility, col as int, row as int, k)
                implies self.run_length(visibility, col as int, row as int) >= k by {
                self.lemma_dead_run_reaches(visibility, col as int, row as int, k);
            }
        }
        let ghost c = col as int;
        let ghost r = row as int;
        let ghost words = self.words();
        let ghost height = self.rows();
        proof {
            assert(self.players() == self.player_states.len());
            self.known.lemma_run_len_cells(c, r);
            self.cells.lemma_run_len_cells(c, r);
            self.wall_cells.lemma_run_len_cells(c, r);
            self.lemma_lowest_owner(self.players(), c, r);
        }
        let mut min_run = self.width() - col;

        let (known_run, known_ch) = self.known.get_run(col, row);
        if known_run < min_run {
            min_run = known_run;
        }
        if known_ch == 'b' {
            return (min_run, CellState::Fog.to_char());
        }

        if let Some(player_id) = visibility {
            assert(self.player_states@[player_id as int].fog.shaped(words, height));
            proof { self.pfog(player_id as int).lemma_run_len_cells(c, r); }
            let (fog_run, fog_ch) = self.player_states[player_id].fog.get_run(col, row);
            if fog_run < min_run {
                min_run = fog_run;
            }
            if fog_ch == 'o' {
                return (min_run, CellState::Fog.to_char());
            }
        }

        let (cell_run, cell_ch) = self.cells.get_run(col, row);
        if cell_run < min_run {
            min_run = cell_run;
        }

        let (wall_run, wall_ch) = self.wall_cells.get_run(col, row);
        if wall_run < min_run {
            min_run = wall_run;
        }
        let ghost m3 = min_run as int;

        if cell_ch == 'o' {
            let np = self.player_states.len();
            let mut player_id: usize = 0;
            while player_id < np
                invariant
                    np == self.players(),
                    player_id <= np,
                    self.valid(),
                    self.in_grid(c, r),
                    c == col,
                    r == row,
                    1 <= min_run <= m3,
                    m3 >= 1,
                    col + m3 <= words * 64,
                    words == self.words(),
                    height == self.rows(),
                    min_run == self.player_run_cap(player_id as nat, c, r, m3),
                    forall|p: int| 0 <= p < player_id ==> !#[trigger] self.pcells(p).cell(c, r),
                    forall|p: int, i: int| 0 <= p < player_id && col <= i < col + min_run ==>
                        #[trigger] self.pcells(p).cell(i, r) == self.pcells(p).cell(c, r),
                    self.lowest_owner(player_id as nat, c, r) is None,
                    has_char(self.run_state(visibility, c, r)),
                    self.run_length(visibility, c, r) == self.player_run_cap(
                        match self.lowest_owner(self.players(), c, r) {
                            Some(q) => (q + 1) as nat,
                            None => self.players(),
                        }, c, r, m3),
                    visibility matches Some(p) ==> p < self.players(),
                    self.known.cell(c, r),
                    self.cells.cell(c, r),
                    !(visibility matches Some(p) && self.pfog(p as int).cell(c, r)),
                    forall|i: int| col <= i < col + m3 ==> #[trigger] self.known.cell(i, r) == self.known.cell(c, r),
                    forall|i: int| col <= i < col + m3 ==> #[trigger] self.cells.cell(i, r) == self.cells.cell(c, r),
                    forall|i: int| col <= i < col + m3 ==> #[trigger] self.wall_cells.cell(i, r) == self.wall_cells.cell(c, r),
                    forall|i: int| (visibility matches Some(p)) && col <= i < col + m3 ==>
                        #[trigger] self.pfog(visibility->0 as int).cell(i, r) == self.pfog(visibility->0 as int).cell(c, r),
                decreases np - player_id,
            {
                assert(self.player_states@[player_id as int].cells.shaped(words, height));
                proof { self.pcells(player_id as int).lemma_run_len_cells(c, r); }
                let (player_cell_run, player_cell_ch) = self.player_states[player_id].cells.get_run(col, row);
                if player_cell_run < min_run {
                    min_run = player_cell_run;
                }
                if player_cell_ch == 'o' {
                    proof {
                        self.lemma_lowest_owner_prefix((player_id + 1) as nat, self.players(), c, r);
                        self.lemma_lowest_owner_same((player_id + 1) as nat, c, c, r);
                    }
                    let owned_ch = CellState::Alive(Some(player_id)).to_char();
                    proof {
                        assert forall|i: int| col <= i < col + min_run implies #[trigger] self.run_state(visibility, i, r)
                            == self.run_state(visibility, c, r) by {
                            self.lemma_lowest_owner_same((player_id + 1) as nat, c, i, r);
                            self.lemma_lowest_owner_prefix((player_id + 1) as nat, self.players(), i, r);
                        }
                        assert(min_run == self.run_length(visibility, c, r));
                        assert forall|k: int| 1 <= k && col + k <= self.words() * 64
                            && #[trigger] self.same_from(visibility, col as int, row as int, k) implies min_run >= k by {
                            self.lemma_run_reaches(visibility, col as int, row as int, k);
                        }
                    }
                    return (min_run, owned_ch);
                }
                player_id += 1;
            }
            proof {
                assert forall|i: int| col <= i < col + min_run implies #[trigger] self.run_state(visibility, i, r)
                    == self.run_state(visibility, c, r) by {
                    self.lemma_lowest_owner_same(self.players(), c, i, r);
                }
            }
            return (min_run, CellState::Alive(None).to_char());
        }
        if wall_ch == 'o' {
            return (min_run, CellState::Wall.to_char());
        } else {
            return (min_run, CellState::Dead.to_char());
        }
    }

    /// Width in cells.
    pub fn width(&self) -> (r: usize)
        requires
            self.valid(),
        ensures
            r == self.words() * 64,
    {
        self.cells.width()
    }

    /// Height in cells.
    pub fn height(&self) -> (r: usize)
        ensures
            r == self.rows(),
    {
        self.cells.height()
    }

    /// Sets the state of a cell, with minimal checking. It doesn't support setting
    /// `CellState::Fog`, and the cell must be known.
    pub fn set_unchecked(&mut self, col: usize, row: usize, new_state: CellState)
        requires
            old(self).valid(),
            old(self).in_grid(col as int, row as int),
            old(self).known.cell(col as int, row as int),
            new_state != CellState::Fog,
            new_state matches CellState::Alive(Some(p)) ==> p < old(self).players(),
        ensures
            old(self).set_result(final(self), col as int, row as int, new_state),
    {
        let ghost words = self.words();
        let ghost height = self.rows();
        let ghost old_s = *self;
        let word_col = col / 64;
        let shift = 63 - (col % 64);
        let mask: u64 = 1u64 << (shift as u64);
        assert(mask == col_mask(col as int));

        // clear all player cell bits, so that this cell is unowned by any player
        let np = self.player_states.len();
        let mut player_id: usize = 0;
        while player_id < np
            invariant
                np == old_s.players(),
                player_id <= np,
                old_s.valid(),
                old_s.in_grid(col as int, row as int),
                words == old_s.words(),
                height == old_s.rows(),
                word_col == col / 64,
                mask == col_mask(col as int),
                old_s.same_frame(self),
                self.cells == old_s.cells,
                self.wall_cells == old_s.wall_cells,
                self.known == old_s.known,
                forall|p: int| 0 <= p < np ==> #[trigger] self.pfog(p) == old_s.pfog(p),
                forall|p: int, c: int, r: int| 0 <= p < np && old_s.in_grid(c, r) ==> #[trigger] self.pcells(p).cell(c, r)
                    == if p < player_id { cell_after(&old_s.pcells(p), col as int, row as int, false, c, r) } else { old_s.pcells(p).cell(c, r) },
            decreases np - player_id,
        {
            let ghost prev = self.pcells(player_id as int);
            let ghost before = *self;
            assert(self.player_states@[player_id as int].cells.shaped(words, height));
            self.player_states[player_id].cells.modify_bits_in_word(row, word_col, mask, BitOperation::Clear);
            proof {
                lemma_single_cell_update(&prev, &self.pcells(player_id as int), col as int, row as int,
                    BitOperation::Clear, words, height);
                assert forall|p: int| 0 <= p < np && p != player_id implies #[trigger] self.player_states@[p] == before.player_states@[p] by {}
                assert(old_s.same_frame(self));
                assert forall|p: int| 0 <= p < np implies #[trigger] self.pfog(p) == old_s.pfog(p) by {
                    if p != player_id {
                        assert(self.player_states@[p] == before.player_states@[p]);
                        assert(before.pfog(p) == old_s.pfog(p));
                    } else {
                        assert(self.pfog(p) == before.pfog(p));
                        assert(before.pfog(p) == old_s.pfog(p));
                    }
                }
                assert forall|p: int, c: int, r: int| 0 <= p < np && old_s.in_grid(c, r) implies #[trigger] self.pcells(p).cell(c, r)
                    == if p < player_id + 1 { cell_after(&old_s.pcells(p), col as int, row as int, false, c, r) } else { old_s.pcells(p).cell(c, r) } by {
                    if p != player_id {
                        assert(self.player_states@[p] == before.player_states@[p]);
                        assert(before.pcells(p).cell(c, r) == if p < player_id { cell_after(&old_s.pcells(p), col as int, row as int, false, c, r) } else { old_s.pcells(p).cell(c, r) });
                    } else {
                        assert(prev.cell(c, r) == old_s.pcells(p).cell(c, r));
                        assert(prev.cell(col as int, row as int) == old_s.pcells(p).cell(col as int, row as int));
                    }
                }
            }
            player_id += 1;
        }
        let ghost cleared = *self;

        match new_state {
            CellState::Dead => {
                self.cells.modify_bits_in_word(row, word_col, mask, BitOperation::Clear);
                proof { lemma_single_cell_update(&cleared.cells, &self.cells, col as int, row as int, BitOperation::Clear, words, height); }
                let ghost mid = *self;
                self.wall_cells.modify_bits_in_word(row, word_col, mask, BitOperation::Clear);
                proof { lemma_single_cell_update(&mid.wall_cells, &self.wall_cells, col as int, row as int, BitOperation::Clear, words, height); }
            },
            CellState::Alive(opt_player_id) => {
                self.cells.modify_bits_in_word(row, word_col, mask, BitOperation::SetBit);
                proof { lemma_single_cell_update(&cleared.cells, &self.cells, col as int, row as int, BitOperation::SetBit, words, height); }
                let ghost mid = *self;
                self.wall_cells.modify_bits_in_word(row, word_col, mask, BitOperation::Clear);
                proof { lemma_single_cell_update(&mid.wall_cells, &self.wall_cells, col as int, row as int, BitOperation::Clear, words, height); }
                if let Some(player_id) = opt_player_id {
                    let ghost mid2 = *self;
                    assert(mid2.player_states == cleared.player_states);
                    assert(self.player_states@[player_id as int].cells.shaped(words, height));
                    self.player_states[player_id].cells.modify_bits_in_word(row, word_col, mask, BitOperation::SetBit);
                    proof { lemma_single_cell_update(&mid2.pcells(player_id as int), &self.pcells(player_id as int), col as int, row as int, BitOperation::SetBit, words, height); }
                    let ghost mid3 = *self;
                    assert(self.player_states@[player_id as int].fog.shaped(words, height));
                    self.player_states[player_id].fog.modify_bits_in_word(row, word_col, mask, BitOperation::Clear);
                    proof {
                        lemma_single_cell_update(&mid3.pfog(player_id as int), &self.pfog(player_id as int), col as int, row as int, BitOperation::Clear, words, height);
                        assert forall|p: int| 0 <= p < np && p != player_id implies #[trigger] self.player_states@[p] == cleared.player_states@[p] by {
                            assert(mid3.player_states@[p] == mid2.player_states@[p]);
                        }
                        assert(self.pcells(player_id as int) == mid3.pcells(player_id as int));
                        assert(mid3.pfog(player_id as int) == cleared.pfog(player_id as int));
                        assert forall|p: int| 0 <= p < np implies (#[trigger] self.player_states@[p]).cells.shaped(words, height) && self.player_states@[p].fog.shaped(words, height) by {
                            if p != player_id {
                                assert(self.player_states@[p] == cleared.player_states@[p]);
                            }
                        }
                    }
                }
            },
            CellState::Wall => {
                self.cells.modify_bits_in_word(row, word_col, mask, BitOperation::Clear);
                proof { lemma_single_cell_update(&cleared.cells, &self.cells, col as int, row as int, BitOperation::Clear, words, height); }
                let ghost mid = *self;
                self.wall_cells.modify_bits_in_word(row, word_col, mask, BitOperation::SetBit);
                proof { lemma_single_cell_update(&mid.wall_cells, &self.wall_cells, col as int, row as int, BitOperation::SetBit, words, height); }
            },
            CellState::Fog => {},
        }
        proof {
            assert(self.known == old_s.known);
            assert forall|c: int, r: int| old_s.in_grid(c, r) implies
                #[trigger] self.cells.cell(c, r) == cell_after(&old_s.cells, col as int, row as int, new_state is Alive, c, r) by {
                assert(cleared.cells == old_s.cells);
            }
            assert forall|c: int, r: int| old_s.in_grid(c, r) implies
                #[trigger] self.wall_cells.cell(c, r) == cell_after(&old_s.wall_cells, col as int, row as int, new_state is Wall, c, r) by {
                assert(cleared.wall_cells == old_s.wall_cells);
            }
            assert forall|p: int, c: int, r: int| 0 <= p < np && old_s.in_grid(c, r) implies
                #[trigger] self.pcells(p).cell(c, r) == cell_after(&old_s.pcells(p), col as int, row as int,
                    new_state == CellState::Alive(Some(p as usize)), c, r) by {
                assert(cleared.pcells(p).cell(c, r) == cell_after(&old_s.pcells(p), col as int, row as int, false, c, r));
                assert(cleared.pcells(p).cell(col as int, row as int) == cell_after(&old_s.pcells(p), col as int, row as int, false, col as int, row as int));
                if new_state != CellState::Alive(Some(p as usize)) {
                    assert(self.player_states@[p] == cleared.player_states@[p]);
                }
            }
            assert forall|p: int, c: int, r: int| 0 <= p < np && old_s.in_grid(c, r) implies
                #[trigger] self.pfog(p).cell(c, r) == if new_state == CellState::Alive(Some(p as usize)) {
                    cell_after(&old_s.pfog(p), col as int, row as int, false, c, r)
                } else {
                    old_s.pfog(p).cell(c, r)
                } by {
                assert(cleared.pfog(p) == old_s.pfog(p));
                if new_state != CellState::Alive(Some(p as usize)) {
                    assert(self.player_states@[p] == cleared.player_states@[p]);
                }
            }
        }
    }
}

/// Cell `(c, r)` receives a live cell from `src` pasted with its top-left cell at the top-left
/// cell of `region`.
pub open spec fn pasted(src: &BitGrid, region: Region, c: int, r: int) -> bool {
    &&& region.contains_spec(c, r)
    &&& src.in_grid(c - region.left_spec(), r - region.top_spec())
    &&& src.cell(c - region.left_spec(), r - region.top_spec())
}

/// A live cell of `src` pasted at `region` lands on `(c, r)` and is not removed there by a
/// wall of `walls`.
pub open spec fn lands(src: &BitGrid, region: Region, walls: &BitGrid, c: int, r: int) -> bool {
    pasted(src, region, c, r) && !(in_region_words(region, c, r) && walls.cell(c, r))
}

impl PlayerGenState {
    /// In the words that `region` touches: removes the player's cells where there are walls,
    /// then the player's fog where the player has cells.
    fn mask_with_walls(&mut self, walls: &BitGrid, region: Region)
        requires
            old(self).cells.well_shaped(),
            old(self).fog.shaped(old(self).cells.words_per_row(), old(self).cells.rows()),
            walls.shaped(old(self).cells.words_per_row(), old(self).cells.rows()),
            region_within(region, old(self).cells.words_per_row(), old(self).cells.rows()),
        ensures
            final(self).cells.shaped(old(self).cells.words_per_row(), old(self).cells.rows()),
            final(self).fog.shaped(old(self).cells.words_per_row(), old(self).cells.rows()),
            forall|c: int, r: int| old(self).cells.in_grid(c, r) ==> #[trigger] final(self).cells.cell(c, r)
                == (old(self).cells.cell(c, r) && !(in_region_words(region, c, r) && walls.cell(c, r))),
            forall|c: int, r: int| old(self).cells.in_grid(c, r) ==> #[trigger] final(self).fog.cell(c, r)
                == (old(self).fog.cell(c, r) && !(in_region_words(region, c, r) && final(self).cells.cell(c, r))),
    {
        let ghost words = self.cells.words_per_row();
        let ghost h = self.cells.rows();
        self.cells.clear_where_in_words(walls, region);
        proof {
            if h > 0 {
                assert(self.fog.0@[0]@.len() == words);
            }
        }
        self.fog.clear_where_in_words(&self.cells, region);
    }
}

impl GenState {
    /// `new` is `self` after pasting `src` at `region` on behalf of `opt_player_id` (see
    /// `copy_from_bit_grid`).
    pub open spec fn paste_result(&self, new: &GenState, src: &BitGrid, region: Region, opt_player_id: Option<usize>) -> bool {
        &&& self.same_frame(new)
        &&& new.known == self.known
        &&& new.wall_cells == self.wall_cells
        &&& forall|c: int, r: int| self.in_grid(c, r) ==> #[trigger] new.cells.cell(c, r)
            == ((self.cells.cell(c, r) || pasted(src, region, c, r))
                && !(in_region_words(region, c, r) && self.wall_cells.cell(c, r)))
        &&& forall|p: int, c: int, r: int| 0 <= p < self.players() && self.in_grid(c, r) ==> #[trigger] new.pcells(p).cell(c, r)
            == if opt_player_id == Some(p as usize) {
                (self.pcells(p).cell(c, r) || pasted(src, region, c, r))
                    && !(in_region_words(region, c, r) && self.wall_cells.cell(c, r))
            } else if opt_player_id is Some {
                self.pcells(p).cell(c, r) && !lands(src, region, &self.wall_cells, c, r)
            } else {
                self.pcells(p).cell(c, r)
            }
        &&& forall|p: int, c: int, r: int| 0 <= p < self.players() && self.in_grid(c, r) ==> #[trigger] new.pfog(p).cell(c, r)
            == if opt_player_id == Some(p as usize) {
                self.pfog(p).cell(c, r) && !(in_region_words(region, c, r) && new.pcells(p).cell(c, r))
            } else {
                self.pfog(p).cell(c, r)
            }
    }

    /// Copies from `src` to this state as the player specified by `opt_player_id`, if any. This
    /// is an "or" operation, so any existing alive cells are retained, though they may change
    /// ownership: a cell that the player writes belongs to no other player any more. Walls,
    /// however, are preserved: in the words that the region touches, live cells (and the
    /// player's cells) are removed where there are walls. Fog is cleared cell by
    /// cell where the player now has cells. The cell `(0, 0)` of `src` lands on the top-left cell
    /// of `dst_region`, which must lie within this state (and, for a player, within the player's
    /// writable region; `Region::intersection` helps).
    pub fn copy_from_bit_grid(&mut self, src: &BitGrid, dst_region: Region, opt_player_id: Option<usize>)
        requires
            old(self).valid(),
            src.well_shaped(),
            region_within(dst_region, old(self).words(), old(self).rows()),
            opt_player_id matches Some(p) ==> p < old(self).players(),
        ensures
            old(self).paste_result(final(self), src, dst_region, opt_player_id),
    {
        let ghost old_s = *self;
        let ghost words = self.words();
        let ghost h = self.rows();
        let words_e = self.cells.width_in_words();
        let h_e = self.cells.height();
        BitGrid::copy(src, &mut self.cells, dst_region);
        let ghost s1 = *self;
        if let Some(player_id) = opt_player_id {
            assert(self.player_states@[player_id as int].cells.shaped(words, h));
            assert(self.player_states@[player_id as int].fog.shaped(words, h));
            BitGrid::copy(src, &mut self.player_states[player_id].cells, dst_region);
            let ghost s2 = *self;
            assert(self.player_states@[player_id as int].cells.0@[0]@.len() == words);
            self.player_states[player_id].mask_with_walls(&self.wall_cells, dst_region);
            proof {
                assert forall|q: int| 0 <= q < old_s.players() && q != player_id implies
                    #[trigger] self.player_states@[q] == old_s.player_states@[q] by {
                    assert(s2.player_states@[q] == s1.player_states@[q]);
                }
                assert forall|q: int| 0 <= q < old_s.players() implies (#[trigger] self.player_states@[q]).cells.shaped(words, h)
                    && self.player_states@[q].fog.shaped(words, h) by {
                    if q != player_id {
                        assert(self.player_states@[q] == old_s.player_states@[q]);
                    }
                }
                assert(s2.pcells(player_id as int).words_per_row() == words);
                assert forall|c: int, r: int| old_s.in_grid(c, r) implies #[trigger] self.pcells(player_id as int).cell(c, r)
                    == ((old_s.pcells(player_id as int).cell(c, r) || pasted(src, dst_region, c, r))
                        && !(in_region_words(dst_region, c, r) && old_s.wall_cells.cell(c, r))) by {
                    assert(s2.pcells(player_id as int).cell(c, r) == (old_s.pcells(player_id as int).cell(c, r)
                        || pasted(src, dst_region, c, r)));
                }
                assert forall|c: int, r: int| old_s.in_grid(c, r) implies #[trigger] self.pfog(player_id as int).cell(c, r)
                    == (old_s.pfog(player_id as int).cell(c, r) && !(in_region_words(dst_region, c, r)
                        && self.pcells(player_id as int).cell(c, r))) by {
                    assert(s2.pfog(player_id as int) == old_s.pfog(player_id as int));
                }
            }
            // cells written for the player are no longer anyone else's
            let mut taken = BitGrid::new(words_e, h_e);
            let ghost t0 = taken;
            BitGrid::copy(src, &mut taken, dst_region);
            taken.clear_where_in_words(&self.wall_cells, dst_region);
            proof {
                assert forall|c: int, r: int| old_s.in_grid(c, r) implies
                    #[trigger] taken.cell(c, r) == lands(src, dst_region, &old_s.wall_cells, c, r) by {
                    assert(0 <= c / 64 < words) by (nonlinear_arith) requires 0 <= c < words * 64;
                    lemma_zero_word(c % 64);
                    assert(t0.word(r, c / 64) == 0);
                }
            }
            let ghost s4 = *self;
            let np = self.player_states.len();
            let mut q: usize = 0;
            while q < np
                invariant
                    old_s.valid(),
                    np == old_s.players(),
                    q <= np,
                    player_id < np,
                    words == old_s.words(),
                    h == old_s.rows(),
                    region_within(dst_region, words, h),
                    taken.shaped(words, h),
                    forall|c: int, r: int| old_s.in_grid(c, r) ==>
                        #[trigger] taken.cell(c, r) == lands(src, dst_region, &old_s.wall_cells, c, r),
                    *self == (GenState { player_states: self.player_states, ..s4 }),
                    self.player_states@.len() == np,
                    forall|x: int| 0 <= x < np ==> (#[trigger] s4.player_states@[x]).cells.shaped(words, h)
                        && s4.player_states@[x].fog.shaped(words, h),
                    forall|x: int| 0 <= x < np ==> (#[trigger] self.player_states@[x]).cells.shaped(words, h)
                        && self.player_states@[x].fog.shaped(words, h),
                    forall|x: int| 0 <= x < np && (x >= q || x == player_id) ==>
                        #[trigger] self.player_states@[x] == s4.player_states@[x],
                    forall|x: int| 0 <= x < np && x < q && x != player_id ==>
                        #[trigger] self.player_states@[x].fog == s4.player_states@[x].fog,
                    forall|x: int, c: int, r: int| 0 <= x < np && x < q && x != player_id && old_s.in_grid(c, r) ==>
                        #[trigger] self.pcells(x).cell(c, r) == (s4.pcells(x).cell(c, r) && !taken.cell(c, r)),
                decreases np - q,
            {
                let ghost before = *self;
                if q != player_id {
                    assert(self.player_states@[q as int].cells.shaped(words, h));
                    assert(self.player_states@[q as int].cells.0@[0]@.len() == words);
                    self.player_states[q].cells.clear_where_in_words(&taken, dst_region);
                    proof {
                        assert forall|x: int| 0 <= x < np && x != q implies
                            #[trigger] self.player_states@[x] == before.player_states@[x] by {}
                        assert(self.player_states@[q as int].fog == before.player_states@[q as int].fog);
                        assert forall|c: int, r: int| old_s.in_grid(c, r) implies #[trigger] self.pcells(q as int).cell(c, r)
                            == (s4.pcells(q as int).cell(c, r) && !taken.cell(c, r)) by {
                            assert(before.pcells(q as int) == s4.pcells(q as int));
                            if taken.cell(c, r) {
                                vstd::arithmetic::div_mod::lemma_div_is_ordered(dst_region.left_spec(), c, 64);
                                vstd::arithmetic::div_mod::lemma_div_is_ordered(c, dst_region.right_spec(), 64);
                            }
                        }
                    }
                }
                proof {
                    assert forall|x: int, c: int, r: int| 0 <= x < np && x < q + 1 && x != player_id && old_s.in_grid(c, r) implies
                        #[trigger] self.pcells(x).cell(c, r) == (s4.pcells(x).cell(c, r) && !taken.cell(c, r)) by {
                        if x != q {
                            assert(self.player_states@[x] == before.player_states@[x]);
                            assert(before.pcells(x).cell(c, r) == (s4.pcells(x).cell(c, r) && !taken.cell(c, r)));
                        }
                    }
                }
                q += 1;
            }
            proof {
                assert forall|x: int| 0 <= x < np && x != player_id implies
                    #[trigger] self.player_states@[x].fog == old_s.player_states@[x].fog by {
                    assert(s4.player_states@[x] == old_s.player_states@[x]);
                }
                assert forall|x: int, c: int, r: int| 0 <= x < np && x != player_id && old_s.in_grid(c, r) implies
                    #[trigger] self.pcells(x).cell(c, r) == (old_s.pcells(x).cell(c, r)
                        && !lands(src, dst_region, &old_s.wall_cells, c, r)) by {
                    assert(s4.player_states@[x] == old_s.player_states@[x]);
                }
            }
        }
        let ghost s3 = *self;
        assert(self.cells.0@[0]@.len() == words);
        self.cells.clear_where_in_words(&self.wall_cells, dst_region);
        proof {
            assert(self.player_states == s3.player_states);
            assert(old_s.player_states.len() == old_s.players());
            assert forall|p: int, c: int, r: int| 0 <= p < old_s.players() && old_s.in_grid(c, r) implies #[trigger] self.pcells(p).cell(c, r)
                == if opt_player_id == Some(p as usize) {
                    (old_s.pcells(p).cell(c, r) || pasted(src, dst_region, c, r))
                        && !(in_region_words(dst_region, c, r) && old_s.wall_cells.cell(c, r))
                } else if opt_player_id is Some {
                    old_s.pcells(p).cell(c, r) && !lands(src, dst_region, &old_s.wall_cells, c, r)
                } else {
                    old_s.pcells(p).cell(c, r)
                } by {
                assert(self.pcells(p).cell(c, r) == s3.pcells(p).cell(c, r));
                if opt_player_id is None {
                    assert(self.player_states@[p] == old_s.player_states@[p]);
                }
            }
            assert forall|p: int, c: int, r: int| 0 <= p < old_s.players() && old_s.in_grid(c, r) implies #[trigger] self.pfog(p).cell(c, r)
                == if opt_player_id == Some(p as usize) {
                    old_s.pfog(p).cell(c, r) && !(in_region_words(dst_region, c, r) && self.pcells(p).cell(c, r))
                } else {
                    old_s.pfog(p).cell(c, r)
                } by {
                assert(self.pfog(p).cell(c, r) == s3.pfog(p).cell(c, r));
                assert(self.pcells(p).cell(c, r) == s3.pcells(p).cell(c, r));
                if opt_player_id is None {
                    assert(self.player_states@[p] == old_s.player_states@[p]);
                } else if opt_player_id != Some(p as usize) {
                    assert(s3.player_states@[p].fog == old_s.player_states@[p].fog);
                }
            }
        }
    }

    /// Zeroes out all bit grids. Note: this means fog is cleared for all players.
    pub fn clear(&mut self)
        requires
            old(self).valid(),
        ensures
            old(self).same_frame(final(self)),
            forall|c: int, r: int| old(self).in_grid(c, r) ==> !#[trigger] final(self).cells.cell(c, r),
            forall|c: int, r: int| old(self).in_grid(c, r) ==> !#[trigger] final(self).known.cell(c, r),
            forall|c: int, r: int| old(self).in_grid(c, r) ==> !#[trigger] final(self).wall_cells.cell(c, r),
            forall|p: int, c: int, r: int| 0 <= p < old(self).players() && old(self).in_grid(c, r) ==>
                !#[trigger] final(self).pcells(p).cell(c, r),
            forall|p: int, c: int, r: int| 0 <= p < old(self).players() && old(self).in_grid(c, r) ==>
                !#[trigger] final(self).pfog(p).cell(c, r),
    {
        let ghost old_s = *self;
        let ghost words = self.words();
        let ghost h = self.rows();
        let region = Region::new(0, 0, self.width(), self.height());
        self.cells.modify_region(region, BitOperation::Clear);
        assert(self.known.0@[0]@.len() == words);
        self.known.modify_region(region, BitOperation::Clear);
        assert(self.wall_cells.0@[0]@.len() == words);
        self.wall_cells.modify_region(region, BitOperation::Clear);
        let np = self.player_states.len();
        let mut player_id: usize = 0;
        while player_id < np
            invariant
                np == old_s.players(),
                player_id <= np,
                old_s.valid(),
                words == old_s.words(),
                h == old_s.rows(),
                region.left_spec() == 0,
                region.top_spec() == 0,
                region.width_spec() == words * 64,
                region.height_spec() == h,
                old_s.gen_or_none == self.gen_or_none,
                self.players() == np,
                self.cells.shaped(words, h),
                self.known.shaped(words, h),
                self.wall_cells.shaped(words, h),
                forall|p: int| 0 <= p < np ==> (#[trigger] self.player_states@[p]).cells.shaped(words, h)
                    && self.player_states@[p].fog.shaped(words, h),
                forall|c: int, r: int| old_s.in_grid(c, r) ==> !#[trigger] self.cells.cell(c, r),
                forall|c: int, r: int| old_s.in_grid(c, r) ==> !#[trigger] self.known.cell(c, r),
                forall|c: int, r: int| old_s.in_grid(c, r) ==> !#[trigger] self.wall_cells.cell(c, r),
                forall|p: int, c: int, r: int| 0 <= p < player_id && old_s.in_grid(c, r) ==>
                    !#[trigger] self.pcells(p).cell(c, r),
                forall|p: int, c: int, r: int| 0 <= p < player_id && old_s.in_grid(c, r) ==>
                    !#[trigger] self.pfog(p).cell(c, r),
            decreases np - player_id,
        {
            let ghost before = *self;
            assert(self.player_states@[player_id as int].cells.0@[0]@.len() == words);
            assert(self.player_states@[player_id as int].fog.0@[0]@.len() == words);
            self.player_states[player_id].cells.modify_region(region, BitOperation::Clear);
            let ghost mid = *self;
            assert(mid.pfog(player_id as int) == before.pfog(player_id as int));
            self.player_states[player_id].fog.modify_region(region, BitOperation::Clear);
            proof {
                assert(self.pcells(player_id as int) == mid.pcells(player_id as int));
                assert forall|c: int, r: int| old_s.in_grid(c, r) implies region.contains_spec(c, r) by {}
                assert forall|q: int| 0 <= q < np && q != player_id implies #[trigger] self.player_states@[q] == before.player_states@[q] by {}
                assert forall|q: int| 0 <= q < np implies (#[trigger] self.player_states@[q]).cells.shaped(words, h)
                    && self.player_states@[q].fog.shaped(words, h) by {
                    if q != player_id {
                        assert(self.player_states@[q] == before.player_states@[q]);
                    }
                }
                assert forall|p: int, c: int, r: int| 0 <= p < player_id + 1 && old_s.in_grid(c, r) implies
                    !#[trigger] self.pcells(p).cell(c, r) by {
                    if p != player_id {
                        assert(self.player_states@[p] == before.player_states@[p]);
                        assert(!before.pcells(p).cell(c, r));
                    } else {
                        assert(!mid.pcells(p).cell(c, r));
                    }
                }
                assert forall|p: int, c: int, r: int| 0 <= p < player_id + 1 && old_s.in_grid(c, r) implies
                    !#[trigger] self.pfog(p).cell(c, r) by {
                    if p != player_id {
                        assert(self.player_states@[p] == before.player_states@[p]);
                        assert(!before.pfog(p).cell(c, r));
                    }
                }
            }
            player_id += 1;
        }
    }

    /// Copies every grid of this state into `dest` with an "or" (so `dest` is usually cleared
    /// first); cells beyond either state are left out. Each of `dest`'s players receives the
    /// cells and fog of the same player of this state.
    pub fn copy(&self, dest: &mut GenState)
        requires
            self.valid(),
            old(dest).valid(),
            old(dest).players() <= self.players(),
        ensures
            old(dest).same_frame(final(dest)),
            forall|c: int, r: int| old(dest).in_grid(c, r) ==> #[trigger] final(dest).cells.cell(c, r)
                == (old(dest).cells.cell(c, r) || (self.in_grid(c, r) && self.cells.cell(c, r))),
            forall|c: int, r: int| old(dest).in_grid(c, r) ==> #[trigger] final(dest).known.cell(c, r)
                == (old(dest).known.cell(c, r) || (self.in_grid(c, r) && self.known.cell(c, r))),
            forall|c: int, r: int| old(dest).in_grid(c, r) ==> #[trigger] final(dest).wall_cells.cell(c, r)
                == (old(dest).wall_cells.cell(c, r) || (self.in_grid(c, r) && self.wall_cells.cell(c, r))),
            forall|p: int, c: int, r: int| 0 <= p < old(dest).players() && old(dest).in_grid(c, r) ==>
                #[trigger] final(dest).pcells(p).cell(c, r) == (old(dest).pcells(p).cell(c, r) || (self.in_grid(c, r) && self.pcells(p).cell(c, r))),
            forall|p: int, c: int, r: int| 0 <= p < old(dest).players() && old(dest).in_grid(c, r) ==>
                #[trigger] final(dest).pfog(p).cell(c, r) == (old(dest).pfog(p).cell(c, r) || (self.in_grid(c, r) && self.pfog(p).cell(c, r))),
    {
        let ghost old_d = *dest;
        let ghost words = dest.words();
        let ghost h = dest.rows();
        let region = Region::new(0, 0, self.width(), self.height());
        proof {
            assert(self.cells.0@[0]@.len() == self.words());
            assert(self.known.0@[0]@.len() == self.words());
            assert(self.wall_cells.0@[0]@.len() == self.words());
            assert(dest.known.0@[0]@.len() == words);
            assert(dest.wall_cells.0@[0]@.len() == words);
        }
        BitGrid::copy(&self.cells, &mut dest.cells, region);
        BitGrid::copy(&self.known, &mut dest.known, region);
        BitGrid::copy(&self.wall_cells, &mut dest.wall_cells, region);
        let np = dest.player_states.len();
        let mut player_id: usize = 0;
        while player_id < np
            invariant
                np == old_d.players(),
                np <= self.players(),
                player_id <= np,
                self.valid(),
                old_d.valid(),
                words == old_d.words(),
                h == old_d.rows(),
                region.left_spec() == 0,
                region.top_spec() == 0,
                region.width_spec() == self.words() * 64,
                region.height_spec() == self.rows(),
                old_d.gen_or_none == dest.gen_or_none,
                dest.players() == np,
                dest.cells.shaped(words, h),
                dest.known.shaped(words, h),
                dest.wall_cells.shaped(words, h),
                forall|p: int| 0 <= p < np ==> (#[trigger] dest.player_states@[p]).cells.shaped(words, h)
                    && dest.player_states@[p].fog.shaped(words, h),
                forall|c: int, r: int| old_d.in_grid(c, r) ==> #[trigger] dest.cells.cell(c, r)
                    == (old_d.cells.cell(c, r) || (self.in_grid(c, r) && self.cells.cell(c, r))),
                forall|c: int, r: int| old_d.in_grid(c, r) ==> #[trigger] dest.known.cell(c, r)
                    == (old_d.known.cell(c, r) || (self.in_grid(c, r) && self.known.cell(c, r))),
                forall|c: int, r: int| old_d.in_grid(c, r) ==> #[trigger] dest.wall_cells.cell(c, r)
                    == (old_d.wall_cells.cell(c, r) || (self.in_grid(c, r) && self.wall_cells.cell(c, r))),
                forall|p: int, c: int, r: int| 0 <= p < np && old_d.in_grid(c, r) ==> #[trigger] dest.pcells(p).cell(c, r)
                    == if p < player_id {
                        old_d.pcells(p).cell(c, r) || (self.in_grid(c, r) && self.pcells(p).cell(c, r))
                    } else {
                        old_d.pcells(p).cell(c, r)
                    },
                forall|p: int, c: int, r: int| 0 <= p < np && old_d.in_grid(c, r) ==> #[trigger] dest.pfog(p).cell(c, r)
                    == if p < player_id {
                        old_d.pfog(p).cell(c, r) || (self.in_grid(c, r) && self.pfog(p).cell(c, r))
                    } else {
                        old_d.pfog(p).cell(c, r)
                    },
            decreases np - player_id,
        {
            let ghost before = *dest;
            assert(dest.player_states@[player_id as int].cells.0@[0]@.len() == words);
            assert(dest.player_states@[player_id as int].fog.0@[0]@.len() == words);
            assert(self.player_states@[player_id as int].cells.shaped(self.words(), self.rows()));
            assert(self.player_states@[player_id as int].fog.shaped(self.words(), self.rows()));
            assert(self.player_states@[player_id as int].cells.0@[0]@.len() == self.words());
            assert(self.player_states@[player_id as int].fog.0@[0]@.len() == self.words());
            BitGrid::copy(&self.player_states[player_id].cells, &mut dest.player_states[player_id].cells, region);
            let ghost mid = *dest;
            assert(mid.pfog(player_id as int) == before.pfog(player_id as int));
            BitGrid::copy(&self.player_states[player_id].fog, &mut dest.player_states[player_id].fog, region);
            proof {
                assert(dest.pcells(player_id as int) == mid.pcells(player_id as int));
                assert forall|q: int| 0 <= q < np && q != player_id implies #[trigger] dest.player_states@[q] == before.player_states@[q] by {}
                assert forall|q: int| 0 <= q < np implies (#[trigger] dest.player_states@[q]).cells.shaped(words, h)
                    && dest.player_states@[q].fog.shaped(words, h) by {
                    if q != player_id {
                        assert(dest.player_states@[q] == before.player_states@[q]);
                    }
                }
                assert forall|p: int, c: int, r: int| 0 <= p < np && old_d.in_grid(c, r) implies #[trigger] dest.pcells(p).cell(c, r)
                    == if p < player_id + 1 {
                        old_d.pcells(p).cell(c, r) || (self.in_grid(c, r) && self.pcells(p).cell(c, r))
                    } else {
                        old_d.pcells(p).cell(c, r)
                    } by {
                    if p != player_id {
                        assert(dest.player_states@[p] == before.player_states@[p]);
                        assert(dest.pcells(p).cell(c, r) == before.pcells(p).cell(c, r));
                    } else {
                        assert(dest.pcells(p).cell(c, r) == mid.pcells(p).cell(c, r));
                        assert(before.pcells(p).cell(c, r) == old_d.pcells(p).cell(c, r));
                        assert(self.pcells(p).in_grid(c, r) == self.in_grid(c, r));
                    }
                }
                assert forall|p: int, c: int, r: int| 0 <= p < np && old_d.in_grid(c, r) implies #[trigger] dest.pfog(p).cell(c, r)
                    == if p < player_id + 1 {
                        old_d.pfog(p).cell(c, r) || (self.in_grid(c, r) && self.pfog(p).cell(c, r))
                    } else {
                        old_d.pfog(p).cell(c, r)
                    } by {
                    if p != player_id {
                        assert(dest.player_states@[p] == before.player_states@[p]);
                        assert(dest.pfog(p).cell(c, r) == before.pfog(p).cell(c, r));
                    } else {
                        assert(mid.pfog(p).cell(c, r) == before.pfog(p).cell(c, r));
                        assert(before.pfog(p).cell(c, r) == old_d.pfog(p).cell(c, r));
                        assert(self.pfog(p).in_grid(c, r) == self.in_grid(c, r));
                    }
                }
            }
            player_id += 1;
        }
    }
}

/// Two generation states of the same shape, read together: the character of a cell is the
/// no-op character where both states show the same character, and the character of the second
/// state where they differ. This is what a difference pattern records.
pub struct GenStatePair<'a, 'b> {
    pub gen_state0: &'a GenState,
    pub gen_state1: &'b GenState,
}

impl<'a, 'b> GenStatePair<'a, 'b> {
    /// Both states are valid, of one shape and with one number of players.
    pub open spec fn valid(&self) -> bool {
        &&& self.gen_state0.valid()
        &&& self.gen_state1.valid()
        &&& self.gen_state1.words() == self.gen_state0.words()
        &&& self.gen_state1.rows() == self.gen_state0.rows()
        &&& self.gen_state1.players() == self.gen_state0.players()
    }

    /// Width in cells, as a number.
    pub open spec fn width_spec(&self) -> int {
        (self.gen_state0.words() * 64) as int
    }

    /// Every cell of row `r` from column `c` on can be shown as a character in both states.
    pub open spec fn row_chars_ok(&self, visibility: Option<usize>, c: int, r: int) -> bool {
        forall|i: int| c <= i < self.width_spec() ==> has_char(#[trigger] self.gen_state0.run_state(visibility, i, r))
            && has_char(self.gen_state1.run_state(visibility, i, r))
    }

    /// The character of cell `(c, r)`: no-op where both states show the same character, the
    /// second state's character elsewhere.
    pub open spec fn pair_char(&self, visibility: Option<usize>, c: int, r: int) -> char {
        let ch0 = cell_char(self.gen_state0.run_state(visibility, c, r));
        let ch1 = cell_char(self.gen_state1.run_state(visibility, c, r));
        if ch0 == ch1 { NO_OP_CHAR } else { ch1 }
    }

    /// The shorter of the two states' runs from `(c, r)`.
    pub open spec fn step(&self, visibility: Option<usize>, c: int, r: int) -> int {
        vstd::math::min(self.gen_state0.run_length(visibility, c, r), self.gen_state1.run_length(visibility, c, r))
    }

    /// How far, from `(c, r)`, the steps over cells whose characters agree reach before a step
    /// that starts at a differing cell or at the end of the row.
    pub open spec fn same_extent(&self, visibility: Option<usize>, c: int, r: int) -> int
        decreases self.width_spec() - c,
    {
        if c >= self.width_spec() || self.pair_char(visibility, c, r) != NO_OP_CHAR
            || self.step(visibility, c, r) < 1 || c + self.step(visibility, c, r) > self.width_spec() {
            0
        } else {
            self.step(visibility, c, r) + self.same_extent(visibility, c + self.step(visibility, c, r), r)
        }
    }

    /// The run reported from `(c, r)`: one step where the states differ, otherwise all the
    /// steps over agreeing cells.
    pub open spec fn pair_run(&self, visibility: Option<usize>, c: int, r: int) -> int {
        if self.pair_char(visibility, c, r) != NO_OP_CHAR {
            self.step(visibility, c, r)
        } else {
            self.same_extent(visibility, c, r)
        }
    }

    /// The step from `(c, r)` is not empty, ends within the row, and both states keep their
    /// state over it, so every cell of it has the character of the first.
    pub proof fn lemma_step(&self, visibility: Option<usize>, c: int, r: int)
        requires
            self.valid(),
            self.gen_state0.in_grid(c, r),
            visibility matches Some(q) ==> q < self.gen_state0.players(),
        ensures
            1 <= self.step(visibility, c, r),
            c + self.step(visibility, c, r) <= self.width_spec(),
            forall|i: int| c <= i < c + self.step(visibility, c, r) ==>
                #[trigger] self.pair_char(visibility, i, r) == self.pair_char(visibility, c, r),
    {
        self.gen_state0.lemma_run_length(visibility, c, r);
        self.gen_state1.lemma_run_length(visibility, c, r);
        assert forall|i: int| c <= i < c + self.step(visibility, c, r) implies
            #[trigger] self.pair_char(visibility, i, r) == self.pair_char(visibility, c, r) by {
            assert(self.gen_state0.run_state(visibility, i, r) == self.gen_state0.run_state(visibility, c, r));
            assert(self.gen_state1.run_state(visibility, i, r) == self.gen_state1.run_state(visibility, c, r));
        }
    }

    /// The steps over agreeing cells from `(c, r)` stay within the row, and every cell they
    /// cover is a no-op cell.
    pub proof fn lemma_same_extent(&self, visibility: Option<usize>, c: int, r: int)
        requires
            self.valid(),
            0 <= c,
            0 <= r < self.gen_state0.rows(),
            visibility matches Some(q) ==> q < self.gen_state0.players(),
        ensures
            c < self.width_spec() && self.pair_char(visibility, c, r) == NO_OP_CHAR ==>
                1 <= self.same_extent(visibility, c, r),
            c + self.same_extent(visibility, c, r) <= self.width_spec() || self.same_extent(visibility, c, r) == 0,
            forall|i: int| c <= i < c + self.same_extent(visibility, c, r) ==>
                #[trigger] self.pair_char(visibility, i, r) == NO_OP_CHAR,
        decreases self.width_spec() - c,
    {
        if c < self.width_spec() && self.pair_char(visibility, c, r) == NO_OP_CHAR {
            self.lemma_step(visibility, c, r);
            let st = self.step(visibility, c, r);
            self.lemma_same_extent(visibility, c + st, r);
        }
    }

    /// The run reported from `(c, r)` is not empty, ends within the row, and every cell of it
    /// has the character of the first.
    pub proof fn lemma_pair_run(&self, visibility: Option<usize>, c: int, r: int)
        requires
            self.valid(),
            self.gen_state0.in_grid(c, r),
            visibility matches Some(q) ==> q < self.gen_state0.players(),
        ensures
            1 <= self.pair_run(visibility, c, r),
            c + self.pair_run(visibility, c, r) <= self.width_spec(),
            forall|i: int| c <= i < c + self.pair_run(visibility, c, r) ==>
                #[trigger] self.pair_char(visibility, i, r) == self.pair_char(visibility, c, r),
    {
        self.lemma_step(visibility, c, r);
        self.lemma_same_extent(visibility, c, r);
    }

    /// Width in cells.
    pub fn width(&self) -> (w: usize)
        requires
            self.valid(),
        ensures
            w == self.width_spec(),
    {
        self.gen_state0.width()
    }

    /// Height in cells.
    pub fn height(&self) -> (h: usize)
        ensures
            h == self.gen_state0.rows(),
    {
        self.gen_state0.height()
    }

    /// Whether `ch` may appear in a difference pattern.
    pub fn is_valid(ch: char) -> (r: bool)
        ensures
            r == (ch == 'o' || ch == 'b' || ('A' <= ch <= 'W') || ch == '?' || ch == NO_OP_CHAR),
    {
        if ch == NO_OP_CHAR {
            return true;
        }
        GenState::is_valid(ch)
    }

    /// Given a starting cell at `(col, row)`, gets the character of that cell (see `pair_char`)
    /// and the number of cells, starting there and going right, reported with it (see
    /// `pair_run`); all of them have that character. This is intended for exporting to RLE.
    pub fn get_run(&self, col: usize, row: usize, visibility: Option<usize>) -> (res: (usize, char))
        requires
            self.valid(),
            self.gen_state0.in_grid(col as int, row as int),
            visibility matches Some(p) ==> p < self.gen_state0.players(),
            self.row_chars_ok(visibility, col as int, row as int),
        ensures
            res.1 == self.pair_char(visibility, col as int, row as int),
            res.0 == self.pair_run(visibility, col as int, row as int),
            1 <= res.0,
            col + res.0 <= self.width_spec(),
            forall|i: int| col <= i < col + res.0 ==> #[trigger] self.pair_char(visibility, i, row as int) == res.1,
    {
        let width = self.width();
        let (run0, ch0) = self.gen_state0.get_run(col, row, visibility);
        let (run1, ch1) = self.gen_state1.get_run(col, row, visibility);
        let ch = if ch0 == ch1 { NO_OP_CHAR } else { ch1 };
        let mut run = if run0 < run1 { run0 } else { run1 };
        if ch != NO_OP_CHAR {
            return (run, ch);
        }
        let ghost start = col as int;
        let ghost r = row as int;
        let mut cur = col;
        let mut total_run = run;
        proof {
            assert(self.same_extent(visibility, start, r) == run + self.same_extent(visibility, start + run, r));
        }
        loop
            invariant
                self.valid(),
                width == self.width_spec(),
                start == col,
                start <= cur < width,
                r == row,
                row < self.gen_state0.rows(),
                visibility matches Some(p) ==> p < self.gen_state0.players(),
                self.row_chars_ok(visibility, start, r),
                1 <= run,
                cur + run <= width,
                run == self.step(visibility, cur as int, r),
                self.pair_char(visibility, cur as int, r) == NO_OP_CHAR,
                total_run == cur + run - start,
                self.same_extent(visibility, start, r) == total_run + self.same_extent(visibility, cur + run, r),
                forall|i: int| start <= i < cur + run ==> #[trigger] self.pair_char(visibility, i, r) == NO_OP_CHAR,
            ensures
                start + total_run <= width,
                1 <= total_run,
                total_run == self.same_extent(visibility, start, r),
                forall|i: int| start <= i < start + total_run ==> #[trigger] self.pair_char(visibility, i, r) == NO_OP_CHAR,
            decreases width - cur,
        {
            let next = cur + run;
            if next >= width {
                break;
            }
            let (run0, ch0) = self.gen_state0.get_run(next, row, visibility);
            let (run1, ch1) = self.gen_state1.get_run(next, row, visibility);
            if ch0 != ch1 {
                break;
            }
            assert(total_run == next - start);
            cur = next;
            run = if run0 < run1 { run0 } else { run1 };
            assert(cur + run <= width);
            proof {
                assert forall|i: int| cur <= i < cur + run implies #[trigger] self.pair_char(visibility, i, r) == NO_OP_CHAR by {
                    assert(self.gen_state0.run_state(visibility, i, r) == self.gen_state0.run_state(visibility, cur as int, r));
                    assert(self.gen_state1.run_state(visibility, i, r) == self.gen_state1.run_state(visibility, cur as int, r));
                }
            }
            total_run += run;
        }
        (total_run, ch)
    }
}

/// The changes from one generation to a later one, as a difference pattern.
#[derive(Debug, Clone)]
pub struct GenStateDiff {
    pub gen0: usize,
    pub gen1: usize,
    pub pattern: Pattern,
}

impl GenState {
    /// Creates a difference pattern showing the changes present in `new`, using `self` as the
    /// base (see `GenStatePair`). If `visibility` is not `None`, only the changes visible to the
    /// given player are recorded. The generations of the result are those of `self` and `new`.
    pub fn diff(&self, new: &GenState, visibility: Option<usize>) -> (d: GenStateDiff)
        requires
            self.valid(),
            new.valid(),
            new.words() == self.words(),
            new.rows() == self.rows(),
            new.players() == self.players(),
            self.gen_or_none is Some,
            new.gen_or_none is Some,
            visibility matches Some(p) ==> p < self.players(),
            (GenStatePair { gen_state0: self, gen_state1: new }).chars_ok(visibility),
        ensures
            d.gen0 == self.gen_or_none->0,
            d.gen1 == new.gen_or_none->0,
            d.pattern.0@ == pattern_text(pair_runs((GenStatePair { gen_state0: self, gen_state1: new }), visibility),
                (self.words() * 64) as int, self.rows() as int, false),
            decode(d.pattern.0@, (self.words() * 64) as int, self.rows() as int, true).error == 0,
            forall|x: int, y: int| self.in_grid(x, y) ==>
                #[trigger] run_char_at(decode(d.pattern.0@, (self.words() * 64) as int, self.rows() as int, true).runs, x, y)
                == if cell_char(self.run_state(visibility, x, y)) == cell_char(new.run_state(visibility, x, y)) {
                    None
                } else {
                    Some(cell_char(new.run_state(visibility, x, y)))
                },
    {
        proof {
            lemma_diff_writes_changes(self, new, visibility);
        }
        let self_gen = self.gen_or_none.unwrap();
        let new_gen = new.gen_or_none.unwrap();
        let pair = GenStatePair { gen_state0: self, gen_state1: new };
        let pattern = pair.to_pattern(visibility);
        GenStateDiff { gen0: self_gen, gen1: new_gen, pattern }
    }
}

} // verus!
