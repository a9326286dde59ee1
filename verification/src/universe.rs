use vstd::prelude::*;
use crate::bit_grid::{BitGrid, BitOperation, apply_op_bit, cell_after, lemma_single_cell_update, lemma_zero_word, lemma_mask_test,
    region_within};
use crate::bitwise::bit_at;
use crate::cell_state::{CellState, cell_char, has_char};
use crate::fog::{MAX_FOG_RADIUS, fog_circle_bitmap, is_fog_circle, fog_cleared, low_bit, in_circle_around,
    lemma_fog_cleared_in_circle, lemma_fog_cleared_near_bit};
use crate::gen_state::{GenState, GenStateDiff, GenStatePair, PlayerGenState};
use crate::rle::{decode, decode_error_message, digits, push_char, push_digits, run_char_at, runs_writable, pattern_text,
    pair_runs, diff_round_trips, same_bits, lemma_diff_round_trip};
use crate::region::Region;
use crate::bitwise::{life_rule, neighbor_count, any_in_block, all_in_block, life_word, block_and_word, block_or_word,
    lemma_life_word, lemma_block_words, lemma_bool_ops};
use crate::life::{next_cells_word, claim_word, seen_word, multi_word, owner_word, is_next_state, next_owned, life_word_at,
    block_and_at, block_or_at, nrow, srow, wcol, ecol, lemma_next_words, lemma_claim_counting, lemma_wrap_index};

verus! {

/// The largest width or height, in cells, of a universe.
pub const MAX_DIM: usize = 0x4000_0000;

/// Player builder: each player provides their details through it.
pub struct PlayerBuilder {
    writable_region: Region,
}

impl PlayerBuilder {
    /// The region this player may write to.
    pub closed spec fn region_spec(&self) -> Region {
        self.writable_region
    }

    /// Returns a new PlayerBuilder.
    pub fn new(region: Region) -> (p: PlayerBuilder)
        ensures
            p.region_spec() == region,
    {
        PlayerBuilder { writable_region: region }
    }
}

/// Builder paradigm to create `Universe` structs with default values.
pub struct BigBang {
    width: usize,
    height: usize,
    is_server: bool,
    history: usize,
    num_players: usize,
    player_writable: Vec<Region>,
    fog_radius: usize,
}

impl BigBang {
    pub closed spec fn width_spec(&self) -> nat { self.width as nat }
    pub closed spec fn height_spec(&self) -> nat { self.height as nat }
    pub closed spec fn is_server_spec(&self) -> bool { self.is_server }
    pub closed spec fn history_spec(&self) -> nat { self.history as nat }
    pub closed spec fn num_players_spec(&self) -> nat { self.num_players as nat }
    pub closed spec fn fog_radius_spec(&self) -> nat { self.fog_radius as nat }
    /// The writable regions of the players added so far, in order.
    pub closed spec fn writable_spec(&self) -> Seq<Region> { self.player_writable@ }

    /// The number of players always matches the number of writable regions.
    pub closed spec fn wf(&self) -> bool {
        self.num_players == self.player_writable@.len()
    }

    /// `new` has the same settings as `self`, except possibly those named by the caller.
    pub open spec fn same_players(&self, new: &BigBang) -> bool {
        &&& new.wf()
        &&& new.num_players_spec() == self.num_players_spec()
        &&& new.writable_spec() == self.writable_spec()
    }

    /// Creates and returns a new builder: 256 by 128 cells, server mode, 16 generations of
    /// history, no players, fog radius 6.
    pub fn new() -> (b: BigBang)
        ensures
            b.wf(),
            b.width_spec() == 256,
            b.height_spec() == 128,
            b.is_server_spec(),
            b.history_spec() == 16,
            b.num_players_spec() == 0,
            b.writable_spec() == Seq::<Region>::empty(),
            b.fog_radius_spec() == 6,
    {
        BigBang {
            width: 256,
            height: 128,
            is_server: true,
            history: 16,
            num_players: 0,
            player_writable: Vec::new(),
            fog_radius: 6,
        }
    }

    /// Update the total number of columns for this Universe.
    pub fn width(self, new_width: usize) -> (b: BigBang)
        requires
            self.wf(),
        ensures
            self.same_players(&b),
            b.width_spec() == new_width,
            b.height_spec() == self.height_spec(),
            b.is_server_spec() == self.is_server_spec(),
            b.history_spec() == self.history_spec(),
            b.fog_radius_spec() == self.fog_radius_spec(),
    {
        BigBang { width: new_width, ..self }
    }

    /// Update the total number of rows for this Universe.
    pub fn height(self, new_height: usize) -> (b: BigBang)
        requires
            self.wf(),
        ensures
            self.same_players(&b),
            b.width_spec() == self.width_spec(),
            b.height_spec() == new_height,
            b.is_server_spec() == self.is_server_spec(),
            b.history_spec() == self.history_spec(),
            b.fog_radius_spec() == self.fog_radius_spec(),
    {
        BigBang { height: new_height, ..self }
    }

    /// Determines whether we are running a Server (`true`) or a Client (`false`).
    pub fn server_mode(self, is_server: bool) -> (b: BigBang)
        requires
            self.wf(),
        ensures
            self.same_players(&b),
            b.width_spec() == self.width_spec(),
            b.height_spec() == self.height_spec(),
            b.is_server_spec() == is_server,
            b.history_spec() == self.history_spec(),
            b.fog_radius_spec() == self.fog_radius_spec(),
    {
        BigBang { is_server, ..self }
    }

    /// This records the number of generations that will be buffered.
    pub fn history(self, history_depth: usize) -> (b: BigBang)
        requires
            self.wf(),
        ensures
            self.same_players(&b),
            b.width_spec() == self.width_spec(),
            b.height_spec() == self.height_spec(),
            b.is_server_spec() == self.is_server_spec(),
            b.history_spec() == history_depth,
            b.fog_radius_spec() == self.fog_radius_spec(),
    {
        BigBang { history: history_depth, ..self }
    }

    /// Updates the fog to a new visibility radius.
    pub fn fog_radius(self, new_radius: usize) -> (b: BigBang)
        requires
            self.wf(),
        ensures
            self.same_players(&b),
            b.width_spec() == self.width_spec(),
            b.height_spec() == self.height_spec(),
            b.is_server_spec() == self.is_server_spec(),
            b.history_spec() == self.history_spec(),
            b.fog_radius_spec() == new_radius,
    {
        BigBang { fog_radius: new_radius, ..self }
    }

    /// Adds a single player to the list of players. Each player provides their details through
    /// the PlayerBuilder.
    pub fn add_player(self, new_player: PlayerBuilder) -> (b: BigBang)
        requires
            self.wf(),
            self.num_players_spec() < usize::MAX,
        ensures
            b.wf(),
            b.num_players_spec() == self.num_players_spec() + 1,
            b.writable_spec() == self.writable_spec().push(new_player.region_spec()),
            b.width_spec() == self.width_spec(),
            b.height_spec() == self.height_spec(),
            b.is_server_spec() == self.is_server_spec(),
            b.history_spec() == self.history_spec(),
            b.fog_radius_spec() == self.fog_radius_spec(),
    {
        let mut b = self;
        b.num_players = b.num_players + 1;
        b.player_writable.push(new_player.writable_region);
        b
    }

    /// Adds a vector of players using `add_player`.
    pub fn add_players(self, new_player_list: Vec<PlayerBuilder>) -> (b: BigBang)
        requires
            self.wf(),
            self.num_players_spec() + new_player_list@.len() <= usize::MAX,
        ensures
            b.wf(),
            b.num_players_spec() == self.num_players_spec() + new_player_list@.len(),
            b.writable_spec() == self.writable_spec() + new_player_list@.map_values(|p: PlayerBuilder| p.region_spec()),
            b.width_spec() == self.width_spec(),
            b.height_spec() == self.height_spec(),
            b.is_server_spec() == self.is_server_spec(),
            b.history_spec() == self.history_spec(),
            b.fog_radius_spec() == self.fog_radius_spec(),
    {
        let ghost orig = self;
        let ghost list = new_player_list@;
        let mut b = self;
        let mut i: usize = 0;
        while i < new_player_list.len()
            invariant
                orig.wf(),
                b.wf(),
                list == new_player_list@,
                i <= list.len(),
                orig.num_players_spec() + list.len() <= usize::MAX,
                b.num_players_spec() == orig.num_players_spec() + i,
                b.writable_spec() == orig.writable_spec() + list.subrange(0, i as int).map_values(|p: PlayerBuilder| p.region_spec()),
                b.width_spec() == orig.width_spec(),
                b.height_spec() == orig.height_spec(),
                b.is_server_spec() == orig.is_server_spec(),
                b.history_spec() == orig.history_spec(),
                b.fog_radius_spec() == orig.fog_radius_spec(),
            decreases list.len() - i,
        {
            let player = PlayerBuilder { writable_region: new_player_list[i].writable_region };
            b = b.add_player(player);
            proof {
                assert(list.subrange(0, i + 1).map_values(|p: PlayerBuilder| p.region_spec())
                    =~= list.subrange(0, i as int).map_values(|p: PlayerBuilder| p.region_spec()).push(list[i as int].region_spec()));
            }
            i += 1;
        }
        proof {
            assert(list.subrange(0, list.len() as int) =~= list);
        }
        b
    }

    /// "Gives life to the universe and the first moment of time."
    /// Creates a Universe which can then process generations; see `Universe::new` for the
    /// errors.
    pub fn birth(&self) -> (res: Result<Universe, String>)
        requires
            self.wf(),
            new_error(self.width_spec() as int, self.height_spec() as int, self.history_spec() as int,
                self.fog_radius_spec() as int) is None ==> {
                &&& self.width_spec() <= MAX_DIM
                &&& self.height_spec() <= MAX_DIM
                &&& self.fog_radius_spec() <= MAX_FOG_RADIUS
            },
        ensures
            match new_error(self.width_spec() as int, self.height_spec() as int, self.history_spec() as int,
                self.fog_radius_spec() as int) {
                Some(msg) => res matches Err(e) && e@ == msg,
                None => res matches Ok(u) && {
                    &&& u.wf()
                    &&& u.width_spec() == self.width_spec()
                    &&& u.height_spec() == self.height_spec()
                    &&& u.history_spec() == self.history_spec()
                    &&& u.num_players_spec() == self.num_players_spec()
                    &&& u.fog_radius_spec() == self.fog_radius_spec()
                    &&& u.generation_spec() == 1
                    &&& u.state_index_spec() == 0
                    &&& forall|p: int| 0 <= p < self.num_players_spec() ==> #[trigger] u.writable_spec(p) == self.writable_spec()[p]
                    &&& forall|i: int| 0 <= i < self.history_spec() ==>
                        #[trigger] u.is_initial_state(i, self.is_server_spec(), self.writable_spec())
                },
            },
    {
        let mut writable: Vec<Region> = Vec::new();
        let mut i: usize = 0;
        while i < self.player_writable.len()
            invariant
                i <= self.player_writable@.len(),
                writable@ == self.player_writable@.subrange(0, i as int),
            decreases self.player_writable@.len() - i,
        {
            writable.push(self.player_writable[i]);
            i += 1;
        }
        proof {
            assert(self.player_writable@.subrange(0, self.player_writable@.len() as int) =~= self.player_writable@);
        }
        Universe::new(
            self.width,
            self.height,
            self.is_server,
            self.history,
            self.num_players,
            writable,
            self.fog_radius,
        )
    }
}

/// Represents a wrapping universe in Conway's game of life.
pub struct Universe {
    width: usize,
    height: usize,
    /// Width in u64 elements, _not_ width in cells!
    width_in_words: usize,
    /// Current generation (1-based).
    generation: usize,
    /// Number of players in the game (player numbers are 0-based).
    num_players: usize,
    /// Index of the GenState for the current generation within gen_states.
    state_index: usize,
    /// Circular buffer of generational states.
    gen_states: Vec<GenState>,
    /// Writable region (indexed by player_id).
    player_writable: Vec<Region>,
    fog_radius: usize,
    fog_circle: BitGrid,
}

impl Universe {
    pub closed spec fn width_spec(&self) -> nat {
        self.width as nat
    }

    pub closed spec fn height_spec(&self) -> nat {
        self.height as nat
    }

    pub closed spec fn words_spec(&self) -> nat {
        self.width_in_words as nat
    }

    pub closed spec fn generation_spec(&self) -> nat {
        self.generation as nat
    }

    pub closed spec fn num_players_spec(&self) -> nat {
        self.num_players as nat
    }

    pub closed spec fn history_spec(&self) -> nat {
        self.gen_states@.len()
    }

    pub closed spec fn state_index_spec(&self) -> nat {
        self.state_index as nat
    }

    pub closed spec fn fog_radius_spec(&self) -> nat {
        self.fog_radius as nat
    }

    /// The writable region of player `p`.
    pub closed spec fn writable_spec(&self, p: int) -> Region {
        self.player_writable@[p]
    }

    /// The generation state stored at index `i` of the circular buffer.
    pub closed spec fn gen_state_spec(&self, i: int) -> GenState {
        self.gen_states@[i]
    }

    /// The state of the latest generation.
    pub open spec fn cur(&self) -> GenState {
        self.gen_state_spec(self.state_index_spec() as int)
    }

    /// Whether `(col, row)` is a cell of the universe.
    pub open spec fn in_grid(&self, col: int, row: int) -> bool {
        0 <= col < self.width_spec() && 0 <= row < self.height_spec()
    }

    /// The fog circle bitmap of this universe.
    pub closed spec fn fog_circle_spec(&self) -> BitGrid {
        self.fog_circle
    }

    /// The internal consistency of a universe.
    pub closed spec fn wf(&self) -> bool {
        &&& 0 < self.width_in_words
        &&& self.width == self.width_in_words * 64
        &&& self.width <= MAX_DIM
        &&& 0 < self.height <= MAX_DIM
        &&& 1 <= self.fog_radius <= MAX_FOG_RADIUS
        &&& is_fog_circle(&self.fog_circle, self.fog_radius as int)
        &&& 1 <= self.generation
        &&& 0 < self.gen_states@.len()
        &&& self.state_index < self.gen_states@.len()
        &&& self.num_players <= self.player_writable@.len()
        &&& forall|i: int| 0 <= i < self.gen_states@.len() ==> {
            &&& (#[trigger] self.gen_states@[i]).has_shape(self.width_in_words as nat, self.height as nat)
            &&& self.gen_states@[i].players() == self.num_players
        }
        &&& self.gen_states@[self.state_index as int].gen_or_none == Some(self.generation)
    }

    /// The universe is consistent, and its latest state is a valid generation state of the
    /// universe's shape.
    pub proof fn lemma_wf_cur(&self)
        requires
            self.wf(),
        ensures
            self.cur().valid(),
            self.cur().words() == self.words_spec(),
            self.cur().rows() == self.height_spec(),
            self.width_spec() == self.words_spec() * 64,
            self.cur().players() == self.num_players_spec(),
            forall|c: int, r: int| self.in_grid(c, r) <==> self.cur().in_grid(c, r),
            0 < self.words_spec(),
            0 < self.height_spec(),
            1 <= self.fog_radius_spec() <= MAX_FOG_RADIUS,
            is_fog_circle(&self.fog_circle_spec(), self.fog_radius_spec() as int),
    {
        let g = self.gen_states@[self.state_index as int];
        assert(g.has_shape(self.width_in_words as nat, self.height as nat));
        assert(g.cells.0@[0]@.len() == self.width_in_words);
    }
}

impl Universe {
    /// In a freshly created universe (see `Universe::new`), every cell is dead for everyone;
    /// `each_non_dead` sees, with no observer, nothing on a server and fog everywhere on a
    /// client, and, as player `p`, fog exactly outside the player's writable region on a server
    /// and fog everywhere on a client.
    pub proof fn lemma_new_universe_views(&self, is_server: bool, player_writable: Seq<Region>)
        requires
            self.wf(),
            self.state_index_spec() == 0,
            self.is_initial_state(0, is_server, player_writable),
        ensures
            self.generation_spec() == 1,
            forall|c: int, r: int| self.in_grid(c, r) ==> #[trigger] self.cell_state_of(c, r, None) == CellState::Dead,
            forall|p: int, c: int, r: int| 0 <= p < self.num_players_spec() && self.in_grid(c, r) ==>
                #[trigger] self.cell_state_of(c, r, Some(p as usize)) == CellState::Dead,
            forall|c: int, r: int| self.in_grid(c, r) ==> #[trigger] self.cur().cell_view(None, c, r)
                == if is_server { CellState::Dead } else { CellState::Fog },
            forall|p: int, c: int, r: int| 0 <= p < self.num_players_spec() && self.in_grid(c, r) ==>
                #[trigger] self.cur().cell_view(Some(p as usize), c, r)
                == if is_server && player_writable[p].contains_spec(c, r) { CellState::Dead } else { CellState::Fog },
    {
        self.lemma_wf_cur();
        assert(self.cur() == self.gen_state_spec(0));
        assert forall|p: int, c: int, r: int| 0 <= p < self.num_players_spec() && self.in_grid(c, r) implies
            #[trigger] self.cur().cell_view(Some(p as usize), c, r)
            == if is_server && player_writable[p].contains_spec(c, r) { CellState::Dead } else { CellState::Fog } by {
            assert(!self.cur().cells.cell(c, r));
            assert(!self.cur().pcells(p).cell(c, r));
            assert(self.cur().pfog(p).cell(c, r) == !player_writable[p].contains_spec(c, r));
        }
    }
}

/// `g` is the state at buffer index `i` of a freshly created universe of `words` words by
/// `height` rows with `np` players.
pub open spec fn initial_state_ok(
    g: GenState,
    i: int,
    words: nat,
    height: nat,
    is_server: bool,
    np: nat,
    player_writable: Seq<Region>,
) -> bool {
    &&& g.has_shape(words, height)
    &&& g.players() == np
    &&& g.gen_or_none == if i == 0 { Some(1usize) } else { None }
    &&& forall|c: int, r: int| 0 <= c < words * 64 && 0 <= r < height ==> {
        &&& !(#[trigger] g.cells.cell(c, r))
        &&& !g.wall_cells.cell(c, r)
        &&& g.known.cell(c, r) == (is_server && i == 0)
    }
    &&& forall|p: int, c: int, r: int| 0 <= p < np && 0 <= c < words * 64 && 0 <= r < height ==> {
        &&& !(#[trigger] g.pcells(p).cell(c, r))
        &&& g.pfog(p).cell(c, r) == !player_writable[p].contains_spec(c, r)
    }
}

/// A column of a row of `words` words lies in word `col / 64`, at offset `col % 64`.
pub proof fn lemma_col_word(col: int, words: nat)
    requires
        0 <= col < words * 64,
    ensures
        0 <= col / 64 < words,
        0 <= col % 64 < 64,
        (col / 64) * 64 + col % 64 == col,
{
    assert(0 <= col / 64 < words) by (nonlinear_arith) requires 0 <= col < words * 64;
}

/// Why a universe cannot be created from the given parameters, if it cannot.
pub open spec fn new_error(width: int, height: int, history: int, fog_radius: int) -> Option<Seq<char>> {
    if height == 0 {
        Some("Height must be positive"@)
    } else if width % 64 != 0 {
        Some("Width must be a multiple of 64"@)
    } else if width == 0 {
        Some("Width must be positive"@)
    } else if history == 0 {
        Some("History must be positive"@)
    } else if fog_radius == 0 {
        Some("Fog radius must be positive"@)
    } else {
        None
    }
}

impl Universe {
    /// The state at buffer index `i` of a freshly created universe.
    pub open spec fn is_initial_state(&self, i: int, is_server: bool, player_writable: Seq<Region>) -> bool {
        initial_state_ok(self.gen_state_spec(i), i, self.words_spec(), self.height_spec(), is_server,
            self.num_players_spec(), player_writable)
    }

    /// Builds the state for buffer index `i` of a new universe.
    fn initial_gen_state(
        i: usize,
        width: usize,
        height: usize,
        is_server: bool,
        num_players: usize,
        player_writable: &Vec<Region>,
    ) -> (g: GenState)
        requires
            0 < width <= MAX_DIM,
            width % 64 == 0,
            0 < height <= MAX_DIM,
            num_players <= player_writable@.len(),
        ensures
            initial_state_ok(g, i as int, (width / 64) as nat, height as nat, is_server, num_players as nat,
                player_writable@),
    {
        let width_in_words = width / 64;
        let ghost words = width_in_words as nat;
        let mut player_states: Vec<PlayerGenState> = Vec::new();
        let mut player_id: usize = 0;
        while player_id < num_players
            invariant
                0 < width <= MAX_DIM,
                width == width_in_words * 64,
                words == width_in_words,
                0 < height <= MAX_DIM,
                num_players <= player_writable@.len(),
                player_id <= num_players,
                player_states@.len() == player_id,
                forall|p: int| 0 <= p < player_id ==> (#[trigger] player_states@[p]).cells.shaped(words, height as nat)
                    && player_states@[p].fog.shaped(words, height as nat),
                forall|p: int, c: int, r: int| 0 <= p < player_id && 0 <= c < width && 0 <= r < height ==> {
                    &&& !(#[trigger] player_states@[p].cells.cell(c, r))
                    &&& player_states@[p].fog.cell(c, r) == !player_writable@[p].contains_spec(c, r)
                },
            decreases num_players - player_id,
        {
            let cells = BitGrid::new(width_in_words, height);
            let mut fog = BitGrid::new(width_in_words, height);
            let ghost fog0 = fog;
            fog.modify_region(Region::new(0, 0, width, height), BitOperation::SetBit);
            let ghost fog1 = fog;
            // unless writable region, the whole grid is player fog
            fog.modify_region(player_writable[player_id], BitOperation::Clear);
            proof {
                assert forall|c: int, r: int| 0 <= c < width && 0 <= r < height implies
                    !cells.cell(c, r) && fog.cell(c, r) == !player_writable@[player_id as int].contains_spec(c, r) by {
                    lemma_col_word(c, words);
                    assert(fog0.in_grid(c, r));
                    assert(fog1.in_grid(c, r));
                    lemma_zero_word(c % 64);
                }
            }
            player_states.push(PlayerGenState { cells, fog });
            player_id += 1;
        }

        // Known cells describe what the current operative (player, server) visibility reaches.
        // A server has total visibility as it needs to know all.
        let mut known = BitGrid::new(width_in_words, height);
        if is_server && i == 0 {
            let mut y: usize = 0;
            while y < height
                invariant
                    0 < height <= MAX_DIM,
                    width == width_in_words * 64,
                    words == width_in_words,
                    y <= height,
                    known.shaped(words, height as nat),
                    forall|r: int, c: int| 0 <= r < height && 0 <= c < width_in_words ==>
                        #[trigger] known.word(r, c) == if r < y { 0xffff_ffff_ffff_ffffu64 } else { 0u64 },
                decreases height - y,
            {
                let mut x: usize = 0;
                while x < width_in_words
                    invariant
                        0 < height <= MAX_DIM,
                        y < height,
                        x <= width_in_words,
                        known.shaped(words, height as nat),
                        words == width_in_words,
                        forall|r: int, c: int| 0 <= r < height && 0 <= c < width_in_words ==>
                            #[trigger] known.word(r, c) == if r < y || (r == y && c < x) { 0xffff_ffff_ffff_ffffu64 } else { 0u64 },
                    decreases width_in_words - x,
                {
                    let ghost prev = known;
                    known.0[y][x] = 0xffff_ffff_ffff_ffff;
                    proof {
                        assert forall|r: int| 0 <= r < height implies #[trigger] known.0@[r]@.len() == words by {
                            if r != y { assert(known.0@[r] == prev.0@[r]); }
                        }
                        assert forall|r: int, c: int| 0 <= r < height && 0 <= c < width_in_words implies
                            #[trigger] known.word(r, c) == if r < y || (r == y && c < x + 1) { 0xffff_ffff_ffff_ffffu64 } else { 0u64 } by {
                            assert(prev.word(r, c) == if r < y || (r == y && c < x) { 0xffff_ffff_ffff_ffffu64 } else { 0u64 });
                            if r != y { assert(known.0@[r] == prev.0@[r]); }
                        }
                    }
                    x += 1;
                }
                y += 1;
            }
        }
        proof {
            assert forall|c: int, r: int| 0 <= c < width && 0 <= r < height implies
                #[trigger] known.cell(c, r) == (is_server && i == 0) by {
                lemma_col_word(c, words);
                lemma_zero_word(c % 64);
            }
        }
        let cells = BitGrid::new(width_in_words, height);
        let wall_cells = BitGrid::new(width_in_words, height);
        proof {
            assert forall|c: int, r: int| 0 <= c < width && 0 <= r < height implies
                !(#[trigger] cells.cell(c, r)) && !wall_cells.cell(c, r) by {
                lemma_col_word(c, words);
                lemma_zero_word(c % 64);
            }
        }
        let g = GenState {
            gen_or_none: if i == 0 { Some(1) } else { None },
            cells,
            wall_cells,
            known,
            player_states,
        };
        proof {
            assert(g.has_shape(words, height as nat));
            assert forall|c: int, r: int| 0 <= c < words * 64 && 0 <= r < height implies !(#[trigger] g.wall_cells.cell(c, r)) by {
                assert(!cells.cell(c, r));
            }
            assert forall|c: int, r: int| 0 <= c < words * 64 && 0 <= r < height implies
                (#[trigger] g.known.cell(c, r)) == (is_server && i == 0) by {
                assert(!cells.cell(c, r));
            }
            assert forall|p: int, c: int, r: int| 0 <= p < num_players && 0 <= c < words * 64 && 0 <= r < height implies
                (#[trigger] g.pfog(p).cell(c, r)) == !player_writable@[p].contains_spec(c, r) by {
                assert(!player_states@[p].cells.cell(c, r));
            }
            assert forall|p: int, c: int, r: int| 0 <= p < num_players && 0 <= c < words * 64 && 0 <= r < height implies
                !(#[trigger] g.pcells(p).cell(c, r)) by {
                assert(!player_states@[p].cells.cell(c, r));
            }
        }
        g
    }

    /// Instantiate a new blank universe with the given width and height, in cells.
    /// The universe is at generation 1.
    pub fn new(
        width: usize,
        height: usize,
        is_server: bool,
        history: usize,
        num_players: usize,
        player_writable: Vec<Region>,
        fog_radius: usize,
    ) -> (res: Result<Universe, String>)
        requires
            new_error(width as int, height as int, history as int, fog_radius as int) is None ==> {
                &&& width <= MAX_DIM
                &&& height <= MAX_DIM
                &&& fog_radius <= MAX_FOG_RADIUS
                &&& num_players <= player_writable@.len()
            },
        ensures
            match new_error(width as int, height as int, history as int, fog_radius as int) {
                Some(msg) => res matches Err(e) && e@ == msg,
                None => res matches Ok(u) && {
                    &&& u.wf()
                    &&& u.width_spec() == width
                    &&& u.height_spec() == height
                    &&& u.history_spec() == history
                    &&& u.num_players_spec() == num_players
                    &&& u.fog_radius_spec() == fog_radius
                    &&& u.generation_spec() == 1
                    &&& u.state_index_spec() == 0
                    &&& forall|p: int| 0 <= p < num_players ==> #[trigger] u.writable_spec(p) == player_writable@[p]
                    &&& forall|i: int| 0 <= i < history ==> #[trigger] u.is_initial_state(i, is_server, player_writable@)
                },
            },
    {
        if height == 0 {
            return Err("Height must be positive".to_owned());
        }
        let width_in_words = width / 64;
        if width % 64 != 0 {
            return Err("Width must be a multiple of 64".to_owned());
        } else if width == 0 {
            return Err("Width must be positive".to_owned());
        }
        if history == 0 {
            return Err("History must be positive".to_owned());
        }
        if fog_radius == 0 {
            return Err("Fog radius must be positive".to_owned());
        }

        // Initialize all generational states with the default appropriate bitgrids
        let mut gen_states: Vec<GenState> = Vec::new();
        let mut i: usize = 0;
        while i < history
            invariant
                0 < width <= MAX_DIM,
                width % 64 == 0,
                width_in_words == width / 64,
                0 < height <= MAX_DIM,
                num_players <= player_writable@.len(),
                i <= history,
                gen_states@.len() == i,
                forall|j: int| 0 <= j < i ==> initial_state_ok(#[trigger] gen_states@[j], j, (width / 64) as nat,
                    height as nat, is_server, num_players as nat, player_writable@),
            decreases history - i,
        {
            let g = Universe::initial_gen_state(i, width, height, is_server, num_players, &player_writable);
            let ghost before = gen_states@;
            gen_states.push(g);
            proof {
                assert(gen_states@[i as int] == g);
                assert forall|j: int| 0 <= j < i implies #[trigger] gen_states@[j] == before[j] by {}
                assert forall|j: int| 0 <= j < i + 1 implies initial_state_ok(#[trigger] gen_states@[j], j, (width / 64) as nat,
                    height as nat, is_server, num_players as nat, player_writable@) by {
                    if j < i { assert(gen_states@[j] == before[j]); }
                }
            }
            i += 1;
        }

        let mut uni = Universe {
            width,
            height,
            width_in_words,
            generation: 1,
            num_players,
            state_index: 0,
            gen_states,
            player_writable,
            fog_radius,
            fog_circle: BitGrid(Vec::new()),
        };
        uni.generate_fog_circle_bitmap();
        proof {
            assert(initial_state_ok(uni.gen_states@[0], 0, (width / 64) as nat, height as nat, is_server,
                num_players as nat, player_writable@));
            assert forall|k: int| 0 <= k < uni.gen_states@.len() implies {
                &&& (#[trigger] uni.gen_states@[k]).has_shape(uni.width_in_words as nat, uni.height as nat)
                &&& uni.gen_states@[k].players() == uni.num_players
            } by {
                assert(initial_state_ok(uni.gen_states@[k], k, (width / 64) as nat, height as nat, is_server,
                    num_players as nat, player_writable@));
            }
            assert(uni.gen_states@[0].gen_or_none == Some(1usize));
            assert forall|j: int| 0 <= j < history implies #[trigger] uni.is_initial_state(j, is_server, player_writable@) by {
                assert(gen_states@[j] == uni.gen_states@[j]);
            }
        }
        Ok(uni)
    }
}

impl Universe {
    /// Replacing the latest state with one of the same shape, players and generation keeps the
    /// universe consistent.
    proof fn lemma_replace_cur(old_u: &Universe, new_u: &Universe)
        requires
            old_u.wf(),
            new_u.width == old_u.width,
            new_u.height == old_u.height,
            new_u.width_in_words == old_u.width_in_words,
            new_u.generation == old_u.generation,
            new_u.num_players == old_u.num_players,
            new_u.state_index == old_u.state_index,
            new_u.player_writable == old_u.player_writable,
            new_u.fog_radius == old_u.fog_radius,
            new_u.fog_circle == old_u.fog_circle,
            new_u.gen_states@.len() == old_u.gen_states@.len(),
            forall|i: int| 0 <= i < old_u.gen_states@.len() && i != old_u.state_index ==>
                #[trigger] new_u.gen_states@[i] == old_u.gen_states@[i],
            old_u.cur().same_frame(&new_u.cur()),
        ensures
            new_u.wf(),
    {
        old_u.lemma_wf_cur();
        assert forall|i: int| 0 <= i < new_u.gen_states@.len() implies {
            &&& (#[trigger] new_u.gen_states@[i]).has_shape(new_u.width_in_words as nat, new_u.height as nat)
            &&& new_u.gen_states@[i].players() == new_u.num_players
        } by {
            if i != old_u.state_index {
                assert(new_u.gen_states@[i] == old_u.gen_states@[i]);
            }
        }
    }

    /// Width in cells.
    pub fn width(&self) -> (r: usize)
        ensures
            r == self.width_spec(),
    {
        self.width
    }

    /// Height in cells.
    pub fn height(&self) -> (r: usize)
        ensures
            r == self.height_spec(),
    {
        self.height
    }

    /// Get a Region of the same size as the universe.
    pub fn region(&self) -> (r: Region)
        requires
            self.wf(),
        ensures
            r.left_spec() == 0,
            r.top_spec() == 0,
            r.width_spec() == self.width_spec(),
            r.height_spec() == self.height_spec(),
    {
        Region::new(0, 0, self.width, self.height)
    }

    /// Get the latest generation number (1-based).
    pub fn latest_gen(&self) -> (r: usize)
        requires
            self.wf(),
        ensures
            r == self.generation_spec(),
    {
        self.generation
    }

    /// The state of cell `(col, row)` in the latest generation: alive or dead, or, when a player
    /// is given, alive (owned by that player) or dead.
    pub open spec fn cell_state_of(&self, col: int, row: int, opt_player_id: Option<usize>) -> CellState {
        match opt_player_id {
            Some(p) => if self.cur().pcells(p as int).cell(col, row) {
                CellState::Alive(opt_player_id)
            } else {
                CellState::Dead
            },
            None => if self.cur().cells.cell(col, row) {
                CellState::Alive(None)
            } else {
                CellState::Dead
            },
        }
    }

    /// Gets a `CellState` enum for cell at (`col`, `row`): alive or dead in the latest
    /// generation, or, when a player is given, whether that player owns the cell.
    pub fn get_cell_state(&mut self, col: usize, row: usize, opt_player_id: Option<usize>) -> (st: CellState)
        requires
            old(self).wf(),
            old(self).in_grid(col as int, row as int),
            opt_player_id matches Some(p) ==> p < old(self).num_players_spec(),
        ensures
            *final(self) == *old(self),
            st == old(self).cell_state_of(col as int, row as int, opt_player_id),
    {
        proof {
            self.lemma_wf_cur();
            lemma_col_word(col as int, self.words_spec());
        }
        let gen_state = &self.gen_states[self.state_index];
        let word_col = col / 64;
        let shift = 63 - (col % 64);
        let mask: u64 = 1u64 << (shift as u64);
        if let Some(player_id) = opt_player_id {
            assert(gen_state.player_states@[player_id as int].cells.shaped(self.width_in_words as nat, self.height as nat));
            let w = gen_state.player_states[player_id].cells.0[row][word_col];
            proof { lemma_mask_test(w, (col % 64) as int); }
            let cell = (w & mask) >> (shift as u64);
            if cell == 1 { CellState::Alive(opt_player_id) } else { CellState::Dead }
        } else {
            let w = gen_state.cells.0[row][word_col];
            proof { lemma_mask_test(w, (col % 64) as int); }
            let cell = (w & mask) >> (shift as u64);
            if cell == 1 { CellState::Alive(None) } else { CellState::Dead }
        }
    }

    /// Everything but the latest state is unchanged, and the latest state is still the latest.
    pub open spec fn only_cur_changed(&self, new: &Universe) -> bool {
        &&& new.wf()
        &&& new.width_spec() == self.width_spec()
        &&& new.height_spec() == self.height_spec()
        &&& new.words_spec() == self.words_spec()
        &&& new.generation_spec() == self.generation_spec()
        &&& new.num_players_spec() == self.num_players_spec()
        &&& new.history_spec() == self.history_spec()
        &&& new.state_index_spec() == self.state_index_spec()
        &&& new.fog_radius_spec() == self.fog_radius_spec()
        &&& new.fog_circle_spec() == self.fog_circle_spec()
        &&& forall|p: int| #[trigger] new.writable_spec(p) == self.writable_spec(p)
        &&& forall|i: int| 0 <= i < self.history_spec() && i != self.state_index_spec() ==>
            #[trigger] new.gen_state_spec(i) == self.gen_state_spec(i)
    }

    /// Sets the state of a cell in the latest generation, with minimal checking. It doesn't
    /// support setting `CellState::Fog`, and the cell must be known.
    pub fn set_unchecked(&mut self, col: usize, row: usize, new_state: CellState)
        requires
            old(self).wf(),
            old(self).in_grid(col as int, row as int),
            old(self).cur().known.cell(col as int, row as int),
            new_state != CellState::Fog,
            new_state matches CellState::Alive(Some(p)) ==> p < old(self).num_players_spec(),
        ensures
            old(self).only_cur_changed(final(self)),
            old(self).cur().set_result(&final(self).cur(), col as int, row as int, new_state),
    {
        proof { self.lemma_wf_cur(); }
        let ghost old_u = *self;
        let si = self.state_index;
        self.gen_states[si].set_unchecked(col, row, new_state);
        proof {
            Universe::lemma_replace_cur(&old_u, self);
        }
    }

    /// Whether a checked `set` by `player_id` is allowed to change cell `(col, row)`: the cell is
    /// not a wall, lies in the player's writable region, is not fogged for the player, and is not
    /// alive unless the player owns it.
    pub open spec fn set_allowed(&self, col: int, row: int, player_id: int) -> bool {
        let g = self.cur();
        &&& !g.wall_cells.cell(col, row)
        &&& self.writable_spec(player_id).contains_spec(col, row)
        &&& !g.pfog(player_id).cell(col, row)
        &&& !(g.cells.cell(col, row) && !g.pcells(player_id).cell(col, row))
    }

    /// A checked `set` by a player changes nothing on a cell that is alive and owned by someone
    /// else, on a wall, on a cell fogged for the player, or outside the player's writable region:
    /// each of these makes `set_allowed` false (and `set` leaves the universe unchanged then).
    pub proof fn lemma_set_refusals(&self, col: int, row: int, player_id: int)
        ensures
            self.cur().cells.cell(col, row) && !self.cur().pcells(player_id).cell(col, row)
                ==> !self.set_allowed(col, row, player_id),
            self.cur().wall_cells.cell(col, row) ==> !self.set_allowed(col, row, player_id),
            self.cur().pfog(player_id).cell(col, row) ==> !self.set_allowed(col, row, player_id),
            !self.writable_spec(player_id).contains_spec(col, row) ==> !self.set_allowed(col, row, player_id),
    {
    }

    /// Checked set: does nothing if the cell is a wall, lies outside the player's writable
    /// region, is fogged for the player, or is alive and owned by someone else; otherwise sets
    /// the cell as `set_unchecked` does.
    pub fn set(&mut self, col: usize, row: usize, new_state: CellState, player_id: usize)
        requires
            old(self).wf(),
            old(self).in_grid(col as int, row as int),
            player_id < old(self).num_players_spec(),
            old(self).set_allowed(col as int, row as int, player_id as int) ==> {
                &&& old(self).cur().known.cell(col as int, row as int)
                &&& new_state != CellState::Fog
                &&& new_state matches CellState::Alive(Some(p)) ==> p == player_id
            },
        ensures
            if old(self).set_allowed(col as int, row as int, player_id as int) {
                &&& old(self).only_cur_changed(final(self))
                &&& old(self).cur().set_result(&final(self).cur(), col as int, row as int, new_state)
            } else {
                *final(self) == *old(self)
            },
            old(self).cur().cells.cell(col as int, row as int) && !old(self).cur().pcells(player_id as int).cell(col as int, row as int)
                ==> *final(self) == *old(self),
            old(self).cur().wall_cells.cell(col as int, row as int) ==> *final(self) == *old(self),
            old(self).cur().pfog(player_id as int).cell(col as int, row as int) ==> *final(self) == *old(self),
            !old(self).writable_spec(player_id as int).contains_spec(col as int, row as int) ==> *final(self) == *old(self),
    {
        proof {
            self.lemma_wf_cur();
            lemma_col_word(col as int, self.words_spec());
        }
        {
            let gen_state = &self.gen_states[self.state_index];
            let word_col = col / 64;
            let shift = 63 - (col % 64);
            let mask: u64 = 1u64 << (shift as u64);

            let cells_word = gen_state.cells.0[row][word_col];
            let walls_word = gen_state.wall_cells.0[row][word_col];
            proof {
                lemma_mask_test(cells_word, (col % 64) as int);
                lemma_mask_test(walls_word, (col % 64) as int);
            }
            if walls_word & mask > 0 {
                return;
            }
            if !self.player_writable[player_id].contains(col as isize, row as isize) {
                return;
            }
            assert(gen_state.player_states@[player_id as int].cells.shaped(self.width_in_words as nat, self.height as nat));
            let fog_word = gen_state.player_states[player_id].fog.0[row][word_col];
            proof { lemma_mask_test(fog_word, (col % 64) as int); }
            if fog_word & mask > 0 {
                return;
            }
            // If the current cell is alive but not owned by this player, do nothing
            let player_word = gen_state.player_states[player_id].cells.0[row][word_col];
            proof { lemma_mask_test(player_word, (col % 64) as int); }
            if cells_word & mask > 0 && player_word & mask == 0 {
                return;
            }
        }
        self.set_unchecked(col, row, new_state)
    }

    /// Switches any non-dead state to `CellState::Dead`, and `CellState::Dead` to
    /// `CellState::Alive(opt_player_id)`, clearing fog for that player, if any. All players'
    /// ownership of the cell is cleared first. The new value of the cell is returned.
    pub fn toggle_unchecked(&mut self, col: usize, row: usize, opt_player_id: Option<usize>) -> (st: CellState)
        requires
            old(self).wf(),
            old(self).in_grid(col as int, row as int),
            opt_player_id matches Some(p) ==> p < old(self).num_players_spec(),
        ensures
            old(self).only_cur_changed(final(self)),
            old(self).cur().toggle_result(&final(self).cur(), col as int, row as int, opt_player_id),
            st == if old(self).cur().cells.cell(col as int, row as int) || old(self).cur().wall_cells.cell(col as int, row as int) {
                CellState::Dead
            } else {
                CellState::Alive(opt_player_id)
            },
    {
        proof { self.lemma_wf_cur(); }
        let ghost old_u = *self;
        let si = self.state_index;
        let st = self.gen_states[si].toggle_cell(col, row, opt_player_id);
        proof {
            Universe::lemma_replace_cur(&old_u, self);
        }
        st
    }

    /// Whether a checked toggle by `player_id` is allowed: the cell lies in the player's writable
    /// region, is not a wall, and is known.
    pub open spec fn toggle_allowed(&self, col: int, row: int, player_id: int) -> bool {
        &&& self.writable_spec(player_id).contains_spec(col, row)
        &&& !self.cur().wall_cells.cell(col, row)
        &&& self.cur().known.cell(col, row)
    }

    /// Checked toggle - switch between `CellState::Alive` and `CellState::Dead`.
    ///
    /// It is an error to toggle outside the player's writable area, or to toggle a wall or an
    /// unknown cell; the universe is then unchanged.
    pub fn toggle(&mut self, col: usize, row: usize, player_id: usize) -> (res: Result<CellState, ()>)
        requires
            old(self).wf(),
            old(self).in_grid(col as int, row as int),
            player_id < old(self).num_players_spec(),
        ensures
            old(self).toggle_allowed(col as int, row as int, player_id as int) ==> {
                &&& old(self).only_cur_changed(final(self))
                &&& old(self).cur().toggle_result(&final(self).cur(), col as int, row as int, Some(player_id))
                &&& res == Ok::<CellState, ()>(if old(self).cur().cells.cell(col as int, row as int) {
                    CellState::Dead
                } else {
                    CellState::Alive(Some(player_id))
                })
            },
            !old(self).toggle_allowed(col as int, row as int, player_id as int) ==> {
                &&& res == Err::<CellState, ()>(())
                &&& *final(self) == *old(self)
            },
    {
        proof {
            self.lemma_wf_cur();
            lemma_col_word(col as int, self.words_spec());
        }
        if !self.player_writable[player_id].contains(col as isize, row as isize) {
            return Err(());
        }
        let word_col = col / 64;
        let shift = 63 - (col % 64);
        {
            let wall = &self.gen_states[self.state_index].wall_cells;
            let known = &self.gen_states[self.state_index].known;
            let ww = wall.0[row][word_col];
            let kw = known.0[row][word_col];
            if (ww >> (shift as u64)) & 1 == 1 || (kw >> (shift as u64)) & 1 == 0 {
                proof {
                    assert(((kw >> (shift as u64)) & 1 == 0) == !(((kw >> (shift as u64)) & 1 == 1))) by (bit_vector);
                }
                return Err(());
            }
            proof {
                assert(((kw >> (shift as u64)) & 1 == 0) == !(((kw >> (shift as u64)) & 1 == 1))) by (bit_vector);
            }
        }
        Ok(self.toggle_unchecked(col, row, Some(player_id)))
    }
}

impl Universe {
    /// One generation of Conway's rule for the 64 cells of `center`, given the eight words around
    /// it (bit-parallel adder network).
    pub fn next_single_gen(nw: u64, n: u64, ne: u64, w: u64, center: u64, e: u64, sw: u64, s: u64, se: u64) -> (r: u64)
        ensures
            r == life_word(nw, n, ne, w, center, e, sw, s, se),
            forall|k: int| 0 <= k < 64 ==> #[trigger] bit_at(r, k)
                == life_rule(bit_at(center, k), neighbor_count(nw, n, ne, w, center, e, sw, s, se, k)),
    {
        let a = (nw << 63u64) | (n >> 1u64);
        let b = n;
        let c = (n << 1u64) | (ne >> 63u64);
        let d = (w << 63u64) | (center >> 1u64);
        let y6 = center;
        let ee = (center << 1u64) | (e >> 63u64);
        let f = (sw << 63u64) | (s >> 1u64);
        let g = s;
        let h = (s << 1u64) | (se >> 63u64);

        // full adder #1
        let b_xor_c = b ^ c;
        let y1 = (a & b_xor_c) | (b & c);
        let y2 = a ^ b_xor_c;

        // full adder #2
        let e_xor_f = ee ^ f;
        let c2 = (d & e_xor_f) | (ee & f);
        let s2 = d ^ e_xor_f;

        // half adder #1
        let c3 = g & h;
        let s3 = g ^ h;

        // half adder #2
        let c4 = s2 & s3;
        let y5 = s2 ^ s3;

        // full adder #3
        let c2_xor_c3 = c2 ^ c3;
        let y3 = (c4 & c2_xor_c3) | (c2 & c3);
        let y4 = c4 ^ c2_xor_c3;

        let int1 = !y3 & !y4;
        let r = !y1 & y6 & (y2 & int1 & y5 | y4 & !y5) | y1 & int1 & (!y2 & (y5 | y6) | y2 & !y5) | !y1 & y4 & (y2 ^ y5);
        proof {
            assert forall|k: int| 0 <= k < 64 implies #[trigger] bit_at(r, k)
                == life_rule(bit_at(center, k), neighbor_count(nw, n, ne, w, center, e, sw, s, se, k)) by {
                lemma_life_word(nw, n, ne, w, center, e, sw, s, se, k);
            }
        }
        r
    }

    /// A cell is 0 if itself or any of its neighbors are 0.
    pub fn contagious_zero(nw: u64, n: u64, ne: u64, w: u64, center: u64, e: u64, sw: u64, s: u64, se: u64) -> (r: u64)
        ensures
            r == block_and_word(nw, n, ne, w, center, e, sw, s, se),
            forall|k: int| 0 <= k < 64 ==> #[trigger] bit_at(r, k) == all_in_block(nw, n, ne, w, center, e, sw, s, se, k),
    {
        let a = (nw << 63u64) | (n >> 1u64);
        let b = n;
        let c = (n << 1u64) | (ne >> 63u64);
        let d = (w << 63u64) | (center >> 1u64);
        let ee = (center << 1u64) | (e >> 63u64);
        let f = (sw << 63u64) | (s >> 1u64);
        let g = s;
        let h = (s << 1u64) | (se >> 63u64);
        let r = a & b & c & d & center & ee & f & g & h;
        proof {
            assert forall|k: int| 0 <= k < 64 implies #[trigger] bit_at(r, k)
                == all_in_block(nw, n, ne, w, center, e, sw, s, se, k) by {
                lemma_block_words(nw, n, ne, w, center, e, sw, s, se, k);
            }
        }
        r
    }

    /// A cell is 1 if itself or any of its neighbors are 1.
    pub fn contagious_one(nw: u64, n: u64, ne: u64, w: u64, center: u64, e: u64, sw: u64, s: u64, se: u64) -> (r: u64)
        ensures
            r == block_or_word(nw, n, ne, w, center, e, sw, s, se),
            forall|k: int| 0 <= k < 64 ==> #[trigger] bit_at(r, k) == any_in_block(nw, n, ne, w, center, e, sw, s, se, k),
    {
        let a = (nw << 63u64) | (n >> 1u64);
        let b = n;
        let c = (n << 1u64) | (ne >> 63u64);
        let d = (w << 63u64) | (center >> 1u64);
        let ee = (center << 1u64) | (e >> 63u64);
        let f = (sw << 63u64) | (s >> 1u64);
        let g = s;
        let h = (s << 1u64) | (se >> 63u64);
        let r = a | b | c | d | center | ee | f | g | h;
        proof {
            assert forall|k: int| 0 <= k < 64 implies #[trigger] bit_at(r, k)
                == any_in_block(nw, n, ne, w, center, e, sw, s, se, k) by {
                lemma_block_words(nw, n, ne, w, center, e, sw, s, se, k);
            }
        }
        r
    }
}

/// The word `(r, c)` of the next generation has been computed when it comes before the current
/// position `(row, col)` in row-major order.
pub open spec fn done(r: int, c: int, row: int, col: int) -> bool {
    r < row || (r == row && c < col)
}

/// Player `p` owns cell `(c, r)` in the generation after `g` and does not own it in `g`.
pub open spec fn gains_cell(g: &GenState, p: int, c: int, r: int) -> bool {
    next_owned(g, p, g.players(), c, r, (g.words() * 64) as int, g.rows() as int) && !g.pcells(p).cell(c, r)
}

/// Around every cell that a player gains in the generation after `g`, the window of fog of
/// radius `fog_radius` starts at most one full turn of the universe above and to the left of
/// the cell.
pub open spec fn births_in_reach(g: &GenState, fog_radius: int) -> bool {
    forall|p: int, c: int, r: int| 0 <= p < g.players() && 0 <= c < g.words() * 64 && 0 <= r < g.rows()
        && #[trigger] gains_cell(g, p, c, r) ==>
        fog_radius <= g.rows() + r + 1 && fog_radius <= g.words() * 64 + c + 1
}

/// A fog radius at most one more than the height and than the width is in reach around any
/// cell.
pub proof fn lemma_births_in_reach(g: &GenState, fog_radius: int)
    requires
        fog_radius <= g.rows() + 1,
        fog_radius <= g.words() * 64 + 1,
    ensures
        births_in_reach(g, fog_radius),
{
}

/// Bit `s` counted from the least significant end is bit `63 - s` counted from the most
/// significant one.
proof fn lemma_low_bit_at(w: u64, s: int)
    requires
        0 <= s < 64,
    ensures
        low_bit(w, s) == bit_at(w, 63 - s),
{
    let t = s as u64;
    assert((w & (1u64 << t) > 0) == ((w >> t) & 1u64 == 1u64)) by (bit_vector) requires t < 64;
}

/// Bit `k` of the word of cells that player `p` gets in word `(r, wc)` of the next generation
/// is whether the player owns that cell in the next generation.
proof fn lemma_owner_bit(g: &GenState, p: int, r: int, wc: int, k: int, words: nat, h: nat)
    requires
        g.has_shape(words, h),
        0 <= p < g.players(),
        0 <= r < h,
        0 <= wc < words,
        0 <= k < 64,
    ensures
        bit_at(owner_word(g, p, g.players(), r, wc, words as int, h as int), k)
            == next_owned(g, p, g.players(), wc * 64 + k, r, (words * 64) as int, h as int),
{
    lemma_next_words(g, r, wc, k, words as int, h as int);
    lemma_claim_counting(g, g.players(), r, wc, k, words as int, h as int);
    lemma_bool_ops(claim_word(g, p, r, wc, words as int, h as int), !multi_word(g, g.players(), r, wc, words as int, h as int), k);
    lemma_bool_ops(multi_word(g, g.players(), r, wc, words as int, h as int), 0, k);
    assert(bit_at(claim_word(g, p, r, wc, words as int, h as int), k)
        == crate::life::claims(g, p, wc * 64 + k, r, (words * 64) as int, h as int));
}

/// The cells of word `(r, wc)` that player `p` gets in the next generation of `g` and did not
/// own before: around them the player's fog is cleared.
pub open spec fn born_word(g: &GenState, p: int, r: int, wc: int, words: int, h: int) -> u64 {
    owner_word(g, p, g.players(), r, wc, words, h) & !g.pcells(p).word(r, wc)
}

/// Fog is only cleared near new cells: when a step clears cell `(c, r)` of player `p`'s fog
/// (see `births_clear`, which `Universe::next` follows), the cell lies in the fog circle around
/// a cell that the player gains in that step (for fog radii up to 32).
pub proof fn lemma_fog_cleared_near_gains(g: &GenState, fog_circle: &BitGrid, fog_radius: int, p: int, c: int, r: int)
    requires
        g.has_shape(g.words(), g.rows()),
        0 < g.words(),
        0 < g.rows(),
        0 <= p < g.players(),
        is_fog_circle(fog_circle, fog_radius),
        1 <= fog_radius <= 32,
        0 <= c < g.words() * 64,
        0 <= r < g.rows(),
        births_clear(g, fog_circle, fog_radius, p, c, r, g.rows() as int, 0, g.words() as int, g.rows() as int),
    ensures
        exists|c0: int, r0: int| 0 <= c0 < g.words() * 64 && 0 <= r0 < g.rows() && #[trigger] gains_cell(g, p, c0, r0)
            && in_circle_around(fog_radius, (g.words() * 64) as int, g.rows() as int, c0, r0, c, r),
{
    let words = g.words() as int;
    let h = g.rows() as int;
    let (r0, w0) = choose|r0: int, w0: int| 0 <= r0 < h && 0 <= w0 < words && done(r0, w0, h, 0)
        && #[trigger] fog_cleared(fog_circle, fog_radius, words * 64, h, r0, w0, born_word(g, p, r0, w0, words, h), c, r);
    let bits = born_word(g, p, r0, w0, words, h);
    lemma_fog_cleared_in_circle(fog_circle, fog_radius, words * 64, h, r0, w0, bits, c, r);
    let s = choose|s: int| 0 <= s < 64 && low_bit(bits, s)
        && #[trigger] in_circle_around(fog_radius, words * 64, h, w0 * 64 + (63 - s), r0, c, r);
    let k = 63 - s;
    let c0 = w0 * 64 + k;
    lemma_low_bit_at(bits, s);
    lemma_bool_ops(owner_word(g, p, g.players(), r0, w0, words, h), !g.pcells(p).word(r0, w0), k);
    lemma_bool_ops(g.pcells(p).word(r0, w0), 0, k);
    lemma_owner_bit(g, p, r0, w0, k, g.words(), g.rows());
    vstd::arithmetic::div_mod::lemma_fundamental_div_mod_converse(c0, 64, w0, k);
    assert(c0 < words * 64) by (nonlinear_arith) requires c0 == w0 * 64 + k, 0 <= k < 64, w0 < words;
    assert(gains_cell(g, p, c0, r0));
}

/// Player `p` gains, in the generation after `g`, a cell around which the fog circle of radius
/// `fog_radius` covers cell `(c, r)`.
pub open spec fn gain_near(g: &GenState, fog_radius: int, p: int, c: int, r: int) -> bool {
    exists|c0: int, r0: int| 0 <= c0 < g.words() * 64 && 0 <= r0 < g.rows() && #[trigger] gains_cell(g, p, c0, r0)
        && in_circle_around(fog_radius, (g.words() * 64) as int, g.rows() as int, c0, r0, c, r)
}

/// Fog is cleared exactly around new cells: a step clears cell `(c, r)` of player `p`'s fog
/// (see `births_clear`, which `Universe::next` follows) exactly when the cell lies in the fog
/// circle around a cell that the player gains in that step (for fog radii up to 32, on a
/// universe at least 192 cells wide and at least as high as the circle).
pub proof fn lemma_fog_cleared_iff_near_gains(g: &GenState, fog_circle: &BitGrid, fog_radius: int, p: int, c: int, r: int)
    requires
        g.has_shape(g.words(), g.rows()),
        3 <= g.words(),
        2 * fog_radius - 1 <= g.rows(),
        0 <= p < g.players(),
        is_fog_circle(fog_circle, fog_radius),
        1 <= fog_radius <= 32,
        0 <= c < g.words() * 64,
        0 <= r < g.rows(),
    ensures
        births_clear(g, fog_circle, fog_radius, p, c, r, g.rows() as int, 0, g.words() as int, g.rows() as int)
            <==> gain_near(g, fog_radius, p, c, r),
{
    let words = g.words() as int;
    let h = g.rows() as int;
    if births_clear(g, fog_circle, fog_radius, p, c, r, h, 0, words, h) {
        lemma_fog_cleared_near_gains(g, fog_circle, fog_radius, p, c, r);
    }
    if exists|c0: int, r0: int| 0 <= c0 < g.words() * 64 && 0 <= r0 < g.rows() && #[trigger] gains_cell(g, p, c0, r0)
        && in_circle_around(fog_radius, (g.words() * 64) as int, g.rows() as int, c0, r0, c, r) {
        let (c0, r0) = choose|c0: int, r0: int| 0 <= c0 < g.words() * 64 && 0 <= r0 < g.rows()
            && #[trigger] gains_cell(g, p, c0, r0)
            && in_circle_around(fog_radius, (g.words() * 64) as int, g.rows() as int, c0, r0, c, r);
        let w0 = c0 / 64;
        let k = c0 % 64;
        let s = 63 - k;
        lemma_col_word(c0, g.words());
        let bits = born_word(g, p, r0, w0, words, h);
        lemma_low_bit_at(bits, s);
        lemma_bool_ops(owner_word(g, p, g.players(), r0, w0, words, h), !g.pcells(p).word(r0, w0), k);
        lemma_bool_ops(g.pcells(p).word(r0, w0), 0, k);
        lemma_owner_bit(g, p, r0, w0, k, g.words(), g.rows());
        assert(low_bit(bits, s));
        assert(words * 64 >= 192);
        vstd::arithmetic::div_mod::lemma_mod_multiples_vanish(words, 0, 64);
        assert((words * 64) / 64 == words) by (nonlinear_arith) requires words > 0;
        lemma_fog_cleared_near_bit(fog_circle, fog_radius, words * 64, h, r0, w0, bits, s, c, r);
        assert(done(r0, w0, h, 0));
    }
}

/// Cell `(c, r)` of player `p`'s fog is cleared (see `fog_cleared`) around the cells born to the
/// player in some word that comes, in row-major order, before word `col` of row `row`.
pub open spec fn births_clear(g: &GenState, fog_circle: &BitGrid, fog_radius: int, p: int, c: int, r: int,
    row: int, col: int, words: int, h: int) -> bool {
    exists|r0: int, w0: int| 0 <= r0 < h && 0 <= w0 < words && done(r0, w0, row, col)
        && #[trigger] fog_cleared(fog_circle, fog_radius, words * 64, h, r0, w0, born_word(g, p, r0, w0, words, h), c, r)
}

/// One more word: the fog it clears joins what the earlier words cleared.
proof fn lemma_births_step(g: &GenState, fog_circle: &BitGrid, fog_radius: int, p: int, c: int, r: int,
    row: int, col: int, words: int, h: int)
    ensures
        births_clear(g, fog_circle, fog_radius, p, c, r, row, col + 1, words, h)
            == (births_clear(g, fog_circle, fog_radius, p, c, r, row, col, words, h)
                || (0 <= row < h && 0 <= col < words && fog_cleared(fog_circle, fog_radius, words * 64, h, row, col,
                    born_word(g, p, row, col, words, h), c, r))),
{
    if births_clear(g, fog_circle, fog_radius, p, c, r, row, col + 1, words, h) {
        let (r0, w0) = choose|r0: int, w0: int| 0 <= r0 < h && 0 <= w0 < words && done(r0, w0, row, col + 1)
            && #[trigger] fog_cleared(fog_circle, fog_radius, words * 64, h, r0, w0, born_word(g, p, r0, w0, words, h), c, r);
        if !(r0 == row && w0 == col) {
            assert(done(r0, w0, row, col));
        }
    }
    if births_clear(g, fog_circle, fog_radius, p, c, r, row, col, words, h) {
        let (r0, w0) = choose|r0: int, w0: int| 0 <= r0 < h && 0 <= w0 < words && done(r0, w0, row, col)
            && #[trigger] fog_cleared(fog_circle, fog_radius, words * 64, h, r0, w0, born_word(g, p, r0, w0, words, h), c, r);
        assert(done(r0, w0, row, col + 1));
    }
    if 0 <= row < h && 0 <= col < words && fog_cleared(fog_circle, fog_radius, words * 64, h, row, col,
        born_word(g, p, row, col, words, h), c, r) {
        assert(done(row, col, row, col + 1));
    }
}

/// The grids being built for the next generation of `g`: their shapes, the words computed so far,
/// and fog that has only been cleared.
pub open spec fn next_progress(
    g: &GenState,
    cells_next: &BitGrid,
    known_next: &BitGrid,
    wall_next: &BitGrid,
    player_next: Seq<PlayerGenState>,
    fog_circle: &BitGrid,
    fog_radius: int,
    row: int,
    col: int,
    words: nat,
    h: nat,
) -> bool {
    &&& cells_next.shaped(words, h)
    &&& known_next.shaped(words, h)
    &&& wall_next.shaped(words, h)
    &&& player_next.len() == g.players()
    &&& forall|p: int| 0 <= p < g.players() ==> (#[trigger] player_next[p]).cells.shaped(words, h)
        && player_next[p].fog.shaped(words, h)
    &&& forall|r: int, c: int| 0 <= r < h && 0 <= c < words && done(r, c, row, col) ==>
        #[trigger] cells_next.word(r, c) == next_cells_word(g, r, c, words as int, h as int)
    &&& forall|r: int, c: int| 0 <= r < h && 0 <= c < words && done(r, c, row, col) ==>
        #[trigger] known_next.word(r, c) == block_and_at(&g.known, r, c, words as int, h as int)
    &&& forall|r: int, c: int| 0 <= r < h && 0 <= c < words && done(r, c, row, col) ==>
        #[trigger] wall_next.word(r, c) == g.wall_cells.word(r, c)
    &&& forall|p: int, r: int, c: int| 0 <= p < g.players() && 0 <= r < h && 0 <= c < words && done(r, c, row, col) ==>
        #[trigger] player_next[p].cells.word(r, c) == owner_word(g, p, g.players(), r, c, words as int, h as int)
    &&& forall|p: int, c: int, r: int| 0 <= p < g.players() && 0 <= c < words * 64 && 0 <= r < h ==>
        #[trigger] player_next[p].fog.cell(c, r) == (g.pfog(p).cell(c, r)
            && !births_clear(g, fog_circle, fog_radius, p, c, r, row, col, words as int, h as int))
}

impl Universe {
    /// Compute the next generation. Returns the new latest generation number.
    ///
    /// The new latest state follows `is_next_state` from the previous one; it is written into the
    /// next slot of the circular buffer of generations. Each player's fog is cleared around the
    /// cells the player gains (see `births_clear`; for fog radii up to 32 on a universe at least
    /// 192 cells wide and as high as the fog circle, exactly within the fog circle around them,
    /// see `gain_near`). The fog window around a gained cell must not reach more than one full
    /// turn of the universe above or to the left of it (`births_in_reach`).
    pub fn next(&mut self) -> (new_gen: usize)
        requires
            old(self).wf(),
            old(self).history_spec() >= 2,
            old(self).generation_spec() < usize::MAX,
            births_in_reach(&old(self).cur(), old(self).fog_radius_spec() as int),
        ensures
            final(self).wf(),
            new_gen == old(self).generation_spec() + 1,
            final(self).generation_spec() == new_gen,
            final(self).state_index_spec() == (old(self).state_index_spec() + 1) % old(self).history_spec(),
            final(self).width_spec() == old(self).width_spec(),
            final(self).height_spec() == old(self).height_spec(),
            final(self).words_spec() == old(self).words_spec(),
            final(self).num_players_spec() == old(self).num_players_spec(),
            final(self).history_spec() == old(self).history_spec(),
            final(self).fog_radius_spec() == old(self).fog_radius_spec(),
            final(self).fog_circle_spec() == old(self).fog_circle_spec(),
            forall|p: int| #[trigger] final(self).writable_spec(p) == old(self).writable_spec(p),
            forall|i: int| 0 <= i < old(self).history_spec() && i != final(self).state_index_spec() ==>
                #[trigger] final(self).gen_state_spec(i) == old(self).gen_state_spec(i),
            final(self).cur().gen_or_none == Some(new_gen),
            is_next_state(&old(self).cur(), &final(self).cur(), old(self).width_spec() as int, old(self).height_spec() as int),
            forall|p: int, c: int, r: int| 0 <= p < old(self).num_players_spec() && old(self).in_grid(c, r) ==>
                #[trigger] final(self).cur().pfog(p).cell(c, r) == (old(self).cur().pfog(p).cell(c, r)
                    && !births_clear(&old(self).cur(), &old(self).fog_circle_spec(), old(self).fog_radius_spec() as int,
                        p, c, r, old(self).height_spec() as int, 0, old(self).words_spec() as int, old(self).height_spec() as int)),
            old(self).fog_radius_spec() <= 32 && old(self).words_spec() >= 3
                && 2 * old(self).fog_radius_spec() - 1 <= old(self).height_spec() ==>
                forall|p: int, c: int, r: int| 0 <= p < old(self).num_players_spec() && old(self).in_grid(c, r) ==>
                    #[trigger] final(self).cur().pfog(p).cell(c, r) == (old(self).cur().pfog(p).cell(c, r)
                        && !gain_near(&old(self).cur(), old(self).fog_radius_spec() as int, p, c, r)),
    {
        proof { self.lemma_wf_cur(); }
        let history = self.gen_states.len();
        let si = self.state_index;
        let next_state_index = (si + 1) % history;
        let h = self.height;
        let wiw = self.width_in_words;
        let np = self.num_players;
        let ghost g = self.gen_states@[si as int];
        let ghost words = wiw as nat;
        let ghost hn = h as nat;

        let mut cells_next = BitGrid::new(wiw, h);
        let mut known_next = BitGrid::new(wiw, h);
        let mut wall_next = BitGrid::new(wiw, h);
        let mut player_next: Vec<PlayerGenState> = Vec::new();

        // Copy fog over to next generation
        let mut p: usize = 0;
        while p < np
            invariant
                self.wf(),
                g == self.cur(),
                si == self.state_index,
                g.has_shape(words, hn),
                g.players() == np,
                words == wiw,
                hn == h,
                p <= np,
                player_next@.len() == p,
                forall|q: int| 0 <= q < p ==> (#[trigger] player_next@[q]).cells.shaped(words, hn)
                    && player_next@[q].fog.shaped(words, hn),
                forall|q: int, r: int, c: int| 0 <= q < p && 0 <= r < h && 0 <= c < wiw ==>
                    #[trigger] player_next@[q].fog.word(r, c) == g.pfog(q).word(r, c),
            decreases np - p,
        {
            let gs = &self.gen_states[si];
            assert(gs.player_states@[p as int].fog.shaped(words, hn));
            let fog = gs.player_states[p].fog.copy_words(wiw, h);
            player_next.push(PlayerGenState { cells: BitGrid::new(wiw, h), fog });
            p += 1;
        }
        proof {
            assert forall|q: int, c: int, r: int| 0 <= q < g.players() && 0 <= c < words * 64 && 0 <= r < hn implies
                #[trigger] player_next@[q].fog.cell(c, r) == (g.pfog(q).cell(c, r)
                    && !births_clear(&g, &self.fog_circle, self.fog_radius as int, q, c, r, 0, 0, words as int, hn as int)) by {
                lemma_col_word(c, words);
            }
        }

        let gs = &self.gen_states[si];
        let mut row_idx: usize = 0;
        while row_idx < h
            invariant
                self.wf(),
                g == self.cur(),
                *gs == g,
                si == self.state_index,
                g.has_shape(words, hn),
                g.players() == np,
                np == self.num_players,
                words == wiw,
                hn == h,
                wiw == self.width_in_words,
                h == self.height,
                0 < h,
                0 < wiw,
                row_idx <= h,
                births_in_reach(&g, self.fog_radius as int),
                g.words() == words,
                g.rows() == hn,
                next_progress(&g, &cells_next, &known_next, &wall_next, player_next@, &self.fog_circle, self.fog_radius as int,
                    row_idx as int, 0, words, hn),
            decreases h - row_idx,
        {
            let n_row_idx = (row_idx + h - 1) % h;
            let s_row_idx = (row_idx + 1) % h;
            proof {
                lemma_wrap_index(row_idx as int, h as int);
            }
            let mut col_idx: usize = 0;
            while col_idx < wiw
                invariant
                    self.wf(),
                    g == self.cur(),
                    *gs == g,
                    si == self.state_index,
                    g.has_shape(words, hn),
                    g.players() == np,
                    np == self.num_players,
                    words == wiw,
                    hn == h,
                    wiw == self.width_in_words,
                    h == self.height,
                    0 < h,
                    0 < wiw,
                    row_idx < h,
                    n_row_idx == nrow(row_idx as int, h as int),
                    s_row_idx == srow(row_idx as int, h as int),
                    n_row_idx < h,
                    s_row_idx < h,
                    col_idx <= wiw,
                    births_in_reach(&g, self.fog_radius as int),
                    g.words() == words,
                    g.rows() == hn,
                    next_progress(&g, &cells_next, &known_next, &wall_next, player_next@, &self.fog_circle, self.fog_radius as int,
                        row_idx as int, col_idx as int, words, hn),
                decreases wiw - col_idx,
            {
                let w_col = (col_idx + wiw - 1) % wiw;
                let e_col = (col_idx + 1) % wiw;
                proof {
                    lemma_wrap_index(col_idx as int, wiw as int);
                }
                let ghost before_cells = cells_next;
                let ghost before_known = known_next;
                let ghost before_wall = wall_next;
                let ghost before_players = player_next@;

                let cells = &gs.cells;
                let known = &gs.known;
                let wall = &gs.wall_cells;
                let life = Universe::next_single_gen(
                    cells.0[n_row_idx][w_col], cells.0[n_row_idx][col_idx], cells.0[n_row_idx][e_col],
                    cells.0[row_idx][w_col], cells.0[row_idx][col_idx], cells.0[row_idx][e_col],
                    cells.0[s_row_idx][w_col], cells.0[s_row_idx][col_idx], cells.0[s_row_idx][e_col],
                );
                // any known cells with at least one unknown neighbor will become unknown in the
                // next generation
                let known_word = Universe::contagious_zero(
                    known.0[n_row_idx][w_col], known.0[n_row_idx][col_idx], known.0[n_row_idx][e_col],
                    known.0[row_idx][w_col], known.0[row_idx][col_idx], known.0[row_idx][e_col],
                    known.0[s_row_idx][w_col], known.0[s_row_idx][col_idx], known.0[s_row_idx][e_col],
                );
                known_next.set_word(row_idx, col_idx, known_word);
                let mut cells_cen_next = life & known_word;
                cells_cen_next = cells_cen_next & !wall.0[row_idx][col_idx];
                assert(cells_cen_next == next_cells_word(&g, row_idx as int, col_idx as int, words as int, hn as int));
                cells_next.set_word(row_idx, col_idx, cells_cen_next);
                wall_next.set_word(row_idx, col_idx, wall.0[row_idx][col_idx]);

                // A cell which would have belonged to 2+ players in the next generation will
                // belong to no one.
                let mut in_multiple: u64 = 0;
                let mut seen_before: u64 = 0;
                let mut p: usize = 0;
                while p < np
                    invariant
                        *gs == g,
                        g.has_shape(words, hn),
                        g.players() == np,
                        words == wiw,
                        hn == h,
                        0 < h,
                        0 < wiw,
                        row_idx < h,
                        col_idx < wiw,
                        n_row_idx == nrow(row_idx as int, h as int),
                        s_row_idx == srow(row_idx as int, h as int),
                        w_col == wcol(col_idx as int, wiw as int),
                        e_col == ecol(col_idx as int, wiw as int),
                        n_row_idx < h,
                        s_row_idx < h,
                        w_col < wiw,
                        e_col < wiw,
                        cells_cen_next == next_cells_word(&g, row_idx as int, col_idx as int, words as int, hn as int),
                        p <= np,
                        seen_before == seen_word(&g, p as nat, row_idx as int, col_idx as int, words as int, hn as int),
                        in_multiple == multi_word(&g, p as nat, row_idx as int, col_idx as int, words as int, hn as int),
                        player_next@.len() == np,
                        forall|q: int| 0 <= q < np ==> (#[trigger] player_next@[q]).fog == before_players[q].fog,
                        forall|q: int| 0 <= q < np ==> (#[trigger] player_next@[q]).cells.shaped(words, hn),
                        forall|q: int, r: int, c: int| 0 <= q < np && 0 <= r < h && 0 <= c < wiw && (r != row_idx || c != col_idx) ==>
                            #[trigger] player_next@[q].cells.word(r, c) == before_players[q].cells.word(r, c),
                        forall|q: int| 0 <= q < p ==> #[trigger] player_next@[q].cells.word(row_idx as int, col_idx as int)
                            == claim_word(&g, q, row_idx as int, col_idx as int, words as int, hn as int),
                    decreases np - p,
                {
                    assert(gs.player_states@[p as int].cells.shaped(words, hn));
                    let pc = &gs.player_states[p].cells;
                    let player_cell_next = Universe::contagious_one(
                        pc.0[n_row_idx][w_col], pc.0[n_row_idx][col_idx], pc.0[n_row_idx][e_col],
                        pc.0[row_idx][w_col], pc.0[row_idx][col_idx], pc.0[row_idx][e_col],
                        pc.0[s_row_idx][w_col], pc.0[s_row_idx][col_idx], pc.0[s_row_idx][e_col],
                    ) & cells_cen_next;
                    assert(player_cell_next == claim_word(&g, p as int, row_idx as int, col_idx as int, words as int, hn as int));
                    in_multiple = in_multiple | (player_cell_next & seen_before);
                    seen_before = seen_before | player_cell_next;
                    let ghost mid = player_next@;
                    player_next[p].cells.set_word(row_idx, col_idx, player_cell_next);
                    proof {
                        assert forall|q: int| 0 <= q < np && q != p implies #[trigger] player_next@[q] == mid[q] by {}
                        assert forall|q: int| 0 <= q < np implies (#[trigger] player_next@[q]).cells.shaped(words, hn) by {
                            if q != p { assert(player_next@[q] == mid[q]); }
                        }
                        assert forall|q: int, r: int, c: int| 0 <= q < np && 0 <= r < h && 0 <= c < wiw && (r != row_idx || c != col_idx) implies
                            #[trigger] player_next@[q].cells.word(r, c) == before_players[q].cells.word(r, c) by {
                            if q != p { assert(player_next@[q] == mid[q]); }
                        }
                        assert forall|q: int| 0 <= q < p + 1 implies #[trigger] player_next@[q].cells.word(row_idx as int, col_idx as int)
                            == claim_word(&g, q, row_idx as int, col_idx as int, words as int, hn as int) by {
                            if q != p { assert(player_next@[q] == mid[q]); }
                        }
                        assert forall|q: int| 0 <= q < np implies (#[trigger] player_next@[q]).fog == before_players[q].fog by {
                            if q != p { assert(player_next@[q] == mid[q]); }
                        }
                    }
                    p += 1;
                }

                let ghost claimed = player_next@;
                let mut p: usize = 0;
                while p < np
                    invariant
                        self.wf(),
                        *gs == g,
                        g == self.cur(),
                        g.has_shape(words, hn),
                        g.players() == np,
                        words == wiw,
                        hn == h,
                        0 < h,
                        0 < wiw,
                        wiw == self.width_in_words,
                        h == self.height,
                        row_idx < h,
                        col_idx < wiw,
                        births_in_reach(&g, self.fog_radius as int),
                        g.words() == words,
                        g.rows() == hn,
                        in_multiple == multi_word(&g, np as nat, row_idx as int, col_idx as int, words as int, hn as int),
                        p <= np,
                        player_next@.len() == np,
                        forall|q: int| 0 <= q < np ==> (#[trigger] player_next@[q]).cells.shaped(words, hn)
                            && player_next@[q].fog.shaped(words, hn),
                        forall|q: int, r: int, c: int| 0 <= q < np && 0 <= r < h && 0 <= c < wiw && (r != row_idx || c != col_idx) ==>
                            #[trigger] player_next@[q].cells.word(r, c) == claimed[q].cells.word(r, c),
                        forall|q: int| 0 <= q < np ==> #[trigger] player_next@[q].cells.word(row_idx as int, col_idx as int)
                            == if q < p {
                                owner_word(&g, q, np as nat, row_idx as int, col_idx as int, words as int, hn as int)
                            } else {
                                claimed[q].cells.word(row_idx as int, col_idx as int)
                            },
                        forall|q: int| 0 <= q < np ==> #[trigger] claimed[q].cells.word(row_idx as int, col_idx as int)
                            == claim_word(&g, q, row_idx as int, col_idx as int, words as int, hn as int),
                        forall|q: int, c: int, r: int| 0 <= q < np && 0 <= c < words * 64 && 0 <= r < hn ==>
                            #[trigger] player_next@[q].fog.cell(c, r) == (g.pfog(q).cell(c, r)
                                && !births_clear(&g, &self.fog_circle, self.fog_radius as int, q, c, r, row_idx as int,
                                    if q < p { col_idx as int + 1 } else { col_idx as int }, words as int, hn as int)),
                    decreases np - p,
                {
                    assert(gs.player_states@[p as int].cells.shaped(words, hn));
                    assert(player_next@[p as int].cells.shaped(words, hn));
                    let cell_cur = gs.player_states[p].cells.0[row_idx][col_idx];
                    let mut cell_next = player_next[p].cells.0[row_idx][col_idx];
                    assert(player_next@[p as int].cells.word(row_idx as int, col_idx as int) == claimed[p as int].cells.word(row_idx as int, col_idx as int));
                    assert(claimed[p as int].cells.word(row_idx as int, col_idx as int) == claim_word(&g, p as int, row_idx as int, col_idx as int, words as int, hn as int));
                    assert(cell_next == claim_word(&g, p as int, row_idx as int, col_idx as int, words as int, hn as int));
                    // if a cell would have belonged to multiple players, it belongs to none
                    cell_next = cell_next & !in_multiple;
                    assert(cell_next == owner_word(&g, p as int, np as nat, row_idx as int, col_idx as int, words as int, hn as int));
                    let ghost mid = player_next@;
                    player_next[p].cells.set_word(row_idx, col_idx, cell_next);
                    let ghost mid2 = player_next@;
                    proof {
                        assert forall|q: int| 0 <= q < np && q != p implies #[trigger] player_next@[q] == mid[q] by {}
                    }
                    proof {
                        let bits = cell_next & !cell_cur;
                        assert(cell_cur == g.pcells(p as int).word(row_idx as int, col_idx as int));
                        assert forall|sh: int| 0 <= sh < 64 && #[trigger] low_bit(bits, sh) implies
                            self.fog_radius - 1 <= self.height + row_idx
                            && self.fog_radius - 1 <= self.width + col_idx * 64 + (63 - sh) by {
                            let k = 63 - sh;
                            let c = col_idx * 64 + k;
                            lemma_low_bit_at(bits, sh);
                            lemma_bool_ops(cell_next, !cell_cur, k);
                            lemma_bool_ops(cell_cur, 0, k);
                            lemma_owner_bit(&g, p as int, row_idx as int, col_idx as int, k, words, hn);
                            vstd::arithmetic::div_mod::lemma_fundamental_div_mod_converse(c, 64, col_idx as int, k);
                            assert(g.pcells(p as int).cell(c, row_idx as int) == bit_at(cell_cur, k));
                            assert(gains_cell(&g, p as int, c, row_idx as int));
                        }
                    }
                    // clear fog for all cells that turned on in this generation
                    Universe::clear_fog(&mut player_next[p].fog, &self.fog_circle, self.fog_radius, self.width,
                        self.height, row_idx, col_idx, cell_next & !cell_cur);
                    proof {
                        assert forall|q: int| 0 <= q < np && q != p implies #[trigger] player_next@[q] == mid[q] by {
                            assert(player_next@[q] == mid2[q]);
                        }
                        assert(player_next@[p as int].cells == mid2[p as int].cells);
                        assert forall|q: int| 0 <= q < np implies (#[trigger] player_next@[q]).cells.shaped(words, hn)
                            && player_next@[q].fog.shaped(words, hn) by {
                            if q != p { assert(player_next@[q] == mid[q]); }
                        }
                        assert forall|q: int, r: int, c: int| 0 <= q < np && 0 <= r < h && 0 <= c < wiw && (r != row_idx || c != col_idx) implies
                            #[trigger] player_next@[q].cells.word(r, c) == claimed[q].cells.word(r, c) by {
                            if q != p { assert(player_next@[q] == mid[q]); }
                        }
                        assert forall|q: int| 0 <= q < np implies #[trigger] player_next@[q].cells.word(row_idx as int, col_idx as int)
                            == if q < p + 1 {
                                owner_word(&g, q, np as nat, row_idx as int, col_idx as int, words as int, hn as int)
                            } else {
                                claimed[q].cells.word(row_idx as int, col_idx as int)
                            } by {
                            if q != p { assert(player_next@[q] == mid[q]); }
                        }
                        assert forall|q: int, c: int, r: int| 0 <= q < np && 0 <= c < words * 64 && 0 <= r < hn implies
                            #[trigger] player_next@[q].fog.cell(c, r) == (g.pfog(q).cell(c, r)
                                && !births_clear(&g, &self.fog_circle, self.fog_radius as int, q, c, r, row_idx as int,
                                    if q < p + 1 { col_idx as int + 1 } else { col_idx as int }, words as int, hn as int)) by {
                            if q != p {
                                assert(player_next@[q] == mid[q]);
                            } else {
                                assert(mid2[q].fog == mid[q].fog);
                                assert(mid[q].fog.cell(c, r) == (g.pfog(q).cell(c, r)
                                    && !births_clear(&g, &self.fog_circle, self.fog_radius as int, q, c, r, row_idx as int,
                                        col_idx as int, words as int, hn as int)));
                                assert(cell_next & !cell_cur == born_word(&g, q, row_idx as int, col_idx as int, words as int, hn as int));
                                lemma_births_step(&g, &self.fog_circle, self.fog_radius as int, q, c, r, row_idx as int,
                                    col_idx as int, words as int, hn as int);
                            }
                        }
                    }
                    p += 1;
                }
                proof {
                    assert forall|q: int| 0 <= q < np implies #[trigger] player_next@[q].cells.word(row_idx as int, col_idx as int)
                        == owner_word(&g, q, np as nat, row_idx as int, col_idx as int, words as int, hn as int) by {}
                    assert forall|q: int, r: int, c: int| 0 <= q < g.players() && 0 <= r < hn && 0 <= c < words
                        && done(r, c, row_idx as int, col_idx as int + 1) implies
                        #[trigger] player_next@[q].cells.word(r, c) == owner_word(&g, q, g.players(), r, c, words as int, hn as int) by {
                        if r != row_idx || c != col_idx {
                            assert(player_next@[q].cells.word(r, c) == claimed[q].cells.word(r, c));
                            assert(claimed[q].cells.word(r, c) == before_players[q].cells.word(r, c));
                        }
                    }
                    assert forall|r: int, c: int| 0 <= r < hn && 0 <= c < words && done(r, c, row_idx as int, col_idx as int + 1) implies
                        #[trigger] cells_next.word(r, c) == next_cells_word(&g, r, c, words as int, hn as int) by {
                        if r != row_idx || c != col_idx { assert(cells_next.word(r, c) == before_cells.word(r, c)); }
                    }
                    assert forall|r: int, c: int| 0 <= r < hn && 0 <= c < words && done(r, c, row_idx as int, col_idx as int + 1) implies
                        #[trigger] known_next.word(r, c) == block_and_at(&g.known, r, c, words as int, hn as int) by {
                        if r != row_idx || c != col_idx { assert(known_next.word(r, c) == before_known.word(r, c)); }
                    }
                    assert forall|r: int, c: int| 0 <= r < hn && 0 <= c < words && done(r, c, row_idx as int, col_idx as int + 1) implies
                        #[trigger] wall_next.word(r, c) == g.wall_cells.word(r, c) by {
                        if r != row_idx || c != col_idx { assert(wall_next.word(r, c) == before_wall.word(r, c)); }
                    }
                }
                col_idx += 1;
            }
            row_idx += 1;
        }

        let new_gen = self.generation + 1;
        let new_state = GenState {
            gen_or_none: Some(new_gen),
            cells: cells_next,
            wall_cells: wall_next,
            known: known_next,
            player_states: player_next,
        };
        proof {
            Universe::lemma_next_cells(&g, &new_state, &self.fog_circle, self.fog_radius as int, words, hn);
            if self.fog_radius <= 32 && words >= 3 && 2 * self.fog_radius - 1 <= hn {
                assert forall|q: int, c: int, r: int| 0 <= q < g.players() && 0 <= c < words * 64 && 0 <= r < hn implies
                    #[trigger] new_state.pfog(q).cell(c, r) == (g.pfog(q).cell(c, r)
                        && !gain_near(&g, self.fog_radius as int, q, c, r)) by {
                    lemma_fog_cleared_iff_near_gains(&g, &self.fog_circle, self.fog_radius as int, q, c, r);
                }
            }
        }
        let ghost old_u = *self;
        self.generation = new_gen;
        self.state_index = next_state_index;
        self.gen_states.set(next_state_index, new_state);
        proof {
            assert forall|i: int| 0 <= i < self.gen_states@.len() implies {
                &&& (#[trigger] self.gen_states@[i]).has_shape(self.width_in_words as nat, self.height as nat)
                &&& self.gen_states@[i].players() == self.num_players
            } by {
                if i != next_state_index {
                    assert(self.gen_states@[i] == old_u.gen_states@[i]);
                }
            }
        }
        new_gen
    }

    /// The words computed for the next generation describe its cells.
    proof fn lemma_next_cells(g: &GenState, n: &GenState, fog_circle: &BitGrid, fog_radius: int, words: nat, h: nat)
        requires
            g.has_shape(words, h),
            0 < words,
            0 < h,
            n.players() == g.players(),
            next_progress(g, &n.cells, &n.known, &n.wall_cells, n.player_states@, fog_circle, fog_radius, h as int, 0, words, h),
        ensures
            n.has_shape(words, h),
            is_next_state(g, n, (words * 64) as int, h as int),
            forall|p: int, c: int, r: int| 0 <= p < g.players() && 0 <= c < words * 64 && 0 <= r < h ==>
                #[trigger] n.pfog(p).cell(c, r) == (g.pfog(p).cell(c, r)
                    && !births_clear(g, fog_circle, fog_radius, p, c, r, h as int, 0, words as int, h as int)),
    {
        let w = (words * 64) as int;
        assert forall|c: int, r: int| 0 <= c < w && 0 <= r < h implies {
            &&& #[trigger] n.cells.cell(c, r) == crate::life::next_alive(g, c, r, w, h as int)
        } by {
            lemma_col_word(c, words);
            lemma_next_words(g, r, c / 64, c % 64, words as int, h as int);
            assert(n.cells.word(r, c / 64) == next_cells_word(g, r, c / 64, words as int, h as int));
        }
        assert forall|c: int, r: int| 0 <= c < w && 0 <= r < h implies
            #[trigger] n.known.cell(c, r) == crate::life::block_all(&g.known, c, r, w, h as int) by {
            lemma_col_word(c, words);
            lemma_next_words(g, r, c / 64, c % 64, words as int, h as int);
            assert(n.known.word(r, c / 64) == block_and_at(&g.known, r, c / 64, words as int, h as int));
        }
        assert forall|c: int, r: int| 0 <= c < w && 0 <= r < h implies
            #[trigger] n.wall_cells.cell(c, r) == g.wall_cells.cell(c, r) by {
            lemma_col_word(c, words);
            assert(n.wall_cells.word(r, c / 64) == g.wall_cells.word(r, c / 64));
        }
        assert forall|p: int, c: int, r: int| 0 <= p < g.players() && 0 <= c < w && 0 <= r < h implies
            #[trigger] n.pcells(p).cell(c, r) == crate::life::next_owned(g, p, g.players(), c, r, w, h as int) by {
            lemma_col_word(c, words);
            let wc = c / 64;
            let k = c % 64;
            lemma_next_words(g, r, wc, k, words as int, h as int);
            lemma_claim_counting(g, g.players(), r, wc, k, words as int, h as int);
            assert(n.pcells(p).word(r, wc) == owner_word(g, p, g.players(), r, wc, words as int, h as int));
            lemma_bool_ops(claim_word(g, p, r, wc, words as int, h as int), !multi_word(g, g.players(), r, wc, words as int, h as int), k);
            lemma_bool_ops(multi_word(g, g.players(), r, wc, words as int, h as int), 0, k);
            assert(bit_at(claim_word(g, p, r, wc, words as int, h as int), k) == crate::life::claims(g, p, wc * 64 + k, r, w, h as int));
        }
        assert forall|p: int, c: int, r: int| 0 <= p < g.players() && 0 <= c < w && 0 <= r < h
            && #[trigger] n.pfog(p).cell(c, r) implies g.pfog(p).cell(c, r) by {
            assert(n.player_states@[p].fog.cell(c, r));
        }
        assert forall|p: int, c: int, r: int| 0 <= p < g.players() && 0 <= c < words * 64 && 0 <= r < h implies
            #[trigger] n.pfog(p).cell(c, r) == (g.pfog(p).cell(c, r)
                && !births_clear(g, fog_circle, fog_radius, p, c, r, h as int, 0, words as int, h as int)) by {
            assert(n.player_states@[p].fog.cell(c, r) == n.pfog(p).cell(c, r));
        }
    }
}

impl Universe {
    /// The state of the latest generation.
    pub fn latest_gen_state(&self) -> (g: &GenState)
        requires
            self.wf(),
        ensures
            *g == self.cur(),
    {
        &self.gen_states[self.state_index]
    }

    /// Mutable access to the state of the latest generation. Everything else stays as it was;
    /// the caller is responsible for keeping the state's shape.
    pub fn latest_gen_state_mut(&mut self) -> (g: &mut GenState)
        requires
            old(self).wf(),
        ensures
            *g == old(self).cur(),
            final(self).width_spec() == old(self).width_spec(),
            final(self).height_spec() == old(self).height_spec(),
            final(self).words_spec() == old(self).words_spec(),
            final(self).generation_spec() == old(self).generation_spec(),
            final(self).num_players_spec() == old(self).num_players_spec(),
            final(self).history_spec() == old(self).history_spec(),
            final(self).state_index_spec() == old(self).state_index_spec(),
            final(self).fog_radius_spec() == old(self).fog_radius_spec(),
            final(self).fog_circle_spec() == old(self).fog_circle_spec(),
            forall|p: int| #[trigger] final(self).writable_spec(p) == old(self).writable_spec(p),
            forall|i: int| 0 <= i < old(self).history_spec() && i != old(self).state_index_spec() ==>
                #[trigger] final(self).gen_state_spec(i) == old(self).gen_state_spec(i),
            final(self).cur() == *final(g),
    {
        let si = self.state_index;
        &mut self.gen_states[si]
    }

    /// The fog circle bitmap used to clear fog around newly born player cells.
    pub fn fog_circle(&self) -> (g: &BitGrid)
        ensures
            *g == self.fog_circle_spec(),
    {
        &self.fog_circle
    }

    /// The radius of the fog cleared around newly born player cells.
    pub fn fog_radius(&self) -> (r: usize)
        ensures
            r == self.fog_radius_spec(),
    {
        self.fog_radius
    }
}

impl Universe {
    /// Pre-computes the "fog circle" bitmap for this universe's fog radius (see
    /// `fog_circle_bitmap`). Notable radius values: 1 does not clear any fog around a cell; 2
    /// clears the cell and its neighbors; 4 is the smallest radius at which the cleared region is
    /// not a square; 8 the smallest at which it is neither square nor octagon.
    fn generate_fog_circle_bitmap(&mut self)
        requires
            1 <= old(self).fog_radius <= MAX_FOG_RADIUS,
        ensures
            *final(self) == (Universe { fog_circle: final(self).fog_circle, ..*old(self) }),
            is_fog_circle(&final(self).fog_circle, old(self).fog_radius as int),
    {
        self.fog_circle = fog_circle_bitmap(self.fog_radius);
    }
}

/// The non-dead cells among the first `n` cells (in row-major order) of a grid `w` cells wide,
/// restricted to `region`, as `(col, row, state)` with states as observed with `visibility`.
pub open spec fn non_dead_scan(g: &GenState, visibility: Option<usize>, region: Region, w: nat, n: nat)
    -> Seq<(usize, usize, CellState)>
    decreases n,
{
    if n == 0 || w == 0 {
        Seq::empty()
    } else {
        let prev = non_dead_scan(g, visibility, region, w, (n - 1) as nat);
        let col = (n - 1) % (w as int);
        let row = (n - 1) / (w as int);
        let st = g.cell_view(visibility, col, row);
        if region.contains_spec(col, row) && st != CellState::Dead {
            prev.push((col as usize, row as usize, st))
        } else {
            prev
        }
    }
}

/// What `non_dead_scan` lists over the first `n` cells, in row-major order, of a grid `w`
/// cells wide and at most `h` rows high: every entry is a cell of the region, among the first
/// `n`, that is not dead, with its state; the entries come in strictly increasing row-major
/// order, so no cell is listed twice; and every such cell is listed.
pub proof fn lemma_non_dead_scan(g: &GenState, visibility: Option<usize>, region: Region, w: nat, h: nat, n: nat)
    requires
        0 < w <= usize::MAX + 1,
        h <= usize::MAX + 1,
        n <= w * h,
    ensures
        ({
            let out = non_dead_scan(g, visibility, region, w, n);
            &&& forall|i: int| 0 <= i < out.len() ==> {
                &&& (#[trigger] out[i]).0 < w
                &&& out[i].1 * w + out[i].0 < n
                &&& region.contains_spec(out[i].0 as int, out[i].1 as int)
                &&& out[i].2 == g.cell_view(visibility, out[i].0 as int, out[i].1 as int)
                &&& out[i].2 != CellState::Dead
            }
            &&& forall|i: int, j: int| 0 <= i < j < out.len() ==>
                (#[trigger] out[i]).1 * w + out[i].0 < (#[trigger] out[j]).1 * w + out[j].0
            &&& forall|c: int, r: int| 0 <= c < w && 0 <= r && r * w + c < n && region.contains_spec(c, r)
                && #[trigger] g.cell_view(visibility, c, r) != CellState::Dead ==>
                exists|i: int| 0 <= i < out.len() && #[trigger] out[i] == (c as usize, r as usize, g.cell_view(visibility, c, r))
        }),
    decreases n,
{
    if n > 0 {
        lemma_non_dead_scan(g, visibility, region, w, h, (n - 1) as nat);
        let prev = non_dead_scan(g, visibility, region, w, (n - 1) as nat);
        let out = non_dead_scan(g, visibility, region, w, n);
        let col = (n - 1) % (w as int);
        let row = (n - 1) / (w as int);
        vstd::arithmetic::div_mod::lemma_fundamental_div_mod(n - 1, w as int);
        vstd::arithmetic::div_mod::lemma_mod_bound(n - 1, w as int);
        assert(0 <= row < h) by (nonlinear_arith)
            requires row == (n - 1) / (w as int), 0 < w, n - 1 < w * h, 0 <= n - 1;
        assert(row * w + col == n - 1) by (nonlinear_arith)
            requires n - 1 == w * ((n - 1) / (w as int)) + (n - 1) % (w as int), row == (n - 1) / (w as int),
                col == (n - 1) % (w as int);
        assert forall|c: int, r: int| 0 <= c < w && 0 <= r && r * w + c < n && region.contains_spec(c, r)
            && #[trigger] g.cell_view(visibility, c, r) != CellState::Dead implies
            exists|i: int| 0 <= i < out.len() && #[trigger] out[i] == (c as usize, r as usize, g.cell_view(visibility, c, r)) by {
            if r * w + c < n - 1 {
                let i = choose|i: int| 0 <= i < prev.len() && #[trigger] prev[i] == (c as usize, r as usize, g.cell_view(visibility, c, r));
                assert(out[i] == prev[i]);
            } else {
                lemma_linear_index(r, c, w as int);
                assert(out[out.len() - 1] == (c as usize, r as usize, g.cell_view(visibility, c, r)));
            }
        }
    }
}

/// The cell at linear index `row * w + col` is `(col, row)`.
proof fn lemma_linear_index(row: int, col: int, w: int)
    requires
        0 <= row,
        0 <= col < w,
    ensures
        (row * w + col) % w == col,
        (row * w + col) / w == row,
        row * w + col >= 0,
{
    vstd::arithmetic::div_mod::lemma_fundamental_div_mod_converse(row * w + col, w, row, col);
    assert(row * w >= 0) by (nonlinear_arith) requires row >= 0, w > 0;
}

/// A row outside `region` contributes nothing to the scan.
proof fn lemma_scan_row_outside(g: &GenState, visibility: Option<usize>, region: Region, w: nat, row: int, j: int)
    requires
        0 < w,
        0 <= row,
        0 <= j <= w,
        row < region.top_spec() || row > region.bottom_spec(),
    ensures
        non_dead_scan(g, visibility, region, w, (row * w + j) as nat) == non_dead_scan(g, visibility, region, w, (row * w) as nat),
    decreases j,
{
    if j > 0 {
        lemma_scan_row_outside(g, visibility, region, w, row, j - 1);
        lemma_linear_index(row, j - 1, w as int);
    }
}

impl Universe {
    /// Lists every non-dead cell of the current generation that lies in `region`, in row-major
    /// order, as `(col, row, cell_state)`. `visibility` is an optional player_id; if given, cells
    /// not visible to that player are reported as `CellState::Fog`.
    ///
    /// The bitmaps must be consistent on the listed cells (see `GenState::cell_consistent`).
    pub fn each_non_dead(&self, region: Region, visibility: Option<usize>) -> (out: Vec<(usize, usize, CellState)>)
        requires
            self.wf(),
            visibility matches Some(p) ==> p < self.num_players_spec(),
            forall|c: int, r: int| self.in_grid(c, r) && region.contains_spec(c, r) ==>
                #[trigger] self.cur().cell_consistent(visibility, c, r),
        ensures
            out@ == non_dead_scan(&self.cur(), visibility, region, self.width_spec(),
                self.width_spec() * self.height_spec()),
            forall|i: int| 0 <= i < out@.len() ==> {
                &&& self.in_grid((#[trigger] out@[i]).0 as int, out@[i].1 as int)
                &&& region.contains_spec(out@[i].0 as int, out@[i].1 as int)
                &&& out@[i].2 != CellState::Dead
                &&& self.cur().cells.cell(out@[i].0 as int, out@[i].1 as int)
                    && !(visibility matches Some(p) && self.cur().pfog(p as int).cell(out@[i].0 as int, out@[i].1 as int))
                    ==> out@[i].2 == CellState::Alive(self.cur().lowest_owner(self.num_players_spec(),
                        out@[i].0 as int, out@[i].1 as int))
            },
    {
        proof { self.lemma_wf_cur(); }
        let ghost g = self.cur();
        let ghost w = self.width_spec();
        let gs = &self.gen_states[self.state_index];
        let cells = &gs.cells;
        let wall = &gs.wall_cells;
        let known = &gs.known;
        let np = self.num_players;
        let wiw = self.width_in_words;
        let h = self.height;
        let top = region.top();
        let bottom = region.bottom();
        let left = region.left();
        let right = region.right();
        let mut out: Vec<(usize, usize, CellState)> = Vec::new();
        let mut row: usize = 0;
        while row < h
            invariant
                self.wf(),
                *gs == g,
                *cells == g.cells,
                *wall == g.wall_cells,
                *known == g.known,
                g == self.cur(),
                g.valid(),
                g.words() == wiw,
                g.rows() == h,
                g.players() == np,
                w == wiw * 64,
                w == self.width_spec(),
                h == self.height_spec(),
                np == self.num_players,
                wiw == self.width_in_words,
                visibility matches Some(p) ==> p < np,
                forall|c: int, r: int| self.in_grid(c, r) && region.contains_spec(c, r) ==>
                    #[trigger] self.cur().cell_consistent(visibility, c, r),
                top == region.top_spec(),
                bottom == region.bottom_spec(),
                left == region.left_spec(),
                right == region.right_spec(),
                row <= h,
                out@ == non_dead_scan(&g, visibility, region, w, (row * w) as nat),
            decreases h - row,
        {
            if (row as isize) >= top && (row as isize) <= bottom {
                let mut col: usize = 0;
                let mut col_idx: usize = 0;
                while col_idx < wiw
                    invariant
                        self.wf(),
                        *gs == g,
                    *cells == g.cells,
                    *wall == g.wall_cells,
                    *known == g.known,
                *cells == g.cells,
                *wall == g.wall_cells,
                *known == g.known,
                        g == self.cur(),
                        g.valid(),
                        g.words() == wiw,
                        g.rows() == h,
                        g.players() == np,
                        w == wiw * 64,
                        w == self.width_spec(),
                        h == self.height_spec(),
                        np == self.num_players,
                        visibility matches Some(p) ==> p < np,
                        forall|c: int, r: int| self.in_grid(c, r) && region.contains_spec(c, r) ==>
                            #[trigger] self.cur().cell_consistent(visibility, c, r),
                        top <= row <= bottom,
                        top == region.top_spec(),
                        bottom == region.bottom_spec(),
                        left == region.left_spec(),
                        right == region.right_spec(),
                        row < h,
                        col_idx <= wiw,
                        col == col_idx * 64,
                        out@ == non_dead_scan(&g, visibility, region, w, (row * w + col) as nat),
                    decreases wiw - col_idx,
                {
                    let cells_word = cells.0[row][col_idx];
                    let wall_word = wall.0[row][col_idx];
                    let known_word = known.0[row][col_idx];
                    let mut k: usize = 0;
                    while k < 64
                        invariant
                            self.wf(),
                            *gs == g,
                            *cells == g.cells,
                            *wall == g.wall_cells,
                            *known == g.known,
                    *cells == g.cells,
                    *wall == g.wall_cells,
                    *known == g.known,
                *cells == g.cells,
                *wall == g.wall_cells,
                *known == g.known,
                            g == self.cur(),
                            g.valid(),
                            g.words() == wiw,
                            g.rows() == h,
                            g.players() == np,
                            w == wiw * 64,
                            w == self.width_spec(),
                            h == self.height_spec(),
                            visibility matches Some(p) ==> p < np,
                            forall|c: int, r: int| self.in_grid(c, r) && region.contains_spec(c, r) ==>
                                #[trigger] self.cur().cell_consistent(visibility, c, r),
                            top <= row <= bottom,
                            top == region.top_spec(),
                            bottom == region.bottom_spec(),
                            left == region.left_spec(),
                            right == region.right_spec(),
                            row < h,
                            col_idx < wiw,
                            k <= 64,
                            col == col_idx * 64 + k,
                            cells_word == g.cells.word(row as int, col_idx as int),
                            wall_word == g.wall_cells.word(row as int, col_idx as int),
                            known_word == g.known.word(row as int, col_idx as int),
                            out@ == non_dead_scan(&g, visibility, region, w, (row * w + col) as nat),
                        decreases 64 - k,
                    {
                        let shift: u64 = (63 - k) as u64;
                        proof {
                            crate::life::lemma_word_offset(col_idx as int, k as int);
                            lemma_linear_index(row as int, col as int, w as int);
                        }
                        let ghost ci = col as int;
                        let ghost ri = row as int;
                        if (col as isize) >= left && (col as isize) <= right {
                            assert(g.cell_consistent(visibility, ci, ri));
                            let c = (cells_word >> shift) & 1 == 1;
                            let wl = (wall_word >> shift) & 1 == 1;
                            let kn = (known_word >> shift) & 1 == 1;
                            assert(c == g.cells.cell(ci, ri));
                            assert(wl == g.wall_cells.cell(ci, ri));
                            assert(kn == g.known.cell(ci, ri));
                            let mut state = CellState::Wall;
                            if c && !wl && kn {
                                // It's known and it's a cell; find the owning player, if any
                                let mut opt_player_id: Option<usize> = None;
                                let mut player_id: usize = 0;
                                while player_id < np
                                    invariant
                                        *gs == g,
                            *cells == g.cells,
                            *wall == g.wall_cells,
                            *known == g.known,
                    *cells == g.cells,
                    *wall == g.wall_cells,
                    *known == g.known,
                *cells == g.cells,
                *wall == g.wall_cells,
                *known == g.known,
                                        g.valid(),
                                        g.words() == wiw,
                                        g.rows() == h,
                                        g.players() == np,
                                        row < h,
                                        col_idx < wiw,
                                        k < 64,
                                        shift == 63 - k,
                                        col == col_idx * 64 + k,
                                        ci == col,
                                        ri == row,
                                        0 <= ci < w,
                                        w == wiw * 64,
                                        player_id <= np,
                                        opt_player_id == g.lowest_owner(player_id as nat, ci, ri),
                                    decreases np - player_id,
                                {
                                    assert(gs.player_states@[player_id as int].cells.shaped(wiw as nat, h as nat));
                                    let pw = gs.player_states[player_id].cells.0[row][col_idx];
                                    let pc = (pw >> shift) & 1 == 1;
                                    assert(pc == g.pcells(player_id as int).cell(ci, ri));
                                    if pc && opt_player_id.is_none() {
                                        opt_player_id = Some(player_id);
                                    }
                                    player_id += 1;
                                }
                                state = CellState::Alive(opt_player_id);
                            } else {
                                if !c && !wl {
                                    state = if kn { CellState::Dead } else { CellState::Fog };
                                } else if !c && wl {
                                    state = CellState::Wall;
                                }
                            }
                            if let Some(player_id) = visibility {
                                assert(gs.player_states@[player_id as int].fog.shaped(wiw as nat, h as nat));
                                let pfw = gs.player_states[player_id].fog.0[row][col_idx];
                                let pf = (pfw >> shift) & 1 == 1;
                                assert(pf == g.pfog(player_id as int).cell(ci, ri));
                                if pf {
                                    state = CellState::Fog;
                                }
                            }
                            assert(state == g.cell_view(visibility, ci, ri));
                            if state != CellState::Dead {
                                out.push((col, row, state));
                            }
                        }
                        proof {
                            assert((row * w + col + 1) as nat - 1 == row * w + col);
                        }
                        col += 1;
                        k += 1;
                    }
                    col_idx += 1;
                }
                proof {
                    assert(row * w + w == (row + 1) * w) by (nonlinear_arith);
                }
            } else {
                proof {
                    lemma_scan_row_outside(&g, visibility, region, w, row as int, w as int);
                    assert(row * w + w == (row + 1) * w) by (nonlinear_arith);
                }
            }
            row += 1;
        }
        proof {
            assert(h * w == w * h) by (nonlinear_arith);
            lemma_non_dead_scan(&g, visibility, region, w, h as nat, (w * h) as nat);
            assert forall|i: int| 0 <= i < out@.len() implies self.in_grid((#[trigger] out@[i]).0 as int, out@[i].1 as int) by {
                let k = out@[i].1 * w + out@[i].0;
                assert(out@[i].1 < h) by (nonlinear_arith)
                    requires k == out@[i].1 * w + out@[i].0, k < w * h, 0 <= out@[i].0, 0 < w;
            }
        }
        out
    }

    /// Lists every non-dead cell of the current generation, as `each_non_dead` does for the
    /// whole universe (the region that `region` returns).
    pub fn each_non_dead_full(&self, visibility: Option<usize>) -> (out: Vec<(usize, usize, CellState)>)
        requires
            self.wf(),
            visibility matches Some(p) ==> p < self.num_players_spec(),
            forall|c: int, r: int| self.in_grid(c, r) ==> #[trigger] self.cur().cell_consistent(visibility, c, r),
        ensures
            forall|reg: Region| reg.left_spec() == 0 && reg.top_spec() == 0 && reg.width_spec() == self.width_spec()
                && reg.height_spec() == self.height_spec() ==>
                out@ == #[trigger] non_dead_scan(&self.cur(), visibility, reg, self.width_spec(),
                    self.width_spec() * self.height_spec()),
    {
        let reg = self.region();
        let out = self.each_non_dead(reg, visibility);
        proof {
            assert forall|other: Region| other.left_spec() == 0 && other.top_spec() == 0
                && other.width_spec() == self.width_spec() && other.height_spec() == self.height_spec() implies
                out@ == #[trigger] non_dead_scan(&self.cur(), visibility, other, self.width_spec(),
                    self.width_spec() * self.height_spec()) by {
                Region::lemma_region_ext(reg, other);
            }
        }
        out
    }
}

impl Universe {
    /// Copies from `src` to the latest generation as the player specified by `opt_player_id`,
    /// unless it is `None` (see `GenState::copy_from_bit_grid`). When a player is given, only the
    /// part of `dst_region` within the player's writable region is written; nothing happens when
    /// they do not overlap.
    pub fn copy_from_bit_grid(&mut self, src: &BitGrid, dst_region: Region, opt_player_id: Option<usize>)
        requires
            old(self).wf(),
            src.well_shaped(),
            opt_player_id matches Some(p) ==> p < old(self).num_players_spec(),
            opt_player_id is None ==> region_within(dst_region, old(self).words_spec(), old(self).height_spec()),
            opt_player_id matches Some(p) ==> (dst_region.intersection_spec(old(self).writable_spec(p as int))
                matches Some((l, t, w, h)) ==> 0 <= l && 0 <= t && l + w <= old(self).width_spec() && t + h <= old(self).height_spec()),
        ensures
            match opt_player_id {
                None => old(self).only_cur_changed(final(self))
                    && old(self).cur().paste_result(&final(self).cur(), src, dst_region, None),
                Some(p) => match dst_region.intersection_spec(old(self).writable_spec(p as int)) {
                    None => *final(self) == *old(self),
                    Some((l, t, w, h)) => old(self).only_cur_changed(final(self))
                        && exists|reg: Region| reg.left_spec() == l && reg.top_spec() == t && reg.width_spec() == w
                            && reg.height_spec() == h
                            && #[trigger] old(self).cur().paste_result(&final(self).cur(), src, reg, opt_player_id),
                },
            },
    {
        proof {
            self.lemma_wf_cur();
        }
        let region;
        if let Some(player_id) = opt_player_id {
            if let Some(r) = dst_region.intersection(self.player_writable[player_id]) {
                region = r;
            } else {
                return;
            }
        } else {
            region = dst_region;
        }
        let ghost old_u = *self;
        let si = self.state_index;
        self.gen_states[si].copy_from_bit_grid(src, region, opt_player_id);
        proof {
            Universe::lemma_replace_cur(&old_u, self);
            assert(old_u.cur().paste_result(&self.cur(), src, region, opt_player_id));
        }
    }

    /// Whether `ch` may appear in a pattern read from or written to a universe.
    pub fn is_valid(ch: char) -> (r: bool)
        ensures
            r == (ch == 'o' || ch == 'b' || ('A' <= ch <= 'W') || ch == '?' || ch == '"'),
    {
        GenState::is_valid(ch)
    }

    /// Given a starting cell at `(col, row)` of the latest generation, gets the character of
    /// that cell as observed with `visibility`, and a number of cells from there to the right
    /// that show the same character (see `GenState::get_run`).
    pub fn get_run(&self, col: usize, row: usize, visibility: Option<usize>) -> (res: (usize, char))
        requires
            self.wf(),
            self.in_grid(col as int, row as int),
            visibility matches Some(p) ==> p < self.num_players_spec(),
            has_char(self.cur().run_state(visibility, col as int, row as int)),
        ensures
            res.1 == cell_char(self.cur().run_state(visibility, col as int, row as int)),
            res.0 == self.cur().run_length(visibility, col as int, row as int),
            1 <= res.0,
            col + res.0 <= self.width_spec(),
            forall|i: int| col <= i < col + res.0 ==> #[trigger] self.cur().run_state(visibility, i, row as int)
                == self.cur().run_state(visibility, col as int, row as int),
            forall|k: int| 1 <= k && col + k <= self.width_spec()
                && #[trigger] self.cur().dead_from(visibility, col as int, row as int, k) ==> res.0 >= k,
            forall|k: int| 1 <= k && col + k <= self.width_spec()
                && #[trigger] self.cur().same_from(visibility, col as int, row as int, k) ==> res.0 >= k,
    {
        proof {
            self.lemma_wf_cur();
        }
        let gen_state = &self.gen_states[self.state_index];
        gen_state.get_run(col, row, visibility)
    }
}

/// The message refusing a difference that spans `span` generations in a buffer of `len`.
pub open spec fn too_many_gens_message(span: nat, len: nat) -> Seq<char> {
    "diff is across too many generations to be applied: "@ + digits(span) + seq![' ', '>', '=', ' '] + digits(len)
}

/// Builds the message refusing a difference that spans `span` generations in a buffer of `len`.
fn too_many_gens(span: usize, len: usize) -> (e: String)
    ensures
        e@ == too_many_gens_message(span as nat, len as nat),
{
    let mut e = "diff is across too many generations to be applied: ".to_owned();
    push_digits(&mut e, span);
    push_char(&mut e, ' ');
    push_char(&mut e, '>');
    push_char(&mut e, '=');
    push_char(&mut e, ' ');
    push_digits(&mut e, len);
    proof {
        assert(e@ =~= too_many_gens_message(span as nat, len as nat));
    }
    e
}

impl Universe {
    /// The index of the last of the first `n` buffered states that holds generation `g`, if any.
    pub open spec fn gen_index_upto(&self, g: nat, n: nat) -> Option<int>
        decreases n,
    {
        if n == 0 {
            None
        } else if self.gen_state_spec(n - 1).gen_or_none == Some(g as usize) {
            Some(n - 1)
        } else {
            self.gen_index_upto(g, (n - 1) as nat)
        }
    }

    /// The index of the last buffered state that holds generation `g`, if any.
    pub open spec fn gen_index(&self, g: nat) -> Option<int> {
        self.gen_index_upto(g, self.history_spec())
    }

    /// Some buffered state holds generation `g` or a later one.
    pub open spec fn has_gen_at_least(&self, g: nat) -> bool {
        exists|i: int| 0 <= i < self.history_spec() && ((#[trigger] self.gen_state_spec(i)).gen_or_none matches Some(x) && x >= g)
    }

    /// Applying `diff` goes past its first checks: it spans fewer generations than are buffered,
    /// no buffered generation is as late as its target, and its base generation is buffered.
    pub open spec fn apply_proceeds(&self, diff: &GenStateDiff) -> bool {
        &&& diff.gen1 - diff.gen0 < self.history_spec()
        &&& !self.has_gen_at_least(diff.gen1 as nat)
        &&& self.gen_index(diff.gen0 as nat) is Some
    }

    /// The buffer slot that receives the target generation of `diff`.
    pub open spec fn apply_slot(&self, diff: &GenStateDiff) -> int {
        (self.gen_index(diff.gen0 as nat)->0 + diff.gen1 - diff.gen0) % (self.history_spec() as int)
    }

    /// The state at slot `i` once the generations too old to be kept after `gen1` are dropped.
    pub open spec fn aged_state(&self, i: int, gen1: nat) -> GenState {
        let g = self.gen_state_spec(i);
        if (g.gen_or_none matches Some(x) && x + self.history_spec() <= gen1) {
            GenState { gen_or_none: None, ..g }
        } else {
            g
        }
    }

    /// The index found by `gen_index_upto` holds the generation.
    pub proof fn lemma_gen_index_upto(&self, g: nat, n: nat)
        requires
            n <= self.history_spec(),
        ensures
            self.gen_index_upto(g, n) matches Some(i) ==> 0 <= i < n && self.gen_state_spec(i).gen_or_none == Some(g as usize),
            self.gen_index_upto(g, n) is None ==> forall|i: int| 0 <= i < n ==>
                #[trigger] self.gen_state_spec(i).gen_or_none != Some(g as usize),
        decreases n,
    {
        if n > 0 {
            self.lemma_gen_index_upto(g, (n - 1) as nat);
        }
    }

    /// Applying the difference pattern that leads from the buffered state of `diff.gen0` to a
    /// state `t` (see `GenState::diff`) gives `t` back, under `diff_round_trips`: when `apply`
    /// goes ahead, the pattern reads without error and its runs can be written (so `apply`
    /// returns `Ok(Some(diff.gen1))`), and a universe whose latest state was written as `apply`
    /// writes it has `t`'s bits there (fog included when there is an observer).
    pub proof fn lemma_apply_diff_restores(&self, t: &GenState, diff: &GenStateDiff, visibility: Option<usize>,
        new_u: &Universe)
        requires
            self.wf(),
            self.apply_proceeds(diff),
            diff_round_trips(&self.gen_state_spec(self.gen_index(diff.gen0 as nat)->0), t, visibility),
            diff.pattern.0@ == pattern_text(
                pair_runs(GenStatePair { gen_state0: &self.gen_state_spec(self.gen_index(diff.gen0 as nat)->0), gen_state1: t },
                    visibility),
                self.width_spec() as int, self.height_spec() as int, false),
        ensures
            ({
                let d = decode(diff.pattern.0@, self.width_spec() as int, self.height_spec() as int, true);
                &&& d.error == 0
                &&& runs_writable(d.runs, self.num_players_spec(), visibility)
                &&& self.gen_state_spec(self.gen_index(diff.gen0 as nat)->0).written(&new_u.cur(),
                    |c: int, r: int| run_char_at(d.runs, c, r), visibility) ==> same_bits(&new_u.cur(), t, visibility is Some)
            }),
    {
        let i0 = self.gen_index(diff.gen0 as nat)->0;
        self.lemma_gen_index_upto(diff.gen0 as nat, self.history_spec());
        let g0 = self.gen_states@[i0];
        assert(g0.has_shape(self.width_in_words as nat, self.height as nat));
        assert(g0.players() == self.num_players);
        assert(g0.cells.0@[0]@.len() == self.width_in_words);
        lemma_diff_round_trip(&g0, t, visibility, &new_u.cur());
    }

    /// Applies a difference pattern that leads from generation `diff.gen0` to `diff.gen1`.
    ///
    /// Returns an error, changing nothing, if the difference spans as many generations as are
    /// buffered, or more. Returns `Ok(None)`, changing nothing, if a buffered generation is at
    /// least `diff.gen1` or if `diff.gen0` is not buffered. Otherwise: the generations too old
    /// to be kept are dropped, the slot of `diff.gen1` receives a copy of the state of
    /// `diff.gen0`, and the pattern is written there (see `Pattern::to_grid`); then it becomes
    /// the latest generation and `Ok(Some(diff.gen1))` is returned. If the pattern is refused,
    /// its error is returned and the universe is left with the dropped generations and the
    /// copy, without the latest generation changed.
    pub fn apply(&mut self, diff: &GenStateDiff, visibility: Option<usize>) -> (res: Result<Option<usize>, String>)
        requires
            old(self).wf(),
            diff.gen0 < diff.gen1,
            old(self).apply_proceeds(diff) ==> (visibility matches Some(p) ==> p < old(self).num_players_spec()),
            old(self).apply_proceeds(diff) ==> ({
                let d = decode(diff.pattern.0@, old(self).width_spec() as int, old(self).height_spec() as int, true);
                d.error == 0 ==> runs_writable(d.runs, old(self).num_players_spec(), visibility)
            }),
        ensures
            diff.gen1 - diff.gen0 >= old(self).history_spec() ==> *final(self) == *old(self)
                && res == Err::<Option<usize>, String>(res->Err_0)
                && res->Err_0@ == too_many_gens_message((diff.gen1 - diff.gen0) as nat, old(self).history_spec()),
            diff.gen1 - diff.gen0 < old(self).history_spec() && !old(self).apply_proceeds(diff) ==>
                *final(self) == *old(self) && res == Ok::<Option<usize>, String>(None),
            old(self).apply_proceeds(diff) ==> ({
                let d = decode(diff.pattern.0@, old(self).width_spec() as int, old(self).height_spec() as int, true);
                let i0 = old(self).gen_index(diff.gen0 as nat)->0;
                let i1 = old(self).apply_slot(diff);
                &&& final(self).width_spec() == old(self).width_spec()
                &&& final(self).height_spec() == old(self).height_spec()
                &&& final(self).words_spec() == old(self).words_spec()
                &&& final(self).num_players_spec() == old(self).num_players_spec()
                &&& final(self).history_spec() == old(self).history_spec()
                &&& final(self).fog_radius_spec() == old(self).fog_radius_spec()
                &&& final(self).fog_circle_spec() == old(self).fog_circle_spec()
                &&& forall|p: int| #[trigger] final(self).writable_spec(p) == old(self).writable_spec(p)
                &&& forall|i: int| 0 <= i < old(self).history_spec() && i != i1 ==>
                    #[trigger] final(self).gen_state_spec(i) == old(self).aged_state(i, diff.gen1 as nat)
                &&& match res {
                    Ok(r) => d.error == 0 && r == Some(diff.gen1)
                        && final(self).wf()
                        && final(self).generation_spec() == diff.gen1
                        && final(self).state_index_spec() == i1
                        && final(self).cur().gen_or_none == Some(diff.gen1)
                        && old(self).gen_state_spec(i0).written(&final(self).cur(),
                            |c: int, r: int| run_char_at(d.runs, c, r), visibility),
                    Err(e) => d.error != 0 && e@ == decode_error_message(d.error)
                        && final(self).generation_spec() == old(self).generation_spec()
                        && final(self).state_index_spec() == old(self).state_index_spec()
                        && final(self).gen_state_spec(i1).gen_or_none == old(self).aged_state(i1, diff.gen1 as nat).gen_or_none
                        && old(self).gen_state_spec(i0).same_cells(&final(self).gen_state_spec(i1)),
                }
            }),
    {
        let ghost old_u = *self;
        let len = self.gen_states.len();
        if diff.gen1 - diff.gen0 >= len {
            return Err(too_many_gens(diff.gen1 - diff.gen0, len));
        }

        // find the base generation; stop if some generation is already as late as the target
        let mut opt_gen0_idx: Option<usize> = None;
        let mut i: usize = 0;
        while i < len
            invariant
                len == old_u.history_spec(),
                diff.gen1 - diff.gen0 < len,
                *self == old_u,
                i <= len,
                opt_gen0_idx == match self.gen_index_upto(diff.gen0 as nat, i as nat) {
                    Some(j) => Some(j as usize),
                    None => None::<usize>,
                },
                forall|j: int| 0 <= j < i ==> !((#[trigger] self.gen_state_spec(j)).gen_or_none matches Some(x) && x >= diff.gen1),
            decreases len - i,
        {
            if let Some(gen) = self.gen_states[i].gen_or_none {
                if gen == diff.gen0 {
                    opt_gen0_idx = Some(i);
                }
                if gen >= diff.gen1 {
                    assert(old_u.has_gen_at_least(diff.gen1 as nat)) by {
                        assert(old_u.gen_state_spec(i as int).gen_or_none == Some(gen));
                    }
                    return Ok(None);
                }
            }
            i += 1;
        }
        proof {
            old_u.lemma_gen_index_upto(diff.gen0 as nat, len as nat);
            if old_u.has_gen_at_least(diff.gen1 as nat) {
                let j = choose|j: int| 0 <= j < old_u.history_spec() && ((#[trigger] old_u.gen_state_spec(j)).gen_or_none matches Some(x) && x >= diff.gen1);
                assert(!(old_u.gen_state_spec(j).gen_or_none matches Some(x) && x >= diff.gen1));
            }
        }
        if opt_gen0_idx.is_none() {
            return Ok(None);
        }
        let gen0_idx = opt_gen0_idx.unwrap();

        // make room for the new generation: drop those too old to be kept
        let room = diff.gen1 >= len;
        let oldest = if room { diff.gen1 - len } else { 0 };
        let mut i: usize = 0;
        while i < len
            invariant
                len == old_u.history_spec(),
                self.gen_states@.len() == len,
                room == (diff.gen1 >= len),
                room ==> oldest + len == diff.gen1,
                i <= len,
                *self == (Universe { gen_states: self.gen_states, ..old_u }),
                forall|j: int| 0 <= j < len ==> #[trigger] self.gen_states@[j] == if j < i {
                    old_u.aged_state(j, diff.gen1 as nat)
                } else {
                    old_u.gen_state_spec(j)
                },
            decreases len - i,
        {
            if let Some(gen) = self.gen_states[i].gen_or_none {
                if room && gen <= oldest {
                    self.gen_states[i].gen_or_none = None;
                }
            }
            proof {
                assert forall|j: int| 0 <= j < len implies #[trigger] self.gen_states@[j] == if j < i + 1 {
                    old_u.aged_state(j, diff.gen1 as nat)
                } else {
                    old_u.gen_state_spec(j)
                } by {
                    if j == i {
                        assert(self.gen_states@[j].gen_or_none == old_u.aged_state(j, diff.gen1 as nat).gen_or_none);
                        assert(self.gen_states@[j] =~= old_u.aged_state(j, diff.gen1 as nat));
                    }
                }
            }
            i += 1;
        }

        // copy the base generation into the slot of the new one, then apply the pattern there
        let span = diff.gen1 - diff.gen0;
        let gen1_idx = if gen0_idx >= len - span { gen0_idx - (len - span) } else { gen0_idx + span };
        proof {
            assert(gen1_idx == old_u.apply_slot(diff)) by (nonlinear_arith)
                requires
                    gen1_idx == if gen0_idx >= len - span { gen0_idx - (len - span) } else { gen0_idx + span },
                    old_u.apply_slot(diff) == (gen0_idx + span) % (len as int),
                    gen0_idx < len,
                    span < len;
        }
        let mut dest = GenState {
            gen_or_none: None,
            cells: BitGrid(Vec::new()),
            wall_cells: BitGrid(Vec::new()),
            known: BitGrid(Vec::new()),
            player_states: Vec::new(),
        };
        std::mem::swap(&mut self.gen_states[gen1_idx], &mut dest);
        proof {
            old_u.lemma_wf_cur();
            assert(old_u.gen_states@[gen1_idx as int].has_shape(old_u.width_in_words as nat, old_u.height as nat));
            assert(old_u.gen_states@[gen0_idx as int].has_shape(old_u.width_in_words as nat, old_u.height as nat));
            assert(dest.cells.0@[0]@.len() == old_u.width_in_words);
        }
        let ghost aged_dest = dest;
        dest.clear();
        assert(self.gen_states@[gen0_idx as int] == old_u.gen_state_spec(gen0_idx as int));
        assert(self.gen_states@[gen0_idx as int].cells.0@[0]@.len() == old_u.width_in_words);
        self.gen_states[gen0_idx].copy(&mut dest);
        let ghost copied = dest;
        proof {
            let src = old_u.gen_state_spec(gen0_idx as int);
            assert(src.same_cells(&copied)) by {
                assert forall|p: int, c: int, r: int| 0 <= p < src.players() && src.in_grid(c, r) implies
                    #[trigger] copied.pcells(p).cell(c, r) == src.pcells(p).cell(c, r) by {}
                assert forall|p: int, c: int, r: int| 0 <= p < src.players() && src.in_grid(c, r) implies
                    #[trigger] copied.pfog(p).cell(c, r) == src.pfog(p).cell(c, r) by {}
            }
        }
        let result = diff.pattern.to_grid(&mut dest, visibility);
        let ghost written_state = dest;
        std::mem::swap(&mut self.gen_states[gen1_idx], &mut dest);
        match result {
            Err(e) => {
                return Err(e);
            },
            Ok(_) => {},
        }
        self.generation = diff.gen1;
        self.state_index = gen1_idx;
        self.gen_states[gen1_idx].gen_or_none = Some(diff.gen1);
        proof {
            let d = decode(diff.pattern.0@, old_u.width_spec() as int, old_u.height_spec() as int, true);
            let fin = self.gen_states@[gen1_idx as int];
            assert(fin.cells == written_state.cells);
            assert(fin.wall_cells == written_state.wall_cells);
            assert(fin.known == written_state.known);
            assert(fin.player_states == written_state.player_states);
            let d2 = decode(diff.pattern.0@, (copied.words() * 64) as int, copied.rows() as int, true);
            assert(copied.words() == old_u.words_spec());
            assert(copied.rows() == old_u.height_spec());
            assert(d2 == d);
            assert(copied.written(&written_state, |c: int, r: int| run_char_at(d2.runs, c, r), visibility));
            GenState::lemma_written_regen(&copied, &written_state, Some(diff.gen1), |c: int, r: int| run_char_at(d.runs, c, r), visibility);
            assert(fin == GenState { gen_or_none: Some(diff.gen1), ..written_state });
            GenState::lemma_written_same_cells(&old_u.gen_state_spec(gen0_idx as int), &copied,
                &self.gen_states@[gen1_idx as int], |c: int, r: int| run_char_at(d.runs, c, r), visibility);
            assert forall|i: int| 0 <= i < self.gen_states@.len() implies {
                &&& (#[trigger] self.gen_states@[i]).has_shape(self.width_in_words as nat, self.height as nat)
                &&& self.gen_states@[i].players() == self.num_players
            } by {
                assert(old_u.gen_states@[i].has_shape(old_u.width_in_words as nat, old_u.height as nat));
            }
        }
        Ok(Some(diff.gen1))
    }
}

/// Whether `v` is the code of a character (a Unicode scalar value).
pub open spec fn is_char_code(v: int) -> bool {
    (0 <= v < 0xD800) || (0xE000 <= v <= 0x10FFFF)
}

/// The character with code `v`, if there is one, by calling std's `char::from_u32`, which its
/// documentation describes as returning the character with that code when the code is a Unicode
/// scalar value (at most 0x10FFFF and not a surrogate) and `None` otherwise. The contract states
/// just that, and is trusted, not proved.
#[verifier::external_body]
fn char_from_code(v: u32) -> (r: Option<char>)
    ensures
        is_char_code(v as int) <==> r is Some,
        r matches Some(ch) ==> ch as int == v,
{
    char::from_u32(v)
}

impl Universe {
    /// The character showing cell `(c, r)` of the latest generation: '?' if unknown, the letter
    /// of its lowest-numbered owner (from 'A') or '*' if alive, 'W' for a wall, ' ' otherwise.
    pub open spec fn display_char(&self, c: int, r: int) -> char {
        let g = self.cur();
        if !g.known.cell(c, r) {
            '?'
        } else if g.cells.cell(c, r) {
            match g.lowest_owner(self.num_players_spec(), c, r) {
                Some(p) => (p + 65) as char,
                None => '*',
            }
        } else if g.wall_cells.cell(c, r) {
            'W'
        } else {
            ' '
        }
    }

    /// Character `i` of the text of the latest generation: each row's cells, then a line break.
    pub open spec fn display_at(&self, i: int) -> char {
        let w = self.width_spec() as int + 1;
        if i % w == w - 1 { '\n' } else { self.display_char(i % w, i / w) }
    }

    /// Every owned live cell's lowest owner has a letter.
    pub open spec fn display_ok(&self) -> bool {
        forall|c: int, r: int| self.in_grid(c, r) ==> (#[trigger] self.cur().lowest_owner(self.num_players_spec(), c, r)
            matches Some(p) ==> is_char_code(p + 65))
    }

    /// The latest generation as text, one line per row (see `display_char`).
    pub fn to_string(&self) -> (s: String)
        requires
            self.wf(),
            self.display_ok(),
        ensures
            s@.len() == self.height_spec() * (self.width_spec() + 1),
            forall|i: int| 0 <= i < s@.len() ==> #[trigger] s@[i] == self.display_at(i),
            forall|c: int, r: int| self.in_grid(c, r) ==> self.shown_as(#[trigger] s@[r * (self.width_spec() + 1) + c], c, r),
            forall|r: int| 0 <= r < self.height_spec() ==> #[trigger] s@[r * (self.width_spec() + 1) + self.width_spec()] == '\n',
    {
        proof {
            self.lemma_wf_cur();
        }
        let g = &self.gen_states[self.state_index];
        let ghost w1 = self.width as int + 1;
        let mut out = String::new();
        let mut row: usize = 0;
        while row < self.height
            invariant
                self.wf(),
                self.display_ok(),
                *g == self.cur(),
                g.valid(),
                g.words() == self.words_spec(),
                g.rows() == self.height_spec(),
                g.players() == self.num_players_spec(),
                self.width_spec() == self.words_spec() * 64,
                w1 == self.width_spec() + 1,
                row <= self.height,
                out@.len() == row * w1,
                forall|i: int| 0 <= i < out@.len() ==> #[trigger] out@[i] == self.display_at(i),
            decreases self.height - row,
        {
            let mut col: usize = 0;
            while col < self.width
                invariant
                    self.wf(),
                    self.display_ok(),
                    *g == self.cur(),
                    g.valid(),
                    g.words() == self.words_spec(),
                    g.rows() == self.height_spec(),
                    g.players() == self.num_players_spec(),
                    self.width_spec() == self.words_spec() * 64,
                    w1 == self.width_spec() + 1,
                    row < self.height,
                    col <= self.width,
                    out@.len() == row * w1 + col,
                    forall|i: int| 0 <= i < out@.len() ==> #[trigger] out@[i] == self.display_at(i),
                decreases self.width - col,
            {
                proof {
                    lemma_col_word(col as int, self.words_spec());
                }
                let shift = 63 - (col % 64);
                let mask: u64 = 1u64 << (shift as u64);
                let wc = col / 64;
                let known_w = g.known.0[row][wc];
                let cell_w = g.cells.0[row][wc];
                let wall_w = g.wall_cells.0[row][wc];
                proof {
                    lemma_mask_test(known_w, (col % 64) as int);
                    lemma_mask_test(cell_w, (col % 64) as int);
                    lemma_mask_test(wall_w, (col % 64) as int);
                }
                let ch;
                if known_w & mask == 0 {
                    ch = '?';
                } else if cell_w & mask != 0 {
                    let mut owner: Option<usize> = None;
                    let mut p: usize = 0;
                    while p < self.num_players
                        invariant
                            g.valid(),
                            g.words() == self.words_spec(),
                            g.rows() == self.height_spec(),
                            g.players() == self.num_players_spec(),
                            p <= self.num_players,
                            row < g.rows(),
                            wc == col / 64,
                            col < g.words() * 64,
                            mask == crate::bit_grid::single_bit((col % 64) as int),
                            owner == g.lowest_owner(p as nat, col as int, row as int),
                        decreases self.num_players - p,
                    {
                        assert(g.player_states@[p as int].cells.shaped(g.words(), g.rows()));
                        let pw = g.player_states[p].cells.0[row][wc];
                        proof {
                            lemma_mask_test(pw, (col % 64) as int);
                        }
                        if owner.is_none() && pw & mask != 0 {
                            owner = Some(p);
                        }
                        p += 1;
                    }
                    match owner {
                        Some(q) => {
                            proof {
                                g.lemma_lowest_owner(self.num_players_spec(), col as int, row as int);
                                assert(is_char_code(q + 65));
                            }
                            ch = char_from_code(q as u32 + 65).unwrap();
                        },
                        None => {
                            ch = '*';
                        },
                    }
                } else if wall_w & mask != 0 {
                    ch = 'W';
                } else {
                    ch = ' ';
                }
                proof {
                    let k = row * w1 + col;
                    vstd::arithmetic::div_mod::lemma_fundamental_div_mod_converse(k, w1, row as int, col as int);
                    assert(ch == self.display_char(col as int, row as int));
                }
                push_char(&mut out, ch);
                col += 1;
            }
            proof {
                let k = row * w1 + self.width;
                vstd::arithmetic::div_mod::lemma_fundamental_div_mod_converse(k, w1, row as int, self.width as int);
                assert((row + 1) * w1 == row * w1 + w1) by (nonlinear_arith);
            }
            push_char(&mut out, '\n');
            row += 1;
        }
        proof {
            assert(out@.len() == self.height_spec() * (self.width_spec() + 1));
            let w = self.width_spec() as int;
            assert forall|c: int, r: int| self.in_grid(c, r) implies self.shown_as(#[trigger] out@[r * (w + 1) + c], c, r) by {
                lemma_linear_index(r, c, w + 1);
                assert(r * (w + 1) + c < self.height_spec() * (w + 1)) by (nonlinear_arith)
                    requires 0 <= c < w, 0 <= r < self.height_spec();
                self.lemma_display_char(c, r);
            }
            assert forall|r: int| 0 <= r < self.height_spec() implies #[trigger] out@[r * (w + 1) + w] == '\n' by {
                lemma_linear_index(r, w, w + 1);
                assert(r * (w + 1) + w < self.height_spec() * (w + 1)) by (nonlinear_arith)
                    requires 0 <= r < self.height_spec(), 0 <= w;
            }
        }
        out
    }

    /// Character `ch` shows cell `(c, r)` of the latest generation as the text does: exactly the
    /// unknown cells show '?'; a known live cell shows the letter of a player who owns it, no
    /// lower-numbered player owning it, or '*' when nobody owns it; a known cell that is not alive
    /// shows 'W' if it is a wall and ' ' if not.
    pub open spec fn shown_as(&self, ch: char, c: int, r: int) -> bool {
        let g = self.cur();
        &&& (ch == '?') == !g.known.cell(c, r)
        &&& g.known.cell(c, r) && g.cells.cell(c, r) ==> {
            ||| ch == '*' && forall|p: int| 0 <= p < g.players() ==> !#[trigger] g.pcells(p).cell(c, r)
            ||| exists|p: int| 0 <= p < g.players() && #[trigger] g.pcells(p).cell(c, r) && ch as int == 65 + p
                && forall|q: int| 0 <= q < p ==> !#[trigger] g.pcells(q).cell(c, r)
        }
        &&& g.known.cell(c, r) && !g.cells.cell(c, r) ==> ch == if g.wall_cells.cell(c, r) { 'W' } else { ' ' }
    }

    /// The text shows each cell as `shown_as` says.
    pub proof fn lemma_display_char(&self, c: int, r: int)
        requires
            self.wf(),
            self.in_grid(c, r),
            self.display_ok(),
        ensures
            self.shown_as(self.display_char(c, r), c, r),
    {
        self.lemma_wf_cur();
        let g = self.cur();
        g.lemma_lowest_owner(g.players(), c, r);
        match g.lowest_owner(g.players(), c, r) {
            Some(p) => {
                g.lemma_lowest_owner_prefix(g.players(), g.players(), c, r);
                g.lemma_lowest_owner((p + 1) as nat, c, r);
                assert forall|q: int| 0 <= q < p implies !#[trigger] g.pcells(q).cell(c, r) by {
                    g.lemma_lowest_owner(p as nat, c, r);
                    assert(g.lowest_owner(p as nat, c, r) is None);
                }
                assert(is_char_code(p + 65));
            },
            None => {},
        }
    }
}

impl Universe {
    /// Reading a cell after setting it gives back what was set: alive (and owned by the given
    /// player, and by no other) or dead, as seen by anyone and by each player.
    pub proof fn lemma_set_then_get(old_u: &Universe, new_u: &Universe, col: int, row: int, st: CellState, q: usize)
        requires
            old_u.wf(),
            old_u.in_grid(col, row),
            q < old_u.num_players_spec(),
            old_u.only_cur_changed(new_u),
            old_u.cur().set_result(&new_u.cur(), col, row, st),
        ensures
            new_u.cell_state_of(col, row, None) == if st is Alive { CellState::Alive(None) } else { CellState::Dead },
            new_u.cell_state_of(col, row, Some(q)) == if st == CellState::Alive(Some(q)) {
                CellState::Alive(Some(q))
            } else {
                CellState::Dead
            },
    {
        old_u.lemma_wf_cur();
        assert(old_u.cur().in_grid(col, row));
    }

    /// Toggling a cell that is not a wall twice, by any players, gives back the cell's previous
    /// alive state, and leaves every other cell as it was. (A wall toggles to a dead cell, and
    /// then to a live one.)
    pub proof fn lemma_toggle_twice(a: &Universe, b: &Universe, c: &Universe, col: int, row: int,
        p1: Option<usize>, p2: Option<usize>)
        requires
            a.wf(),
            a.in_grid(col, row),
            !a.cur().wall_cells.cell(col, row),
            a.only_cur_changed(b),
            a.cur().toggle_result(&b.cur(), col, row, p1),
            b.only_cur_changed(c),
            b.cur().toggle_result(&c.cur(), col, row, p2),
        ensures
            forall|x: int, y: int| a.in_grid(x, y) ==> #[trigger] c.cur().cells.cell(x, y) == a.cur().cells.cell(x, y),
    {
        a.lemma_wf_cur();
        b.lemma_wf_cur();
        assert forall|x: int, y: int| a.in_grid(x, y) implies #[trigger] c.cur().cells.cell(x, y) == a.cur().cells.cell(x, y) by {
            assert(a.cur().in_grid(x, y));
            assert(b.cur().in_grid(x, y));
            assert(b.cur().cells.cell(x, y) == cell_after(&a.cur().cells, col, row, !a.cur().cells.cell(col, row), x, y));
            assert(b.cur().cells.cell(col, row) == !a.cur().cells.cell(col, row));
            assert(!b.cur().wall_cells.cell(col, row));
            assert(c.cur().cells.cell(x, y) == cell_after(&b.cur().cells, col, row, !b.cur().cells.cell(col, row), x, y));
        }
    }
}

} // verus!
