use conway::bit_grid::{BitGrid, BitOperation};
use conway::cell_state::CellState;
use conway::fog::fog_circle_bitmap;
use conway::region::Region;
use conway::gen_state::GenStateDiff;
use conway::rle::Pattern;
use conway::universe::{BigBang, PlayerBuilder, Universe};

fn generate_test_universe_with_default_params() -> Universe {
    let player0 = PlayerBuilder::new(Region::new(100, 70, 34, 16)); // used for the glider gun and predefined patterns
    let player1 = PlayerBuilder::new(Region::new(0, 0, 80, 80));
    let players = vec![player0, player1];

    let bigbang = BigBang::new()
        .width(256)
        .height(128)
        .server_mode(true)
        .history(16)
        .fog_radius(9)
        .add_players(players)
        .birth();

    bigbang.unwrap()
}

#[test]
fn new_universe_with_valid_dims() {
    let uni = generate_test_universe_with_default_params();
    let universe_as_region = Region::new(0, 0, 256, 128);

    assert_eq!(uni.width(), 256);
    assert_eq!(uni.height(), 128);
    assert_eq!(uni.region(), universe_as_region);
}

#[test]
fn new_universe_with_bad_dims() {
    let player0 = PlayerBuilder::new(Region::new(100, 70, 34, 16)); // used for the glider gun and predefined patterns
    let player1 = PlayerBuilder::new(Region::new(0, 0, 80, 80));
    let players = vec![player0, player1];

    let mut bigbang = BigBang::new()
        .width(256)
        .height(128)
        .server_mode(true)
        .history(16)
        .fog_radius(9)
        .add_players(players);

    bigbang = bigbang.width(255);

    let uni_result1 = bigbang.birth();
    assert!(uni_result1.is_err());

    bigbang = bigbang.width(256).height(0);
    let uni_result2 = bigbang.birth();
    assert!(uni_result2.is_err());

    bigbang = bigbang.width(0).height(256);
    let uni_result3 = bigbang.birth();
    assert!(uni_result3.is_err());
}

#[test]
fn new_universe_first_gen_is_one() {
    let uni = generate_test_universe_with_default_params();
    assert_eq!(uni.latest_gen(), 1);
}

#[test]
fn next_single_gen_test_data1_with_wrapping() {
    // glider, blinker, glider
    let nw = 0x0000000000000000;
    let n = 0x0000000400000002;
    let ne = 0x8000000000000000;
    let w = 0x0000000000000001;
    let cen = 0xC000000400000001;
    let e = 0x8000000000000000;
    let sw = 0x0000000000000000;
    let s = 0x8000000400000001;
    let se = 0x0000000000000000;
    let next_center = Universe::next_single_gen(nw, n, ne, w, cen, e, sw, s, se);
    assert_eq!(next_center, 0xC000000E00000002);
}

#[test]
fn next_test_data1() {
    let mut uni = generate_test_universe_with_default_params();

    // r-pentomino
    let _ = uni.toggle(16, 15, 0);
    let _ = uni.toggle(17, 15, 0);
    let _ = uni.toggle(15, 16, 0);
    let _ = uni.toggle(16, 16, 0);
    let _ = uni.toggle(16, 17, 0);

    let gens = 20;
    for _ in 0..gens {
        uni.next();
    }
    assert_eq!(uni.latest_gen(), gens + 1);
}

#[test]
fn set_unchecked_with_valid_rows_and_cols() {
    let mut uni = generate_test_universe_with_default_params();
    let max_width = uni.width() - 1;
    let max_height = uni.height() - 1;
    let mut cell_state;

    for x in 0..max_width {
        for y in 0..max_height {
            cell_state = uni.get_cell_state(x, y, None);
            assert_eq!(cell_state, CellState::Dead);
        }
    }

    uni.set_unchecked(0, 0, CellState::Alive(None));
    cell_state = uni.get_cell_state(0, 0, None);
    assert_eq!(cell_state, CellState::Alive(None));

    uni.set_unchecked(max_width, max_height, CellState::Alive(None));
    assert_eq!(cell_state, CellState::Alive(None));

    uni.set_unchecked(55, 55, CellState::Alive(None));
    assert_eq!(cell_state, CellState::Alive(None));
}

#[test]
fn universe_cell_states_are_dead_on_creation() {
    let mut uni = generate_test_universe_with_default_params();
    let max_width = uni.width() - 1;
    let max_height = uni.height() - 1;

    for x in 0..max_width {
        for y in 0..max_height {
            let cell_state = uni.get_cell_state(x, y, None);
            assert_eq!(cell_state, CellState::Dead);
        }
    }
}

#[test]
fn set_checked_verify_players_remain_within_writable_regions() {
    let mut uni = generate_test_universe_with_default_params();
    let max_width = uni.width() - 1;
    let max_height = uni.height() - 1;
    let player_id = 1; // writing into player 1's regions
    let alive_player_cell = CellState::Alive(Some(player_id));
    let mut cell_state;

    // Writable region OK, Transitions to Alive
    uni.set(0, 0, alive_player_cell, player_id);
    cell_state = uni.get_cell_state(0, 0, Some(player_id));
    assert_eq!(cell_state, alive_player_cell);

    // This should be dead as it is outside the writable region
    uni.set(max_width, max_height, alive_player_cell, player_id);
    cell_state = uni.get_cell_state(max_width, max_height, Some(player_id));
    assert_eq!(cell_state, CellState::Dead);

    // Writable region OK, transitions to Alive
    uni.set(55, 55, alive_player_cell, player_id);
    cell_state = uni.get_cell_state(55, 55, Some(player_id));
    assert_eq!(cell_state, alive_player_cell);

    // Outside of player_id's writable region which will remain unchanged
    uni.set(81, 81, alive_player_cell, player_id);
    cell_state = uni.get_cell_state(81, 81, Some(player_id));
    assert_eq!(cell_state, CellState::Dead);
}

#[test]
fn set_checked_cannot_set_a_fog_cell() {
    let mut uni = generate_test_universe_with_default_params();
    let player_id = 1; // writing into player 1's regions
    let alive_player_cell = CellState::Alive(Some(player_id));

    // Let's hardcode this and try to set a fog'd cell
    // within what was a players writable region.
    uni.latest_gen_state_mut().player_states[player_id].fog.0[0][0] |= 1 << 63;

    uni.set(0, 0, alive_player_cell, player_id);
    let cell_state = uni.get_cell_state(0, 0, Some(player_id));
    assert_eq!(cell_state, CellState::Dead);
}

#[test]
fn toggle_unchecked_cell_toggled_is_owned_by_player() {
    let mut uni = generate_test_universe_with_default_params();
    let row = 0;
    let col = 0;
    let bit = 63;
    let player_one_opt = Some(0);
    let player_two_opt = Some(1);

    // Should transition from dead to alive. Player one will have their cell set, player two
    // will not
    assert_eq!(uni.toggle_unchecked(row, col, player_one_opt), CellState::Alive(player_one_opt));
    assert_eq!(uni.latest_gen_state().player_states[player_one_opt.unwrap()].cells.0[row][col] >> bit, 1);
    assert_eq!(uni.latest_gen_state().player_states[player_two_opt.unwrap()].cells.0[row][col] >> bit, 0);
}

#[test]
fn toggle_unchecked_cell_toggled_by_both_players_repetitively() {
    let mut uni = generate_test_universe_with_default_params();
    let row = 0;
    let col = 0;
    let bit = 63;
    let player_one_opt = Some(0);
    let player_two_opt = Some(1);

    // Should transition from dead to alive. Player one will have their cell set, player two
    // will not
    assert_eq!(uni.toggle_unchecked(row, col, player_one_opt), CellState::Alive(player_one_opt));
    assert_eq!(uni.latest_gen_state().player_states[player_one_opt.unwrap()].cells.0[row][col] >> bit, 1);
    assert_eq!(uni.latest_gen_state().player_states[player_two_opt.unwrap()].cells.0[row][col] >> bit, 0);

    // Player two will now toggle the cell, killing it as it was previously alive.
    // Player one will be cleared as a result, the cell will not be set at all.
    assert_eq!(uni.toggle_unchecked(row, col, player_two_opt), CellState::Dead);
    assert_eq!(uni.latest_gen_state().player_states[player_one_opt.unwrap()].cells.0[row][col] >> bit, 0);
    assert_eq!(uni.latest_gen_state().player_states[player_two_opt.unwrap()].cells.0[row][col] >> bit, 0);
}

#[test]
fn toggle_checked_outside_a_player_writable_region_fails() {
    let mut uni = generate_test_universe_with_default_params();
    let player_one = 0;
    let player_two = 1;
    let row = 0;
    let col = 0;

    assert_eq!(uni.toggle(row, col, player_one), Err(()));
    assert_eq!(uni.toggle(row, col, player_two).unwrap(), CellState::Alive(Some(player_two)));
}

#[test]
fn toggle_checked_players_cannot_toggle_a_wall_cell() {
    let mut uni = generate_test_universe_with_default_params();
    let player_one = 0;
    let player_two = 1;
    let row = 0;
    let col = 0;

    uni.latest_gen_state_mut().wall_cells.modify_bits_in_word(row, col, 1 << 63, BitOperation::SetBit);

    assert_eq!(uni.toggle(row, col, player_one), Err(()));
    assert_eq!(uni.toggle(row, col, player_two), Err(()));
}

#[test]
fn toggle_checked_players_can_toggle_an_known_cell_if_writable() {
    let mut uni = generate_test_universe_with_default_params();
    let player_one = 0;
    let player_two = 1;
    let row = 0;
    let col = 0;

    uni.latest_gen_state_mut().known.modify_bits_in_word(row, col, 1 << 63, BitOperation::SetBit);

    assert_eq!(uni.toggle(row, col, player_one), Err(()));
    assert_eq!(uni.toggle(row, col, player_two), Ok(CellState::Alive(Some(player_two))));
}

#[test]
fn toggle_checked_players_cannot_toggle_an_unknown_cell() {
    let mut uni = generate_test_universe_with_default_params();
    let player_one = 0;
    let player_two = 1;
    let row = 0;
    let col = 0;

    uni.latest_gen_state_mut().known.modify_bits_in_word(row, col, 1 << 63, BitOperation::Clear);

    assert_eq!(uni.toggle(row, col, player_one), Err(()));
    assert_eq!(uni.toggle(row, col, player_two), Err(()));
}

#[test]
fn contagious_one_with_all_neighbors_set() {
    let north = u64::max_value();
    let northwest = u64::max_value();
    let northeast = u64::max_value();
    let west = u64::max_value();
    let mut center = u64::max_value();
    let east = u64::max_value();
    let southwest = u64::max_value();
    let south = u64::max_value();
    let southeast = u64::max_value();

    let mut output = Universe::contagious_one(northwest, north, northeast, west, center, east, southwest, south, southeast);
    assert_eq!(output, u64::max_value());

    center &= !(0x0000000F00000000);

    output = Universe::contagious_one(northwest, north, northeast, west, center, east, southwest, south, southeast);
    // 1 bit surrounding 'F', and inclusive, are cleared
    assert_eq!(output, 0xFFFFFFFFFFFFFFFF);
}

#[test]
fn contagious_zero_with_all_neighbors_set() {
    let north = u64::max_value();
    let northwest = u64::max_value();
    let northeast = u64::max_value();
    let west = u64::max_value();
    let mut center = u64::max_value();
    let east = u64::max_value();
    let southwest = u64::max_value();
    let south = u64::max_value();
    let southeast = u64::max_value();

    let mut output = Universe::contagious_zero(northwest, north, northeast, west, center, east, southwest, south, southeast);
    assert_eq!(output, u64::max_value());

    center &= !(0x0000000F00000000);

    output = Universe::contagious_zero(northwest, north, northeast, west, center, east, southwest, south, southeast);
    // 1 bit surrounding 'F', and inclusive, are cleared
    assert_eq!(output, 0xFFFFFFE07FFFFFFF);
}

#[test]
fn verify_fog_circle_bitmap_generation() {
    let uni = generate_test_universe_with_default_params();
    assert_eq!(uni.fog_radius(), 9);

    let fog_radius_of_nine = vec![
        vec![0xf007ffffffffffff],
        vec![0xe003ffffffffffff],
        vec![0xc001ffffffffffff],
        vec![0x8000ffffffffffff],
        vec![0x00007fffffffffff],
        vec![0x00007fffffffffff],
        vec![0x00007fffffffffff],
        vec![0x00007fffffffffff],
        vec![0x00007fffffffffff],
        vec![0x00007fffffffffff],
        vec![0x00007fffffffffff],
        vec![0x00007fffffffffff],
        vec![0x00007fffffffffff],
        vec![0x8000ffffffffffff],
        vec![0xc001ffffffffffff],
        vec![0xe003ffffffffffff],
        vec![0xf007ffffffffffff]];
    assert_eq!(fog_radius_of_nine, uni.fog_circle().0);
    assert_eq!(fog_radius_of_nine, fog_circle_bitmap(9).0);

    let fog_radius_of_four = vec![
        vec![0x83ffffffffffffff],
        vec![0x01ffffffffffffff],
        vec![0x01ffffffffffffff],
        vec![0x01ffffffffffffff],
        vec![0x01ffffffffffffff],
        vec![0x01ffffffffffffff],
        vec![0x83ffffffffffffff],
    ];
    assert_eq!(fog_radius_of_four, fog_circle_bitmap(4).0);

    let fog_radius_of_thirtyfive = vec![
        vec![0xffffffc0001fffff, 0xffffffffffffffff, ],
        vec![0xfffffe000003ffff, 0xffffffffffffffff, ],
        vec![0xfffff00000007fff, 0xffffffffffffffff, ],
        vec![0xffffc00000001fff, 0xffffffffffffffff, ],
        vec![0xffff0000000007ff, 0xffffffffffffffff, ],
        vec![0xfffe0000000003ff, 0xffffffffffffffff, ],
        vec![0xfffc0000000001ff, 0xffffffffffffffff, ],
        vec![0xfff000000000007f, 0xffffffffffffffff, ],
        vec![0xffe000000000003f, 0xffffffffffffffff, ],
        vec![0xffc000000000001f, 0xffffffffffffffff, ],
        vec![0xff8000000000000f, 0xffffffffffffffff, ],
        vec![0xff00000000000007, 0xffffffffffffffff, ],
        vec![0xfe00000000000003, 0xffffffffffffffff, ],
        vec![0xfe00000000000003, 0xffffffffffffffff, ],
        vec![0xfc00000000000001, 0xffffffffffffffff, ],
        vec![0xf800000000000000, 0xffffffffffffffff, ],
        vec![0xf000000000000000, 0x7fffffffffffffff, ],
        vec![0xf000000000000000, 0x7fffffffffffffff, ],
        vec![0xe000000000000000, 0x3fffffffffffffff, ],
        vec![0xe000000000000000, 0x3fffffffffffffff, ],
        vec![0xc000000000000000, 0x1fffffffffffffff, ],
        vec![0xc000000000000000, 0x1fffffffffffffff, ],
        vec![0xc000000000000000, 0x1fffffffffffffff, ],
        vec![0x8000000000000000, 0x0fffffffffffffff, ],
        vec![0x8000000000000000, 0x0fffffffffffffff, ],
        vec![0x8000000000000000, 0x0fffffffffffffff, ],
        vec![0x0000000000000000, 0x07ffffffffffffff, ],
        vec![0x0000000000000000, 0x07ffffffffffffff, ],
        vec![0x0000000000000000, 0x07ffffffffffffff, ],
        vec![0x0000000000000000, 0x07ffffffffffffff, ],
        vec![0x0000000000000000, 0x07ffffffffffffff, ],
        vec![0x0000000000000000, 0x07ffffffffffffff, ],
        vec![0x0000000000000000, 0x07ffffffffffffff, ],
        vec![0x0000000000000000, 0x07ffffffffffffff, ],
        vec![0x0000000000000000, 0x07ffffffffffffff, ],
        vec![0x0000000000000000, 0x07ffffffffffffff, ],
        vec![0x0000000000000000, 0x07ffffffffffffff, ],
        vec![0x0000000000000000, 0x07ffffffffffffff, ],
        vec![0x0000000000000000, 0x07ffffffffffffff, ],
        vec![0x0000000000000000, 0x07ffffffffffffff, ],
        vec![0x0000000000000000, 0x07ffffffffffffff, ],
        vec![0x0000000000000000, 0x07ffffffffffffff, ],
        vec![0x0000000000000000, 0x07ffffffffffffff, ],
        vec![0x8000000000000000, 0x0fffffffffffffff, ],
        vec![0x8000000000000000, 0x0fffffffffffffff, ],
        vec![0x8000000000000000, 0x0fffffffffffffff, ],
        vec![0xc000000000000000, 0x1fffffffffffffff, ],
        vec![0xc000000000000000, 0x1fffffffffffffff, ],
        vec![0xc000000000000000, 0x1fffffffffffffff, ],
        vec![0xe000000000000000, 0x3fffffffffffffff, ],
        vec![0xe000000000000000, 0x3fffffffffffffff, ],
        vec![0xf000000000000000, 0x7fffffffffffffff, ],
        vec![0xf000000000000000, 0x7fffffffffffffff, ],
        vec![0xf800000000000000, 0xffffffffffffffff, ],
        vec![0xfc00000000000001, 0xffffffffffffffff, ],
        vec![0xfe00000000000003, 0xffffffffffffffff, ],
        vec![0xfe00000000000003, 0xffffffffffffffff, ],
        vec![0xff00000000000007, 0xffffffffffffffff, ],
        vec![0xff8000000000000f, 0xffffffffffffffff, ],
        vec![0xffc000000000001f, 0xffffffffffffffff, ],
        vec![0xffe000000000003f, 0xffffffffffffffff, ],
        vec![0xfff000000000007f, 0xffffffffffffffff, ],
        vec![0xfffc0000000001ff, 0xffffffffffffffff, ],
        vec![0xfffe0000000003ff, 0xffffffffffffffff, ],
        vec![0xffff0000000007ff, 0xffffffffffffffff, ],
        vec![0xffffc00000001fff, 0xffffffffffffffff, ],
        vec![0xfffff00000007fff, 0xffffffffffffffff, ],
        vec![0xfffffe000003ffff, 0xffffffffffffffff, ],
        vec![0xffffffc0001fffff, 0xffffffffffffffff, ],
        ];

    assert_eq!(fog_radius_of_thirtyfive, fog_circle_bitmap(35).0);
}

#[test]
fn generate_fog_circle_bitmap_fails_with_radius_zero() {
    let player0 = PlayerBuilder::new(Region::new(100, 70, 34, 16)); // used for the glider gun and predefined patterns
    let player1 = PlayerBuilder::new(Region::new(0, 0, 80, 80));
    let players = vec![player0, player1];

    let uni = BigBang::new()
        .width(256)
        .height(128)
        .server_mode(true)
        .history(16)
        .fog_radius(0)
        .add_players(players)
        .birth();

    assert!(uni.is_err());
}

#[test]
fn clear_fog_with_standard_radius() {
    let player0 = PlayerBuilder::new(Region::new(100, 70, 34, 16)); // used for the glider gun and predefined patterns
    let player1 = PlayerBuilder::new(Region::new(0, 0, 80, 80));
    let players = vec![player0, player1];

    let uni = BigBang::new()
        .width(256)
        .height(128)
        .server_mode(true)
        .history(16)
        .fog_radius(4)
        .add_players(players)
        .birth()
        .unwrap();

    let player_id = 0;
    // every buffered state starts with the same fog; take a copy to write into
    let mut gen_state_next = uni.latest_gen_state().clone();
    let row_index_outside_of_p0_region = 1;
    let col_index_outside_of_p0_region = 1;
    let one_bit_to_clear = 1;

    Universe::clear_fog(&mut gen_state_next.player_states[player_id].fog,
                        uni.fog_circle(),
                        uni.fog_radius(),
                        uni.width(),
                        uni.height(),
                        row_index_outside_of_p0_region,
                        col_index_outside_of_p0_region,
                        one_bit_to_clear);

    for x in 0..4 {
        for y in 1..2 {
            assert_eq!(gen_state_next.player_states[0].fog.0[x][y], 0b1111111111111111111111111111111111111111111111111111111111110000);
        }
    }
}

#[test]
fn each_non_dead_detects_some_cells() {
    let mut uni = generate_test_universe_with_default_params();
    let player1 = 1;

    // glider
    uni.toggle(16, 15, player1).unwrap();
    uni.toggle(17, 16, player1).unwrap();
    uni.toggle(15, 17, player1).unwrap();
    uni.toggle(16, 17, player1).unwrap();
    uni.toggle(17, 17, player1).unwrap();

    // just a wall, for no reason at all
    for col in 10..15 {
        uni.set_unchecked(col, 12, CellState::Wall);
    }

    let gens = 21;
    for _ in 0..gens {
        uni.next();
    }
    let cells_with_pos: Vec<(usize, usize, CellState)> = uni.each_non_dead(Region::new(0, 0, 80, 80), Some(player1));
    assert_eq!(cells_with_pos.len(), 10);
    assert_eq!(cells_with_pos, vec![(10, 12, CellState::Wall),
                                    (11, 12, CellState::Wall),
                                    (12, 12, CellState::Wall),
                                    (13, 12, CellState::Wall),
                                    (14, 12, CellState::Wall),
                                    (20, 21, CellState::Alive(Some(1))),
                                    (22, 21, CellState::Alive(Some(1))),
                                    (21, 22, CellState::Alive(Some(1))),
                                    (22, 22, CellState::Alive(Some(1))),
                                    (21, 23, CellState::Alive(Some(1)))]);
}

#[test]
fn each_non_dead_detects_fog() {
    let mut uni = generate_test_universe_with_default_params();
    let player0 = 0;
    let player1 = 1;

    // blinker as player 1
    uni.toggle(16, 15, player1).unwrap();
    uni.toggle(16, 16, player1).unwrap();
    uni.toggle(16, 17, player1).unwrap();

    // attempt to view as different player
    for (col, row, state) in uni.each_non_dead(Region::new(0, 0, 80, 80), Some(player0)) {
        assert_eq!(state, CellState::Fog, "expected fog at col {} row {} but found {:?}", col, row, state);
    }
}

#[test]
fn universe_copy_from_bit_grid_as_player() {
    let mut uni = generate_test_universe_with_default_params();
    let grid = Pattern("64o$64o!".to_owned()).to_new_bit_grid(64, 2).unwrap();

    let write_pattern_as = Some(1); // player 1
    let dst_region = Region::new(0, 0, 32, 3);

    uni.copy_from_bit_grid(&grid, dst_region, write_pattern_as);

    {
        let genstate = uni.latest_gen_state();
        assert_eq!(genstate.cells.to_pattern(None).0, "32o$32o!".to_owned());
        assert_eq!(genstate.wall_cells.to_pattern(None).0, "!".to_owned());
        assert_eq!(genstate.player_states[0].cells.to_pattern(None).0, "!".to_owned());
        assert_eq!(genstate.player_states[0].fog.0[0][0], u64::max_value()); // complete fog for player 0
        assert_eq!(genstate.player_states[0].fog.0[1][0], u64::max_value()); // complete fog for player 0
        assert_eq!(genstate.player_states[1].cells.to_pattern(None).0, "32o$32o!".to_owned());
    }
}

#[test]
fn universe_copy_from_bit_grid_as_player_out_of_range() {
    let mut uni = generate_test_universe_with_default_params();
    let grid = Pattern("64o$64o!".to_owned()).to_new_bit_grid(64, 2).unwrap();

    let write_pattern_as = Some(0); // player 0
    let dst_region = Region::new(0, 0, 32, 3); // out of range for player 0

    uni.copy_from_bit_grid(&grid, dst_region, write_pattern_as);

    {
        let genstate = uni.latest_gen_state();
        assert_eq!(genstate.cells.to_pattern(None).0, "!".to_owned());
        assert_eq!(genstate.wall_cells.to_pattern(None).0, "!".to_owned());
        assert_eq!(genstate.player_states[0].cells.to_pattern(None).0, "!".to_owned()); // no player 0 cells
        assert_eq!(genstate.player_states[0].fog.0[0][0], u64::max_value()); // complete fog for player 0
        assert_eq!(genstate.player_states[0].fog.0[1][0], u64::max_value()); // complete fog for player 0
        assert_eq!(genstate.player_states[1].cells.to_pattern(None).0, "!".to_owned()); // no player 1 cells
    }
}

fn small_universe(history: usize) -> Universe {
    BigBang::new()
        .width(64)
        .height(8)
        .history(history)
        .add_players(vec![PlayerBuilder::new(Region::new(0, 0, 64, 8))])
        .birth()
        .unwrap()
}

fn add_blinker(uni: &mut Universe) {
    uni.set_unchecked(2, 3, CellState::Alive(Some(0)));
    uni.set_unchecked(3, 3, CellState::Alive(Some(0)));
    uni.set_unchecked(4, 3, CellState::Alive(Some(0)));
}

#[test]
fn set_then_get_gives_back_the_state() {
    let mut uni = generate_test_universe_with_default_params();
    uni.set_unchecked(5, 5, CellState::Alive(Some(1)));
    assert_eq!(uni.get_cell_state(5, 5, Some(1)), CellState::Alive(Some(1)));
    assert_eq!(uni.get_cell_state(5, 5, Some(0)), CellState::Dead);
    assert_eq!(uni.get_cell_state(5, 5, None), CellState::Alive(None));
    uni.set_unchecked(5, 5, CellState::Wall);
    assert_eq!(uni.get_cell_state(5, 5, None), CellState::Dead);
    assert_eq!(uni.get_cell_state(5, 5, Some(1)), CellState::Dead);
}

#[test]
fn apply_diff_reaches_the_later_generation() {
    let mut a = small_universe(4);
    let mut b = small_universe(4);
    add_blinker(&mut a);
    add_blinker(&mut b);
    for _ in 0..4 {
        a.next();
        b.next();
    }
    b.next();
    assert_eq!(a.latest_gen(), 5);
    assert_eq!(b.latest_gen(), 6);
    let diff = a.latest_gen_state().diff(b.latest_gen_state(), None);
    assert_eq!(diff.gen0, 5);
    assert_eq!(diff.gen1, 6);
    assert_eq!(a.apply(&diff, None), Ok(Some(6)));
    assert_eq!(a.latest_gen(), 6);
    assert_eq!(a.latest_gen_state().cells, b.latest_gen_state().cells);
    assert_eq!(a.latest_gen_state().player_states, b.latest_gen_state().player_states);
}

#[test]
fn apply_refuses_a_diff_across_too_many_generations() {
    let mut uni = small_universe(4);
    let diff = GenStateDiff { gen0: 1, gen1: 5, pattern: Pattern("!".to_owned()) };
    assert_eq!(uni.apply(&diff, None),
               Err("diff is across too many generations to be applied: 4 >= 4".to_owned()));
    assert_eq!(uni.latest_gen(), 1);
}

#[test]
fn apply_ignores_a_diff_without_its_base() {
    let mut uni = small_universe(4);
    let diff = GenStateDiff { gen0: 100, gen1: 101, pattern: Pattern("o!".to_owned()) };
    assert_eq!(uni.apply(&diff, None), Ok(None));
    assert_eq!(uni.latest_gen(), 1);
    assert_eq!(uni.get_cell_state(0, 0, None), CellState::Dead);
}

#[test]
fn apply_ignores_a_diff_to_an_older_generation() {
    let mut uni = small_universe(4);
    for _ in 0..4 {
        uni.next();
    }
    let diff = GenStateDiff { gen0: 3, gen1: 4, pattern: Pattern("o!".to_owned()) };
    assert_eq!(uni.apply(&diff, None), Ok(None));
    assert_eq!(uni.latest_gen(), 5);
}

#[test]
fn universe_as_text() {
    let mut uni = BigBang::new()
        .width(64)
        .height(2)
        .add_players(vec![PlayerBuilder::new(Region::new(0, 0, 64, 2))])
        .fog_radius(2)
        .birth()
        .unwrap();
    uni.set_unchecked(1, 0, CellState::Alive(Some(0)));
    uni.set_unchecked(2, 0, CellState::Alive(None));
    uni.set_unchecked(3, 1, CellState::Wall);
    let text = uni.to_string();
    assert_eq!(text.len(), 2 * 65);
    let lines: Vec<&str> = text.split('\n').collect();
    assert_eq!(&lines[0][0..4], " A* ");
    assert_eq!(&lines[1][0..5], "   W ");
    assert_eq!(lines[2], "");
}

#[test]
fn toggle_twice_restores_the_cell() {
    let mut uni = generate_test_universe_with_default_params();
    let before = uni.latest_gen_state().cells.clone();
    uni.toggle_unchecked(20, 20, Some(1));
    uni.toggle_unchecked(20, 20, Some(0));
    assert_eq!(uni.latest_gen_state().cells, before);
}

#[test]
fn toggle_unchecked_turns_a_wall_into_a_dead_cell() {
    let mut uni = generate_test_universe_with_default_params();
    uni.latest_gen_state_mut().wall_cells.modify_bits_in_word(0, 0, 1 << 63, BitOperation::SetBit);
    assert_eq!(uni.toggle_unchecked(0, 0, Some(1)), CellState::Dead);
    assert_eq!(uni.latest_gen_state().wall_cells.0[0][0], 0);
    assert_eq!(uni.latest_gen_state().cells.0[0][0], 0);
    assert_eq!(uni.latest_gen_state().player_states[1].cells.0[0][0], 0);
    // toggling again makes it alive
    assert_eq!(uni.toggle_unchecked(0, 0, Some(1)), CellState::Alive(Some(1)));
    assert_eq!(uni.get_cell_state(0, 0, Some(1)), CellState::Alive(Some(1)));
}

#[test]
fn apply_diff_to_a_generation_below_the_history_depth() {
    let mut a = small_universe(4);
    let mut b = small_universe(4);
    add_blinker(&mut a);
    add_blinker(&mut b);
    b.next();
    let diff = a.latest_gen_state().diff(b.latest_gen_state(), None);
    assert_eq!((diff.gen0, diff.gen1), (1, 2));
    assert_eq!(a.apply(&diff, None), Ok(Some(2)));
    assert_eq!(a.latest_gen(), 2);
    assert_eq!(a.latest_gen_state().cells, b.latest_gen_state().cells);
    assert_eq!(a.latest_gen_state().player_states, b.latest_gen_state().player_states);
}

#[test]
fn next_on_a_universe_lower_than_the_fog_radius() {
    // default fog radius 6 on 4 rows, no player gains a cell
    let mut uni = BigBang::new().height(4).birth().unwrap();
    uni.set_unchecked(1, 1, CellState::Alive(None));
    uni.set_unchecked(2, 1, CellState::Alive(None));
    uni.set_unchecked(3, 1, CellState::Alive(None));
    assert_eq!(uni.next(), 2);
    assert_eq!(uni.get_cell_state(2, 0, None), CellState::Alive(None));
    assert_eq!(uni.get_cell_state(2, 2, None), CellState::Alive(None));
    assert_eq!(uni.get_cell_state(1, 1, None), CellState::Dead);
}

#[test]
fn new_universe_reports_errors_for_any_size() {
    let huge: usize = 1 << 40;
    assert_eq!(BigBang::new().height(0).width(huge + 1).birth().err(), Some("Height must be positive".to_owned()));
    assert_eq!(BigBang::new().width(huge + 1).birth().err(), Some("Width must be a multiple of 64".to_owned()));
    assert_eq!(BigBang::new().history(0).fog_radius(huge).birth().err(), Some("History must be positive".to_owned()));
}

fn fog_at(uni: &Universe, player: usize, col: usize, row: usize) -> bool {
    (uni.latest_gen_state().player_states[player].fog.0[row][col / 64] >> (63 - col % 64)) & 1 == 1
}

#[test]
fn next_clears_fog_within_the_radius_of_new_cells() {
    let player0 = PlayerBuilder::new(Region::new(100, 70, 34, 16));
    let mut uni = BigBang::new()
        .width(256)
        .height(128)
        .fog_radius(4)
        .add_players(vec![player0])
        .birth()
        .unwrap();
    // a blinker on the top row of the writable region turns vertical: (111, 69) is born above it
    uni.set_unchecked(110, 70, CellState::Alive(Some(0)));
    uni.set_unchecked(111, 70, CellState::Alive(Some(0)));
    uni.set_unchecked(112, 70, CellState::Alive(Some(0)));
    assert!(fog_at(&uni, 0, 111, 66));
    uni.next();
    assert_eq!(uni.get_cell_state(111, 69, Some(0)), CellState::Alive(Some(0)));
    assert!(!fog_at(&uni, 0, 111, 66)); // 3 rows above the new cell
    assert!(!fog_at(&uni, 0, 114, 67)); // 3 right, 2 up: 9 + 4 < 16
    assert!(fog_at(&uni, 0, 111, 65)); // 4 rows above: on the circle's edge, not inside
    assert!(fog_at(&uni, 0, 115, 69)); // 4 columns right
}

fn fog_cell(fog: &BitGrid, col: usize, row: usize) -> bool {
    (fog.0[row][col / 64] >> (63 - col % 64)) & 1 == 1
}

#[test]
fn clear_fog_misses_the_circle_edge_beyond_radius_32() {
    // with radius 33 the fog circle is two words wide, and its second word is laid over the
    // same columns as the first: the column 32 cells right of the new cell stays fogged
    let circle = fog_circle_bitmap(33);
    let mut fog = BitGrid(vec![vec![u64::MAX; 4]; 80]);
    Universe::clear_fog(&mut fog, &circle, 33, 256, 80, 40, 1, 1u64 << 31); // cell (96, 40)
    assert!(!fog_cell(&fog, 96, 40));
    assert!(!fog_cell(&fog, 64, 40)); // 32 to the left: cleared
    assert!(!fog_cell(&fog, 127, 40)); // 31 to the right: cleared
    assert!(fog_cell(&fog, 128, 40)); // 32 to the right: inside the circle, yet not cleared
}

#[test]
fn clear_fog_misses_a_word_on_a_universe_two_words_wide() {
    // new cells at both ends of word 0: the window of words wraps all the way round and ends
    // where it started, so word 0 itself is left fogged
    let circle = fog_circle_bitmap(2);
    let mut fog = BitGrid(vec![vec![u64::MAX; 2]; 10]);
    Universe::clear_fog(&mut fog, &circle, 2, 128, 10, 5, 0, (1u64 << 63) | 1);
    assert!(fog_cell(&fog, 0, 5));
    assert!(fog_cell(&fog, 63, 5));
    assert!(!fog_cell(&fog, 127, 5)); // one left of (0, 5), around the edge: cleared
    assert!(!fog_cell(&fog, 64, 5)); // one right of (63, 5): cleared
}

#[test]
fn new_universe_lists_fog_outside_the_writable_region() {
    let uni = BigBang::new()
        .width(64)
        .height(4)
        .add_players(vec![PlayerBuilder::new(Region::new(0, 0, 10, 2))])
        .birth()
        .unwrap();
    // a server sees nothing; player 0 sees fog on every cell outside its 10 x 2 region
    assert_eq!(uni.each_non_dead_full(None).len(), 0);
    let seen = uni.each_non_dead_full(Some(0));
    assert_eq!(seen.len(), 64 * 4 - 10 * 2);
    assert_eq!(seen[0], (10, 0, CellState::Fog));
    assert!(seen.iter().all(|&(c, r, st)| st == CellState::Fog && !(c < 10 && r < 2)));
    assert_eq!(uni.each_non_dead_full(Some(0)), uni.each_non_dead(uni.region(), Some(0)));
}

#[test]
fn new_client_universe_lists_fog_everywhere() {
    let uni = BigBang::new().width(64).height(3).server_mode(false).birth().unwrap();
    let seen = uni.each_non_dead_full(None);
    assert_eq!(seen.len(), 64 * 3);
    assert_eq!(seen[64], (0, 1, CellState::Fog));
}
