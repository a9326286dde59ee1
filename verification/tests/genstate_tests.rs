use conway::gen_state::{GenState, GenStatePair};
use conway::region::Region;
use conway::rle::Pattern;
use conway::universe::{BigBang, PlayerBuilder};

fn make_gen_state() -> GenState {
    let player0 = PlayerBuilder::new(Region::new(100, 70, 34, 16));
    let player1 = PlayerBuilder::new(Region::new(0, 0, 80, 80));
    let players = vec![player0, player1];

    let uni = BigBang::new()
        .history(1)
        .add_players(players)
        .birth()
        .unwrap();
    uni.latest_gen_state().clone()
}

#[test]
fn write_at_position_server_wall() {
    let mut genstate = make_gen_state();

    genstate.write_at_position(63, 0, 'W', None);
    assert_eq!(genstate.cells.0[0][0], 0);
    assert_eq!(genstate.wall_cells.0[0][0], 1);
    assert_eq!(genstate.known.0[0][0], u64::max_value());
    assert_eq!(genstate.player_states[0].cells.0[0][0], 0);
    assert_eq!(genstate.player_states[1].cells.0[0][0], 0);
}

#[test]
fn write_at_position_server_wall_overwrite() {
    let mut genstate = make_gen_state();

    genstate.write_at_position(63, 0, 'b', None);
    genstate.write_at_position(63, 0, 'W', None);
    assert_eq!(genstate.cells.0[0][0], 0);
    assert_eq!(genstate.wall_cells.0[0][0], 1);
    assert_eq!(genstate.known.0[0][0], u64::max_value());
    assert_eq!(genstate.player_states[0].cells.0[0][0], 0);
    assert_eq!(genstate.player_states[1].cells.0[0][0], 0);
}

#[test]
fn write_at_position_server_player0() {
    let mut genstate = make_gen_state();

    genstate.write_at_position(63, 0, 'A', None);
    assert_eq!(genstate.cells.0[0][0], 1);
    assert_eq!(genstate.wall_cells.0[0][0], 0);
    assert_eq!(genstate.known.0[0][0], u64::max_value());
    assert_eq!(genstate.player_states[0].cells.0[0][0], 1);
    assert_eq!(genstate.player_states[1].cells.0[0][0], 0);
}

#[test]
fn write_at_position_server_player1() {
    let mut genstate = make_gen_state();

    genstate.write_at_position(63, 0, 'B', None);
    assert_eq!(genstate.cells.0[0][0], 1);
    assert_eq!(genstate.wall_cells.0[0][0], 0);
    assert_eq!(genstate.known.0[0][0], u64::max_value());
    assert_eq!(genstate.player_states[0].cells.0[0][0], 0);
    assert_eq!(genstate.player_states[1].cells.0[0][0], 1);
}

#[test]
fn write_at_position_server_player0_then_1() {
    let mut genstate = make_gen_state();

    genstate.write_at_position(63, 0, 'A', None);
    genstate.write_at_position(63, 0, 'B', None);
    assert_eq!(genstate.cells.0[0][0], 1);
    assert_eq!(genstate.player_states[0].cells.0[0][0], 0);
    assert_eq!(genstate.player_states[1].cells.0[0][0], 1);
}

#[test]
fn write_at_position_server_player1_then_unowned() {
    let mut genstate = make_gen_state();

    genstate.write_at_position(63, 0, 'B', None);
    genstate.write_at_position(63, 0, 'o', None);
    assert_eq!(genstate.cells.0[0][0], 1);
    assert_eq!(genstate.wall_cells.0[0][0], 0);
    assert_eq!(genstate.known.0[0][0], u64::max_value());
    assert_eq!(genstate.player_states[0].cells.0[0][0], 0);
    assert_eq!(genstate.player_states[1].cells.0[0][0], 0);
}

#[test]
fn write_at_position_server_player1_then_blank() {
    let mut genstate = make_gen_state();

    genstate.write_at_position(63, 0, 'B', None);
    genstate.write_at_position(63, 0, 'b', None);
    assert_eq!(genstate.cells.0[0][0], 0);
    assert_eq!(genstate.wall_cells.0[0][0], 0);
    assert_eq!(genstate.known.0[0][0], u64::max_value());
    assert_eq!(genstate.player_states[0].cells.0[0][0], 0);
    assert_eq!(genstate.player_states[1].cells.0[0][0], 0);
}

#[test]
fn write_at_position_as_player0_player1_then_blank() {
    let mut genstate = make_gen_state();

    genstate.write_at_position(63, 0, 'B', Some(0));
    genstate.write_at_position(63, 0, 'b', Some(0));
    assert_eq!(genstate.cells.0[0][0], 0);
    assert_eq!(genstate.wall_cells.0[0][0], 0);
    assert_eq!(genstate.known.0[0][0], u64::max_value());
    assert_eq!(genstate.player_states[0].cells.0[0][0], 0);
    assert_eq!(genstate.player_states[1].cells.0[0][0], 0);
}

#[test]
fn write_at_position_as_player0_clears_only_that_players_fog() {
    let mut genstate = make_gen_state();

    // fog bits initially clear for both players
    genstate.player_states[0].fog.0[0][0] = 0;
    genstate.player_states[1].fog.0[0][0] = 0;
    genstate.write_at_position(63, 0, '?', Some(0));
    assert_eq!(genstate.cells.0[0][0], 0);
    assert_eq!(genstate.wall_cells.0[0][0], 0);
    assert_eq!(genstate.player_states[0].cells.0[0][0], 0);
    assert_eq!(genstate.player_states[0].fog.0[0][0], 1);
    assert_eq!(genstate.player_states[1].cells.0[0][0], 0);
    assert_eq!(genstate.player_states[1].fog.0[0][0], 0);
}

#[test]
fn write_at_position_as_player0_sets_only_that_players_fog() {
    let mut genstate = make_gen_state();

    // fog bits initially set for both players
    genstate.player_states[0].fog.0[0][0] = 1;
    genstate.player_states[1].fog.0[0][0] = 1;
    genstate.write_at_position(63, 0, 'o', Some(0));
    assert_eq!(genstate.cells.0[0][0], 1);
    assert_eq!(genstate.wall_cells.0[0][0], 0);
    assert_eq!(genstate.player_states[0].cells.0[0][0], 0);
    assert_eq!(genstate.player_states[0].fog.0[0][0], 0);
    assert_eq!(genstate.player_states[1].cells.0[0][0], 0);
    assert_eq!(genstate.player_states[1].fog.0[0][0], 1);
}

#[test]
fn gen_state_get_run_simple() {
    let mut genstate = make_gen_state();

    Pattern("o!".to_owned()).to_grid(&mut genstate, None).unwrap();
    assert_eq!(genstate.get_run(0, 0, None), (1, 'o'));
}

#[test]
fn gen_state_get_run_wall() {
    let mut genstate = make_gen_state();

    Pattern("4W!".to_owned()).to_grid(&mut genstate, None).unwrap();
    assert_eq!(genstate.get_run(0, 0, None), (4, 'W'));
}

#[test]
fn gen_state_get_run_wall_blank_in_front() {
    let mut genstate = make_gen_state();

    Pattern("12b4W!".to_owned()).to_grid(&mut genstate, None).unwrap();
    assert_eq!(genstate.get_run(12, 0, None), (4, 'W'));
}

#[test]
fn gen_state_get_run_alternating_owned_unowned() {
    let mut genstate = make_gen_state();

    Pattern("15o3A2B9o!".to_owned()).to_grid(&mut genstate, None).unwrap();
    assert_eq!(genstate.get_run(0, 0, None), (15, 'o'));
    assert_eq!(genstate.get_run(15, 0, None), (3, 'A'));
    assert_eq!(genstate.get_run(15 + 3, 0, None), (2, 'B'));
    assert_eq!(genstate.get_run(15 + 3 + 2, 0, None), (9, 'o'));
}

#[test]
fn gen_state_get_run_player0_fog() {
    let mut genstate = make_gen_state();

    // consequences of the writable areas of the players of make_gen_state()
    assert_eq!(genstate.player_states[0].fog.0[0][0], u64::max_value()); // complete fog for player 0
    assert_eq!(genstate.player_states[1].fog.0[0][0], 0); // no fog here for player 1

    let write_pattern_as = Some(1); // avoid clearing fog for players other than player 1
    Pattern("o!".to_owned()).to_grid(&mut genstate, write_pattern_as).unwrap();
    let visibility = Some(0); // as player 0
    assert_eq!(genstate.get_run(0, 0, visibility), (genstate.width(), '?'));
}

#[test]
fn gen_state_get_run_player1_no_fog() {
    let mut genstate = make_gen_state();

    let write_pattern_as = Some(1); // avoid clearing fog for players other than player 1
    Pattern("o!".to_owned()).to_grid(&mut genstate, write_pattern_as).unwrap();
    let visibility = Some(1); // as player 1
    assert_eq!(genstate.get_run(0, 0, visibility), (1, 'o'));
}

#[test]
fn gen_state_copy_from_bit_grid_simple() {
    let mut genstate = make_gen_state();
    let grid = Pattern("64o$64o!".to_owned()).to_new_bit_grid(64, 2).unwrap();

    let write_pattern_as = None;
    let dst_region = Region::new(0, 0, 32, 3);
    genstate.copy_from_bit_grid(&grid, dst_region, write_pattern_as);

    assert_eq!(genstate.cells.to_pattern(None).0, "32o$32o!".to_owned());
    assert_eq!(genstate.wall_cells.to_pattern(None).0, "!".to_owned());
    for player_id in 0..genstate.player_states.len() {
        assert_eq!(genstate.player_states[player_id].cells.to_pattern(None).0, "!".to_owned());
    }
}

#[test]
fn gen_state_copy_from_bit_grid_as_player() {
    let mut genstate = make_gen_state();
    let grid = Pattern("64o$64o!".to_owned()).to_new_bit_grid(64, 2).unwrap();

    assert_eq!(genstate.player_states[0].fog.0[0][0], u64::max_value()); // complete fog for player 0
    assert_eq!(genstate.player_states[1].fog.0[0][0], 0); // no fog here for player 1

    let write_pattern_as = Some(1); // player 1
    let raw_dst_region = Region::new(0, 0, 32, 3);

    // intersect with player 1 writable region from make_gen_state()
    let dst_region = raw_dst_region.intersection(Region::new(0, 0, 80, 80)).unwrap();

    genstate.copy_from_bit_grid(&grid, dst_region, write_pattern_as);

    assert_eq!(genstate.cells.to_pattern(None).0, "32o$32o!".to_owned());
    assert_eq!(genstate.wall_cells.to_pattern(None).0, "!".to_owned());
    assert_eq!(genstate.player_states[0].cells.to_pattern(None).0, "!".to_owned());
    assert_eq!(genstate.player_states[0].fog.0[0][0], u64::max_value()); // complete fog for player 0
    assert_eq!(genstate.player_states[0].fog.0[1][0], u64::max_value()); // complete fog for player 0
    assert_eq!(genstate.player_states[1].cells.to_pattern(None).0, "32o$32o!".to_owned());
}

#[test]
fn gen_state_pair_get_run_simple() {
    let gs0 = make_gen_state();
    let mut gs1 = make_gen_state();
    Pattern("o!".to_owned()).to_grid(&mut gs1, None).unwrap();

    let pair = GenStatePair {
        gen_state0: &gs0,
        gen_state1: &gs1,
    };

    assert_eq!(pair.get_run(0, 0, None), (1, 'o'));
    assert_eq!(pair.get_run(1, 0, None), (gs0.width() - 1, '"'));
}

#[test]
fn gen_state_pair_get_run_simple2() {
    let mut gs0 = make_gen_state();
    Pattern("2o3b5o!".to_owned()).to_grid(&mut gs0, None).unwrap();
    let mut gs1 = make_gen_state();
    Pattern("2o3b5o!".to_owned()).to_grid(&mut gs1, None).unwrap();

    let pair = GenStatePair {
        gen_state0: &gs0,
        gen_state1: &gs1,
    };

    assert_eq!(pair.get_run(0, 0, None), (gs0.width(), '"'));
}

#[test]
fn gen_state_pair_get_run_simple3() {
    let mut gs0 = make_gen_state();
    Pattern("4b5o!".to_owned()).to_grid(&mut gs0, None).unwrap();
    let mut gs1 = make_gen_state();
    Pattern("3b5o!".to_owned()).to_grid(&mut gs1, None).unwrap();

    let pair = GenStatePair {
        gen_state0: &gs0,
        gen_state1: &gs1,
    };

    assert_eq!(pair.get_run(0, 0, None), (3, '"'));
    assert_eq!(pair.get_run(3, 0, None), (1, 'o'));
    assert_eq!(pair.get_run(3 + 1, 0, None), (4, '"'));
    assert_eq!(pair.get_run(3 + 1 + 4, 0, None), (1, 'b'));
    assert_eq!(pair.get_run(3 + 1 + 4 + 1, 0, None), (gs0.width() - (3 + 1 + 4 + 1), '"'));
}

#[test]
fn gen_state_diff_simple1() {
    let gs0 = make_gen_state();
    let mut gs1 = make_gen_state();
    Pattern("o!".to_owned()).to_grid(&mut gs1, None).unwrap();

    let gsdiff = gs0.diff(&gs1, None);
    assert_eq!(gsdiff.pattern.0.len(), 659);
    let mut gsdiff_pattern_iter = gsdiff.pattern.0.split('$');
    assert_eq!(gsdiff_pattern_iter.next().unwrap(), "o255\"");
    assert_eq!(gsdiff_pattern_iter.next().unwrap(), "256\"");
    assert_eq!(gsdiff_pattern_iter.next().unwrap(), "256\"");
    // if you keep doing this, you'll eventually get a string containing \r\n
}

#[test]
fn gen_state_diff_and_restore_simple1() {
    let gs0 = make_gen_state();
    let mut gs1 = make_gen_state();
    let visibility = None;
    Pattern("o!".to_owned()).to_grid(&mut gs1, visibility).unwrap();

    let gsdiff = gs0.diff(&gs1, visibility);

    let mut new_gs = make_gen_state();

    gsdiff.pattern.to_grid(&mut new_gs, visibility).unwrap();
    assert_eq!(new_gs, gs1);
}

const COMPLEX_PATTERN: &str = "b2o23b2o21b$b2o23bo22b$24bobo22b$15b2o7b2o23b$2o13bobo31b$2o13bob2o30b$16b2o31b$16bo32b$44b2o3b$16bo27b2o3b$16b2o31b$2o13bob2o13bo3bo12b$2o13bobo13bo5bo7b2o2b$15b2o14bo13b2o2b$31b2o3bo12b$b2o30b3o13b$b2o46b$33b3o13b$31b2o3bo12b$31bo13b2o2b$31bo5bo7b2o2b$32bo3bo12b2$44b2o3b$44b2o3b5$37b2o10b$37bobo7b2o$39bo7b2o$37b3o9b$22bobo24b$21b3o25b$21b3o25b$21bo15b3o9b$25bobo11bo9b$21b2o4bo9bobo9b$16b2o4bo3b2o9b2o10b$15bobo6bo24b$15bo33b$14b2o!";

#[test]
fn gen_state_diff_and_restore_complex1() {
    let gs0 = make_gen_state();
    let mut gs1 = make_gen_state();
    let visibility = None;
    let pat_str = COMPLEX_PATTERN.to_owned();
    Pattern(pat_str).to_grid(&mut gs1, visibility).unwrap();

    let gsdiff = gs0.diff(&gs1, visibility);

    let mut new_gs = make_gen_state();

    gsdiff.pattern.to_grid(&mut new_gs, visibility).unwrap();
    assert_eq!(new_gs.gen_or_none, gs1.gen_or_none);
    assert_eq!(new_gs.cells, gs1.cells);
    assert_eq!(new_gs.known, gs1.known);
    assert_eq!(new_gs.wall_cells, gs1.wall_cells);
    for i in 0..new_gs.player_states.len() {
        assert_eq!(new_gs.player_states[i].cells, gs1.player_states[i].cells);
        // fog may differ: it would normally already be cleared where the pattern is written
    }
}

#[test]
fn gen_state_diff_and_restore_complex1_with_visibility() {
    let gs0 = make_gen_state();
    let mut gs1 = make_gen_state();
    let visibility = Some(1);
    let pat_str = COMPLEX_PATTERN.to_owned();
    Pattern(pat_str).to_grid(&mut gs1, visibility).unwrap();

    let gsdiff = gs0.diff(&gs1, visibility);

    let mut new_gs = make_gen_state();

    gsdiff.pattern.to_grid(&mut new_gs, visibility).unwrap();
    assert_eq!(new_gs.gen_or_none, gs1.gen_or_none);
    assert_eq!(new_gs.cells, gs1.cells);
    assert_eq!(new_gs.known, gs1.known);
    assert_eq!(new_gs.wall_cells, gs1.wall_cells);
    for i in 0..new_gs.player_states.len() {
        assert_eq!(new_gs.player_states[i].cells, gs1.player_states[i].cells);
        assert_eq!(new_gs.player_states[i].fog, gs1.player_states[i].fog);
    }
}

#[test]
fn copy_from_bit_grid_takes_cells_from_other_players() {
    let mut genstate = make_gen_state();
    Pattern("BA!".to_owned()).to_grid(&mut genstate, None).unwrap();
    assert_eq!(genstate.get_run(0, 0, None), (1, 'B'));
    let grid = Pattern("o!".to_owned()).to_new_bit_grid(64, 1).unwrap();
    genstate.copy_from_bit_grid(&grid, Region::new(0, 0, 1, 1), Some(0));
    // the pasted cell now belongs to player 0 alone; player 0's other cell is unchanged
    assert_eq!(genstate.get_run(0, 0, None), (2, 'A'));
    assert_eq!(genstate.player_states[1].cells.to_pattern(None).0, "!".to_owned());
    assert_eq!(genstate.player_states[0].cells.to_pattern(None).0, "2o!".to_owned());
}

#[test]
fn diff_restores_a_state_with_unknown_cells() {
    // a client's state: nothing known; the later state knows the first row only
    let gs0 = BigBang::new().history(1).server_mode(false).birth().unwrap().latest_gen_state().clone();
    let mut gs1 = gs0.clone();
    Pattern("2o254b!".to_owned()).to_grid(&mut gs1, None).unwrap();
    let gsdiff = gs0.diff(&gs1, None);
    let mut restored = gs0.clone();
    gsdiff.pattern.to_grid(&mut restored, None).unwrap();
    assert_eq!(restored.cells, gs1.cells);
    assert_eq!(restored.known, gs1.known);
    assert_eq!(restored.wall_cells, gs1.wall_cells);
}
