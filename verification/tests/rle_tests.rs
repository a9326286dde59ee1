use conway::bit_grid::BitGrid;
use conway::gen_state::GenState;
use conway::region::Region;
use conway::rle::Pattern;
use conway::universe::{BigBang, PlayerBuilder};

fn make_gen_state() -> GenState {
    let player0 = PlayerBuilder::new(Region::new(100, 70, 34, 16));
    let player1 = PlayerBuilder::new(Region::new(0, 0, 80, 80));
    BigBang::new()
        .history(1)
        .add_players(vec![player0, player1])
        .birth()
        .unwrap()
        .latest_gen_state()
        .clone()
}

#[test]
fn bit_grid_pattern_round_trip() {
    let text = "3o$bo2$2b3o!";
    let grid = Pattern(text.to_owned()).to_new_bit_grid(64, 4).unwrap();
    assert_eq!(grid.0.len(), 4);
    assert_eq!(grid.0[0][0], 0b111u64 << 61);
    assert_eq!(grid.0[1][0], 0b010u64 << 61);
    assert_eq!(grid.0[2][0], 0);
    assert_eq!(grid.0[3][0], 0b00111u64 << 59);
    let pattern = grid.to_pattern(None);
    assert_eq!(pattern.0, text.to_owned());
    let again = pattern.to_new_bit_grid(64, 4).unwrap();
    assert_eq!(again, grid);
}

#[test]
fn bit_grid_pattern_of_empty_grid() {
    let grid = BitGrid(vec![vec![0u64; 2]; 3]);
    assert_eq!(grid.to_pattern(None).0, "!".to_owned());
}

#[test]
fn bit_grid_pattern_skips_leading_empty_rows() {
    let grid = Pattern("3$o!".to_owned()).to_new_bit_grid(64, 5).unwrap();
    assert_eq!(grid.0[3][0], 1u64 << 63);
    assert_eq!(grid.to_pattern(None).0, "3$o!".to_owned());
}

#[test]
fn bit_grid_width_rounds_up_to_words() {
    let grid = Pattern("70o!".to_owned()).to_new_bit_grid(65, 1).unwrap();
    assert_eq!(grid.0[0].len(), 2);
    assert_eq!(grid.0[0][0], u64::max_value());
    assert_eq!(grid.0[0][1], 0b111111u64 << 58);
}

#[test]
fn long_pattern_lines_are_broken() {
    // two rows of 32 alternating runs: the text is longer than one line
    let row = "bo".repeat(32);
    let text = format!("{}${}!", row, row);
    let grid = Pattern(text.clone()).to_new_bit_grid(64, 2).unwrap();
    let out = grid.to_pattern(None).0;
    assert_eq!(out.len(), text.len() + 2);
    let first_line = out.split("\r\n").next().unwrap();
    assert_eq!(first_line.len(), 70);
    assert_eq!(out.replace("\r\n", ""), text);
    let again = Pattern(out).to_new_bit_grid(64, 2).unwrap();
    assert_eq!(again, grid);
}

#[test]
fn pattern_with_invalid_char_is_refused() {
    let mut genstate = make_gen_state();
    let before = genstate.clone();
    let res = Pattern("3x!".to_owned()).to_grid(&mut genstate, None);
    assert_eq!(res, Err("invalid character in pattern".to_owned()));
    assert_eq!(genstate, before);
}

#[test]
fn pattern_outside_grid_is_refused() {
    let mut genstate = make_gen_state();
    let before = genstate.clone();
    let res = Pattern("257o!".to_owned()).to_grid(&mut genstate, None);
    assert_eq!(res, Err("pattern does not fit in the grid".to_owned()));
    assert_eq!(genstate, before);
    let res = Pattern("128$o!".to_owned()).to_grid(&mut genstate, None);
    assert_eq!(res, Err("pattern does not fit in the grid".to_owned()));
}

#[test]
fn pattern_with_huge_count_is_refused() {
    let res = Pattern("99999999999999999999999o!".to_owned()).to_new_bit_grid(64, 1);
    assert_eq!(res, Err("count too large in pattern".to_owned()));
}

#[test]
fn pattern_reading_stops_at_bang() {
    let grid = Pattern("o!x$$$".to_owned()).to_new_bit_grid(64, 1).unwrap();
    assert_eq!(grid.0[0][0], 1u64 << 63);
}

#[test]
fn bit_grid_refuses_state_chars() {
    let res = Pattern("A!".to_owned()).to_new_bit_grid(64, 1);
    assert_eq!(res, Err("invalid character in pattern".to_owned()));
}

#[test]
fn no_op_runs_leave_cells_alone() {
    let mut genstate = make_gen_state();
    Pattern("3o!".to_owned()).to_grid(&mut genstate, None).unwrap();
    Pattern("\"b\"!".to_owned()).to_grid(&mut genstate, None).unwrap();
    assert_eq!(genstate.get_run(0, 0, None), (1, 'o'));
    assert_eq!(genstate.get_run(1, 0, None), (1, 'b'));
    assert_eq!(genstate.get_run(2, 0, None), (1, 'o'));
}

#[test]
fn write_then_read_gives_back_the_char() {
    let mut genstate = make_gen_state();
    for (col, ch) in [(3usize, 'W'), (5, 'A'), (7, 'B'), (9, 'o'), (11, 'b')] {
        genstate.write_at_position(col, 2, ch, None);
        assert_eq!(genstate.get_run(col, 2, None).1, ch);
    }
    genstate.write_at_position(13, 2, '?', Some(1));
    assert_eq!(genstate.get_run(13, 2, Some(1)).1, '?');
}

#[test]
fn diff_of_dying_cells_at_row_end_restores_them() {
    // a live cell at the end of a row that dies: the difference ends with a dead run, which the
    // pattern keeps, so writing it over the old state gives back the new state
    let mut gs0 = make_gen_state();
    Pattern("255bo!".to_owned()).to_grid(&mut gs0, None).unwrap();
    let gs1 = make_gen_state();
    let gsdiff = gs0.diff(&gs1, None);
    let mut restored = gs0.clone();
    gsdiff.pattern.to_grid(&mut restored, None).unwrap();
    assert_eq!(restored.get_run(255, 0, None), (1, 'b'));
    assert_eq!(restored.cells, gs1.cells);
    for i in 0..gs1.player_states.len() {
        assert_eq!(restored.player_states[i].cells, gs1.player_states[i].cells);
    }
}

#[test]
fn gen_state_is_valid_chars() {
    for ch in ['o', 'b', 'A', 'V', 'W', '?', '"'] {
        assert!(GenState::is_valid(ch));
    }
    for ch in ['x', '$', '!', '1', 'X'] {
        assert!(!GenState::is_valid(ch));
    }
}

#[test]
fn clear_then_copy_reproduces_state() {
    let mut src = make_gen_state();
    Pattern("2o3bW$bAB!".to_owned()).to_grid(&mut src, None).unwrap();
    let mut dest = make_gen_state();
    Pattern("10o!".to_owned()).to_grid(&mut dest, None).unwrap();
    dest.clear();
    assert_eq!(dest.cells.to_pattern(None).0, "!".to_owned());
    assert_eq!(dest.known.to_pattern(None).0, "!".to_owned());
    src.copy(&mut dest);
    assert_eq!(dest.cells, src.cells);
    assert_eq!(dest.wall_cells, src.wall_cells);
    assert_eq!(dest.known, src.known);
    assert_eq!(dest.player_states, src.player_states);
}
