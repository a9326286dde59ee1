use conway::cell_state::CellState;

#[test]
fn cell_states_as_char() {
    let dead = CellState::Dead;
    let alive = CellState::Alive(None);
    let player1 = CellState::Alive(Some(1));
    let player2 = CellState::Alive(Some(2));
    let wall = CellState::Wall;
    let fog = CellState::Fog;

    assert_eq!(dead.to_char(), 'b');
    assert_eq!(alive.to_char(), 'o');
    assert_eq!(player1.to_char(), 'B');
    assert_eq!(player2.to_char(), 'C');
    assert_eq!(wall.to_char(), 'W');
    assert_eq!(fog.to_char(), '?');
}

#[test]
fn every_player_letter_reads_back() {
    for id in 0..22 {
        let st = CellState::Alive(Some(id));
        assert_eq!(CellState::from_char(st.to_char()), Some(st));
    }
    assert_eq!(CellState::Alive(Some(21)).to_char(), 'V');
    assert_eq!(CellState::from_char('W'), Some(CellState::Wall));
}
