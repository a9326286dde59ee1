use vstd::prelude::*;

verus! {

/// The state of a single cell as seen by a player or the server.
#[derive(Eq, PartialEq, Structural, Ord, PartialOrd, Copy, Clone, Debug)]
pub enum CellState {
    Dead,
    /// Some(player_number), or alive but not belonging to any player.
    Alive(Option<usize>),
    Wall,
    Fog,
}

/// The character standing for player `id` (uppercase letters from 'A').
pub open spec fn player_char(id: int) -> char {
    (65 + id) as char
}

/// The character that represents a cell state.
pub open spec fn cell_char(s: CellState) -> char {
    match s {
        CellState::Alive(Some(id)) => player_char(id as int),
        CellState::Alive(None) => 'o',
        CellState::Dead => 'b',
        CellState::Wall => 'W',
        CellState::Fog => '?',
    }
}

/// The cell state that a character stands for, if any.
pub open spec fn char_cell(ch: char) -> Option<CellState> {
    if ch == 'o' {
        Some(CellState::Alive(None))
    } else if ch == 'b' {
        Some(CellState::Dead)
    } else if ch == 'W' {
        Some(CellState::Wall)
    } else if ch == '?' {
        Some(CellState::Fog)
    } else if 'A' <= ch <= 'V' {
        Some(CellState::Alive(Some((ch as int - 65) as usize)))
    } else {
        None
    }
}

/// Whether a state can be converted to a character: player IDs 0 through 21 map to the letters
/// 'A' through 'V'; 'W' is not usable for a player since it represents a wall cell.
pub open spec fn has_char(s: CellState) -> bool {
    s matches CellState::Alive(Some(id)) ==> id < 22
}

impl CellState {
    /// Convert this `CellState` to a `char`. When the state is `Alive(None)` or `Dead`, this will
    /// match what would be found in a .rle file. `Wall`, `Alive(Some(player_id))`, and `Fog` are
    /// unsupported in vanilla CGoL; player IDs 0 through 21 map to the uppercase letters 'A'
    /// through 'V' ('W' stands for a wall, so it is not usable for a player).
    pub fn to_char(self) -> (ch: char)
        requires
            has_char(self),
        ensures
            ch == cell_char(self),
    {
        match self {
            CellState::Alive(Some(player_id)) => {
                let code: u8 = player_id as u8 + 65;
                code as char
            },
            CellState::Alive(None) => 'o',
            CellState::Dead => 'b',
            CellState::Wall => 'W',
            CellState::Fog => '?',
        }
    }

    /// Converts a character back to a `CellState`: 'o', 'b', 'W', '?' and the player letters
    /// 'A' through 'V'. Any other character gives `None`.
    pub fn from_char(ch: char) -> (r: Option<Self>)
        ensures
            r == char_cell(ch),
    {
        if ch == 'o' {
            Some(CellState::Alive(None))
        } else if ch == 'b' {
            Some(CellState::Dead)
        } else if ch == 'W' {
            Some(CellState::Wall)
        } else if ch == '?' {
            Some(CellState::Fog)
        } else if 'A' <= ch && ch <= 'V' {
            let code: u32 = ch as u32;
            Some(CellState::Alive(Some((code - 65) as usize)))
        } else {
            None
        }
    }

    /// Converting a state to its character and back gives the same state, for every state that
    /// has a character.
    pub proof fn lemma_char_round_trip(s: CellState)
        requires
            has_char(s),
        ensures
            char_cell(cell_char(s)) == Some(s),
    {
    }

    /// Every character that reads as a state is the character of that state.
    pub proof fn lemma_state_round_trip(ch: char)
        requires
            char_cell(ch) is Some,
        ensures
            has_char(char_cell(ch).unwrap()),
            cell_char(char_cell(ch).unwrap()) == ch,
    {
    }
}

} // verus!
