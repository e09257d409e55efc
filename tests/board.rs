use minesweeper::board::{Board, CellState, Position};

const CELL_STATE_TABLE: [CellState; 11] = [
    CellState::Empty,
    CellState::Danger(1),
    CellState::Danger(2),
    CellState::Danger(3),
    CellState::Danger(4),
    CellState::Danger(5),
    CellState::Danger(6),
    CellState::Danger(7),
    CellState::Danger(8),
    CellState::Unknown,
    CellState::Bomb,
];
const E: usize = 0;
const U: usize = 9;
const B: usize = 10;

fn to_cell_state_grid(grid: Vec<Vec<usize>>) -> Vec<Vec<CellState>> {
    grid.iter()
        .map(|row| row.iter().map(|n| CELL_STATE_TABLE[*n]).collect::<Vec<CellState>>())
        .collect::<Vec<Vec<CellState>>>()
}

fn unknown_board_with_mine_at_center() -> Board {
    Board {
        states: to_cell_state_grid(vec![
            vec![U, U, U, U, U],
            vec![U, U, U, U, U],
            vec![U, U, U, U, U],
            vec![U, U, U, U, U],
            vec![U, U, U, U, U],
        ]),
        bomb_positions: vec![Position::new(2, 2)],
    }
}

#[test]
fn test_display() {
    let board = Board {
        states: to_cell_state_grid(vec![
            vec![1, 2, 2, 1, E],
            vec![1, B, U, 1, E],
            vec![1, 2, 2, 1, E],
            vec![E, E, E, E, E],
            vec![E, E, E, E, E],
        ]),
        bomb_positions: vec![],
    };
    assert_eq!(
        board.to_text(),
        vec![
            "1 2 2 1   ",
            "1 X - 1   ",
            "1 2 2 1   ",
            "          ",
            "          ",
            ""
        ]
        .join("\n")
    );
}

#[test]
fn test_reveal_recurses() {
    let mut board = unknown_board_with_mine_at_center();
    assert_eq!(board.reveal_cell(&Position::new(0, 0)), CellState::Empty);
    assert_eq!(
        board.states,
        to_cell_state_grid(vec![
            vec![E, E, E, E, E],
            vec![E, 1, 1, 1, E],
            vec![E, 1, U, 1, E],
            vec![E, 1, 1, 1, E],
            vec![E, E, E, E, E],
        ])
    );
}

#[test]
fn test_reveal_bomb() {
    let mut board = unknown_board_with_mine_at_center();
    assert_eq!(board.reveal_cell(&Position::new(2, 2)), CellState::Bomb);
    assert_eq!(
        board.states,
        to_cell_state_grid(vec![
            vec![U, U, U, U, U],
            vec![U, U, U, U, U],
            vec![U, U, B, U, U],
            vec![U, U, U, U, U],
            vec![U, U, U, U, U],
        ])
    );
}

#[test]
fn test_reveal_number() {
    let mut board = unknown_board_with_mine_at_center();
    assert_eq!(board.reveal_cell(&Position::new(1, 2)), CellState::Danger(1));
    assert_eq!(
        board.states,
        to_cell_state_grid(vec![
            vec![U, U, U, U, U],
            vec![U, U, 1, U, U],
            vec![U, U, U, U, U],
            vec![U, U, U, U, U],
            vec![U, U, U, U, U],
        ])
    );
}

#[test]
fn reveal_again_changes_nothing() {
    let mut board = unknown_board_with_mine_at_center();
    board.reveal_cell(&Position::new(0, 0));
    let after_first = board.states.clone();
    assert_eq!(board.reveal_cell(&Position::new(0, 0)), CellState::Empty);
    assert_eq!(board.states, after_first);
    assert_eq!(board.reveal_cell(&Position::new(1, 1)), CellState::Danger(1));
    assert_eq!(board.states, after_first);
}

#[test]
fn reveal_mine_again_stays_bomb() {
    let mut board = unknown_board_with_mine_at_center();
    assert_eq!(board.reveal_cell(&Position::new(2, 2)), CellState::Bomb);
    assert_eq!(board.reveal_cell(&Position::new(2, 2)), CellState::Bomb);
    assert_eq!(board.states[2][2], CellState::Bomb);
}

#[test]
fn board_without_mines_never_gives_bomb() {
    let draws = vec![vec![false; 4]; 3];
    let mut board = Board::new(3, 4, &draws);
    assert!(board.bomb_positions.is_empty());
    for row in 0..3 {
        for col in 0..4 {
            assert_ne!(board.reveal_cell(&Position::new(row, col)), CellState::Bomb);
        }
    }
    assert_eq!(board.states, vec![vec![CellState::Empty; 4]; 3]);
}

#[test]
fn new_board_places_drawn_mines() {
    let draws = vec![vec![true, false, false], vec![false, false, true]];
    let board = Board::new(2, 3, &draws);
    assert_eq!(board.states, vec![vec![CellState::Unknown; 3]; 2]);
    assert_eq!(board.bomb_positions, vec![Position::new(0, 0), Position::new(1, 2)]);
    assert!(board.all_unknown());
}

#[test]
fn every_cell_a_mine() {
    let draws = vec![vec![true; 2]; 2];
    let mut board = Board::new(2, 2, &draws);
    assert_eq!(board.bomb_positions.len(), 4);
    assert_eq!(board.reveal_cell(&Position::new(1, 0)), CellState::Bomb);
    assert_eq!(board.to_text(), "- - \nX - \n");
}

#[test]
fn danger_eight_is_surrounded() {
    let draws = vec![vec![true, true, true], vec![true, false, true], vec![true, true, true]];
    let mut board = Board::new(3, 3, &draws);
    assert_eq!(board.reveal_cell(&Position::new(1, 1)), CellState::Danger(8));
    assert_eq!(board.to_text(), "- - - \n- 8 - \n- - - \n");
}

#[test]
fn surrounding_in_compass_order() {
    let board = unknown_board_with_mine_at_center();
    assert_eq!(
        Position::new(2, 2).surrounding(&board),
        vec![
            Position::new(1, 1),
            Position::new(1, 2),
            Position::new(1, 3),
            Position::new(2, 3),
            Position::new(3, 3),
            Position::new(3, 2),
            Position::new(3, 1),
            Position::new(2, 1),
        ]
    );
}

#[test]
fn surrounding_of_corner_and_edge() {
    let board = unknown_board_with_mine_at_center();
    assert_eq!(
        Position::new(0, 0).surrounding(&board),
        vec![Position::new(0, 1), Position::new(1, 1), Position::new(1, 0)]
    );
    assert_eq!(
        Position::new(4, 4).surrounding(&board),
        vec![Position::new(3, 3), Position::new(3, 4), Position::new(4, 3)]
    );
    assert_eq!(Position::new(0, 2).surrounding(&board).len(), 5);
    assert_eq!(Position::new(2, 4).surrounding(&board).len(), 5);
}

#[test]
fn surrounding_of_off_board_position() {
    let board = unknown_board_with_mine_at_center();
    assert_eq!(
        Position::new(5, 5).surrounding(&board),
        vec![Position::new(4, 4)]
    );
    assert!(Position::new(9, 9).surrounding(&board).is_empty());
}

#[test]
fn all_unknown_after_reveal_is_false() {
    let mut board = unknown_board_with_mine_at_center();
    assert!(board.all_unknown());
    board.reveal_cell(&Position::new(4, 4));
    assert!(!board.all_unknown());
}

#[test]
fn cascade_stops_at_revealed_cells() {
    let mut board = Board {
        states: to_cell_state_grid(vec![vec![U, 1, U], vec![U, 1, U]]),
        bomb_positions: vec![],
    };
    assert_eq!(board.reveal_cell(&Position::new(0, 0)), CellState::Empty);
    assert_eq!(board.states, to_cell_state_grid(vec![vec![E, 1, U], vec![E, 1, U]]));
}

#[test]
fn empty_board_renders_nothing() {
    let board = Board::new(0, 3, &vec![]);
    assert_eq!(board.to_text(), "");
}
