use minesweeper::board::{Board, CellState, Position};
use minesweeper::solver::rank_positions;

#[test]
fn test_fresh_board_ranking() {
    let board = Board {
        states: vec![vec![CellState::Unknown; 3]; 3],
        bomb_positions: vec![],
    };
    let positions_ranked = rank_positions(&board);
    let expected = 1.0 / 9.0;
    assert!(positions_ranked
        .iter()
        .all(|position_ranked| position_ranked.numerator as f64 / position_ranked.denominator as f64
            == expected));
}

#[test]
fn ranking_covers_every_cell_in_row_major_order() {
    let board = Board::new(2, 3, &vec![vec![false, true, false], vec![false; 3]]);
    let ranked = rank_positions(&board);
    assert_eq!(ranked.len(), 6);
    let positions: Vec<Position> = ranked.iter().map(|p| p.position).collect();
    assert_eq!(
        positions,
        vec![
            Position::new(0, 0),
            Position::new(0, 1),
            Position::new(0, 2),
            Position::new(1, 0),
            Position::new(1, 1),
            Position::new(1, 2),
        ]
    );
    assert!(ranked.iter().all(|p| p.numerator == 1 && p.denominator == 6));
}

#[test]
fn ranking_single_cell_is_certain_share() {
    let board = Board::new(1, 1, &vec![vec![false]]);
    let ranked = rank_positions(&board);
    assert_eq!(ranked.len(), 1);
    assert_eq!(ranked[0].position, Position::new(0, 0));
    assert_eq!((ranked[0].numerator, ranked[0].denominator), (1, 1));
}

#[test]
fn ranking_of_board_without_rows_is_empty() {
    let board = Board::new(0, 0, &vec![]);
    assert!(rank_positions(&board).is_empty());
}
