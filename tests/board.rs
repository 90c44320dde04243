use quantum_sweeper::bytes::Byter;
use quantum_sweeper::engine::{toggle_flag_status, ToolType};
use quantum_sweeper::field::{Field, MiscMethods};
use quantum_sweeper::tile::{Prob, TileStatus};

fn board_from(w: u32, h: u32, records: &[[u8; 3]]) -> Field {
    let mut b = Vec::new();
    b.extend_from_slice(&w.to_le_bytes());
    b.extend_from_slice(&h.to_le_bytes());
    for r in records {
        b.extend_from_slice(r);
    }
    Field::from_bytes(&b).ok().unwrap()
}

#[test]
fn new_board_is_empty() {
    let board = Field::new(4, 3);
    assert_eq!(board.width(), 4);
    assert_eq!(board.height(), 3);
    assert_eq!(board.tiles.len(), 12);
    assert!(board.tiles.iter().all(|t| t.group_id == -1 && t.prob == Prob(0) && !t.measured));
}

#[test]
fn bounds_and_indices() {
    let board = Field::with_seed(4, 3, 1);
    assert!(board.is_inside_bounds(0, 0));
    assert!(board.is_inside_bounds(3, 2));
    assert!(!board.is_inside_bounds(4, 0));
    assert!(!board.is_inside_bounds(0, 3));
    assert!(!board.is_inside_bounds(-1, 1));
    assert_eq!(board.coords_to_index(2, 1), Some(6));
    assert_eq!(board.coords_to_index(3, 2), Some(11));
    assert_eq!(board.coords_to_index(4, 2), None);
    assert!(board.get_tile(1, 1).is_some());
    assert!(board.get_tile(1, -1).is_none());
}

#[test]
fn around_prob_sum_counts_in_bounds_neighbours() {
    // 3x3, probabilities 1..9 row by row, all lone tiles
    let recs: Vec<[u8; 3]> = (1..=9).map(|p| [0u8, 0xFF, p as u8]).collect();
    let board = board_from(3, 3, &recs);
    assert_eq!(board.around_prob_sum(1, 1), Prob(1 + 2 + 3 + 4 + 6 + 7 + 8 + 9));
    assert_eq!(board.around_prob_sum(0, 0), Prob(2 + 4 + 5));
    assert_eq!(board.around_prob_sum(2, 2), Prob(5 + 6 + 8));
    assert_eq!(board.around_prob_sum(-1, -1), Prob(1));
    assert_eq!(board.around_prob_sum(5, 5), Prob(0));
}

#[test]
fn around_prob_sum_saturates() {
    let recs: Vec<[u8; 3]> = (0..9).map(|_| [0u8, 0xFF, 200u8]).collect();
    let board = board_from(3, 3, &recs);
    assert_eq!(board.around_prob_sum(1, 1), Prob(255));
}

#[test]
fn prob_add_saturates() {
    let mut p = Prob::new(250);
    p.add(&Prob(4));
    assert_eq!(p, Prob(254));
    p.add(&Prob(4));
    assert_eq!(p, Prob(255));
}

#[test]
fn group_elements_in_row_major_order() {
    let board = board_from(
        3,
        2,
        &[[0, 2, 4], [0, 0xFF, 0], [0, 2, 4], [0, 1, 12], [0, 2, 4], [0, 0xFF, 0]],
    );
    assert_eq!(board.get_group_elements(2), vec![(0, 0), (2, 0), (1, 1)]);
    assert_eq!(board.get_group_elements(1), vec![(0, 1)]);
    assert_eq!(board.get_group_elements(-1), vec![(1, 0), (2, 1)]);
    assert_eq!(board.get_group_elements(9), vec![]);
}

#[test]
fn set_tile_status_in_and_out_of_bounds() {
    let mut board = Field::with_seed(2, 2, 3);
    board.set_tile_status(1, 0, TileStatus::Flag);
    assert_eq!(board.get_tile(1, 0).unwrap().status, TileStatus::Flag);
    let before = board.to_bytes();
    board.set_tile_status(2, 0, TileStatus::Flag);
    assert_eq!(board.to_bytes(), before);
}

#[test]
fn win_needs_blanks_opened_and_mines_flagged() {
    let won = board_from(2, 1, &[[5, 0xFF, 0], [6, 0, 12]]);
    assert!(won.is_win());
    let unflagged = board_from(2, 1, &[[5, 0xFF, 0], [4, 0, 12]]);
    assert!(!unflagged.is_win());
    let unresolved = board_from(2, 1, &[[5, 0xFF, 0], [2, 0, 6]]);
    assert!(!unresolved.is_win());
    let unopened = board_from(2, 1, &[[4, 0xFF, 0], [6, 0, 12]]);
    assert!(!unopened.is_win());
}

#[test]
fn won_board_is_resolved() {
    let won = board_from(2, 2, &[[5, 0xFF, 0], [6, 0, 12], [5, 0, 0], [5, 0xFF, 0]]);
    assert!(won.is_win());
    assert!(won.tiles.iter().all(|t| t.prob == Prob(0) || t.prob == Prob(12)));
}

#[test]
fn flag_tools_toggle_statuses() {
    assert_eq!(toggle_flag_status(TileStatus::Hidden, ToolType::SimpleFlag, 3), (TileStatus::Flag, 3));
    assert_eq!(toggle_flag_status(TileStatus::Hidden, ToolType::QuantFlag, 3), (TileStatus::QuantFlag, 2));
    assert_eq!(toggle_flag_status(TileStatus::Hidden, ToolType::QuantFlag, 0), (TileStatus::Hidden, 0));
    assert_eq!(toggle_flag_status(TileStatus::QuantFlag, ToolType::QuantFlag, 0), (TileStatus::Hidden, 1));
    assert_eq!(toggle_flag_status(TileStatus::Flag, ToolType::QuantFlag, 2), (TileStatus::Hidden, 2));
    assert_eq!(toggle_flag_status(TileStatus::Opened, ToolType::SimpleFlag, 2), (TileStatus::Opened, 2));
}

#[test]
fn board_of_one_empty_side() {
    let board = Field::new(u32::MAX, 0);
    assert!(board.tiles.is_empty());
    assert!(board.is_addressable());
    assert!(!board.is_inside_bounds(0, 0));
}
