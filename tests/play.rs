use quantum_sweeper::bytes::Byter;
use quantum_sweeper::collapser::Collapser;
use quantum_sweeper::field::{Field, FieldError, MiscMethods};
use quantum_sweeper::generator::{distribute_tiles, make_groups, Generator};
use quantum_sweeper::opener::TileOpener;
use quantum_sweeper::tile::{Prob, TileStatus};
use std::collections::BTreeMap;

fn board_from(w: u32, h: u32, records: &[[u8; 3]]) -> Field {
    let mut b = Vec::new();
    b.extend_from_slice(&w.to_le_bytes());
    b.extend_from_slice(&h.to_le_bytes());
    for r in records {
        b.extend_from_slice(r);
    }
    Field::from_bytes(&b).ok().unwrap()
}

fn count(n: usize, fraction: f64) -> usize {
    ((n as f64) * fraction).round() as usize
}

fn groups_of(board: &Field) -> BTreeMap<i8, Vec<usize>> {
    let mut m: BTreeMap<i8, Vec<usize>> = BTreeMap::new();
    for (i, t) in board.tiles.iter().enumerate() {
        if t.group_id >= 0 {
            m.entry(t.group_id).or_default().push(i);
        }
    }
    m
}

fn generated(seed: u64) -> Field {
    let mut board = Field::with_seed(5, 5, seed);
    board.generate(2, 2, count(24, 0.1), count(24, 0.2)).unwrap();
    board
}

fn size_prob(k: usize) -> u8 {
    match k {
        1 => 12,
        2 => 6,
        3 => 4,
        4 => 3,
        _ => 0,
    }
}

#[test]
fn generator_protects_first_click() {
    for seed in 0..30u64 {
        let board = generated(seed);
        let t = board.get_tile(2, 2).unwrap();
        assert_eq!(t.group_id, -1);
        assert_eq!(t.prob, Prob(0));
        let groups = groups_of(&board);
        assert_eq!(groups.len(), 2);
        let members: usize = groups.values().map(|v| v.len()).sum();
        assert_eq!(members, 5);
    }
}

#[test]
fn generated_groups_match_size_table() {
    for seed in 0..30u64 {
        let board = generated(seed);
        for (_, cells) in groups_of(&board) {
            assert!(1 <= cells.len() && cells.len() <= 4);
            for i in &cells {
                let t = &board.tiles[*i];
                assert_eq!(t.prob.0, size_prob(cells.len()));
                assert!(!t.measured);
                assert_eq!(t.status, TileStatus::Hidden);
            }
        }
        for t in board.tiles.iter().filter(|t| t.group_id == -1) {
            assert_eq!(t.prob, Prob(0));
        }
    }
}

#[test]
fn generator_is_deterministic_per_seed() {
    assert_eq!(generated(11).to_bytes(), generated(11).to_bytes());
}

#[test]
fn generator_shuffles_cells() {
    // Without a shuffle the seeds would always be the first cells.
    let moved = (0..40u64).any(|seed| generated(seed).tiles[0].group_id == -1);
    assert!(moved);
}

#[test]
fn generator_errors() {
    let mut board = Field::with_seed(3, 3, 1);
    assert_eq!(board.generate(3, 0, 1, 1), Err(FieldError::BadFirstClick));
    assert_eq!(board.generate(0, -1, 1, 1), Err(FieldError::BadFirstClick));
    assert_eq!(board.generate(0, 0, 9, 9), Err(FieldError::TooManyGroups));
    let mut big = Field::with_seed(20, 20, 1);
    assert_eq!(big.generate(0, 0, 128, 200), Err(FieldError::TooManyGroups));
    assert!(big.tiles.iter().all(|t| t.group_id == -1));
    assert_eq!(big.generate(0, 0, 127, 200), Ok(()));
    assert_eq!(groups_of(&big).len(), 127);
}

#[test]
fn generator_takes_at_least_one_group() {
    let mut board = Field::with_seed(3, 3, 5);
    board.generate(1, 1, 0, 0).unwrap();
    let groups = groups_of(&board);
    assert_eq!(groups.len(), 1);
    assert_eq!(groups.values().next().unwrap().len(), 1);
    assert_eq!(board.tiles[groups.values().next().unwrap()[0]].prob, Prob(12));
}

#[test]
fn generator_clamps_candidates() {
    let mut board = Field::with_seed(2, 2, 9);
    board.generate(0, 0, 1, 50).unwrap();
    let groups = groups_of(&board);
    assert_eq!(groups[&0].len(), 3);
    assert!(groups[&0].iter().all(|i| board.tiles[*i].prob == Prob(4)));
}

#[test]
fn make_groups_seeds_one_cell_each() {
    let mut avail = vec![7usize, 3, 9, 1];
    let groups = make_groups(&mut avail, 3).unwrap();
    assert_eq!(groups, vec![vec![7], vec![3], vec![9]]);
    assert_eq!(avail, vec![1]);
    let mut short = vec![1usize];
    assert_eq!(make_groups(&mut short, 2), Err(FieldError::TooManyGroups));
    assert_eq!(short, vec![1]);
}

#[test]
fn distribute_fills_groups_up_to_four() {
    let mut rng = fastrand::Rng::with_seed(3);
    let mut groups = vec![vec![100usize], vec![200]];
    let avail: Vec<usize> = (0..10).collect();
    distribute_tiles(&mut rng, &avail, &mut groups, 8);
    assert_eq!(groups[0][0], 100);
    assert_eq!(groups[1][0], 200);
    assert_eq!(groups[0].len(), 4);
    assert_eq!(groups[1].len(), 4);
    let mut placed: Vec<usize> = groups.iter().flat_map(|g| g[1..].to_vec()).collect();
    placed.sort();
    assert_eq!(placed, vec![0, 1, 2, 3, 4, 5]);
}

#[test]
fn measurement_concentrates_probability() {
    for seed in 0..30u64 {
        let mut board = generated(seed);
        let groups = groups_of(&board);
        let (g, cells) = groups.iter().next().unwrap();
        board.collapse_group(*g).unwrap();
        let probs: Vec<u8> = cells.iter().map(|i| board.tiles[*i].prob.0).collect();
        assert_eq!(probs.iter().filter(|p| **p == 12).count(), 1);
        assert_eq!(probs.iter().filter(|p| **p == 0).count(), cells.len() - 1);
        assert_eq!(probs.iter().map(|p| *p as u32).sum::<u32>(), 12);
        assert!(cells.iter().all(|i| board.tiles[*i].measured));
    }
}

#[test]
fn resolve_group_places_mine_on_pick() {
    let mut board = board_from(2, 2, &[[0, 0, 4], [0, 0xFF, 0], [0, 0, 4], [0, 0, 4]]);
    board.resolve_group(0, 1);
    assert_eq!(board.tiles[0].prob, Prob(0));
    assert_eq!(board.tiles[2].prob, Prob(12));
    assert_eq!(board.tiles[3].prob, Prob(0));
    assert!(board.tiles[0].measured && board.tiles[2].measured && board.tiles[3].measured);
    assert!(!board.tiles[1].measured);
}

#[test]
fn measuring_twice_is_refused() {
    let mut board = board_from(2, 1, &[[0, 0, 6], [0, 0, 6]]);
    assert_eq!(board.collapse(0, 0), Ok(()));
    assert_eq!(board.collapse(1, 0), Err(FieldError::AlreadyMeasured));
    assert_eq!(board.collapse_group(0), Err(FieldError::AlreadyMeasured));
    assert_eq!(board.collapse(2, 0), Err(FieldError::BadCoord));
}

#[test]
fn measuring_lone_tile_makes_it_blank() {
    let mut board = board_from(2, 1, &[[0, 0xFF, 0], [1, 0xFF, 0]]);
    assert_eq!(board.collapse(0, 0), Ok(()));
    assert!(board.tiles[0].measured);
    assert_eq!(board.tiles[0].prob, Prob(0));
    assert_eq!(board.collapse_simple_tile(0, 0), Err(FieldError::AlreadyMeasured));
    // An opened tile that was never measured is measured as any other.
    assert_eq!(board.collapse_simple_tile(1, 0), Ok(()));
    assert!(board.tiles[1].measured);
    assert_eq!(board.collapse_simple_tile(0, 3), Err(FieldError::BadCoord));
}

#[test]
fn measuring_empty_group_does_nothing() {
    let mut board = board_from(1, 1, &[[0, 0xFF, 0]]);
    let before = board.to_bytes();
    assert_eq!(board.collapse_group(5), Ok(()));
    assert_eq!(board.to_bytes(), before);
}

#[test]
fn flood_stops_at_borders() {
    let mut recs = vec![[0u8, 0xFF, 0]; 9];
    recs[2] = [0, 0xFF, 3];
    recs[5] = [0, 0xFF, 6];
    recs[8] = [0, 0xFF, 4];
    let mut board = board_from(3, 3, &recs);
    let opened = board.multiopen(0, 0);
    for c in [(0, 0), (0, 1), (1, 0), (1, 1), (0, 2), (1, 2)] {
        assert!(opened.contains(&c));
    }
    for c in [(2, 0), (2, 1), (2, 2)] {
        assert!(!opened.contains(&c));
    }
    assert_eq!(opened[0], (0, 0));
    assert_eq!(board.get_tile(1, 1).unwrap().status, TileStatus::Opened);
    assert_eq!(board.get_tile(2, 1).unwrap().status, TileStatus::Hidden);
}

#[test]
fn flood_lists_each_cell_once() {
    let mut board = board_from(4, 4, &vec![[0u8, 0xFF, 0]; 16]);
    let opened = board.multiopen(1, 2);
    assert_eq!(opened.len(), 16);
    let mut sorted = opened.clone();
    sorted.sort();
    sorted.dedup();
    assert_eq!(sorted.len(), 16);
    assert!(board.tiles.iter().all(|t| t.status == TileStatus::Opened && t.measured));
}

#[test]
fn flood_outside_the_board_is_empty() {
    let mut board = board_from(2, 2, &vec![[0u8, 0xFF, 0]; 4]);
    assert!(board.multiopen(-1, -1).is_empty());
    assert!(board.multiopen(2, 0).is_empty());
    assert!(board.tiles.iter().all(|t| t.status == TileStatus::Hidden));
}

#[test]
fn flood_keeps_flags() {
    let mut recs = vec![[0u8, 0xFF, 0]; 4];
    recs[3] = [2, 0xFF, 0];
    let mut board = board_from(2, 2, &recs);
    let opened = board.multiopen(0, 0);
    assert_eq!(opened.len(), 4);
    assert_eq!(board.tiles[3].status, TileStatus::Flag);
}

#[test]
fn opening_a_mine_returns_true() {
    let mut board = board_from(1, 1, &[[4, 0xFF, 12]]);
    assert_eq!(board.open_tile(0, 0), Ok(true));
    assert_eq!(board.tiles[0].status, TileStatus::Opened);
}

#[test]
fn opening_a_blank_returns_false() {
    let mut board = board_from(2, 1, &[[0, 0xFF, 0], [0, 0xFF, 0]]);
    assert_eq!(board.open_tile(1, 0), Ok(false));
    assert!(board.tiles[1].measured);
    assert_eq!(board.tiles[1].status, TileStatus::Opened);
}

#[test]
fn opening_a_singleton_group_hits_its_mine() {
    let mut board = board_from(2, 1, &[[0, 0, 12], [0, 0xFF, 0]]);
    assert_eq!(board.open_tile(0, 0), Ok(true));
    assert!(board.tiles[0].measured);
}

#[test]
fn opening_errors() {
    let mut board = board_from(2, 1, &[[1, 0xFF, 0], [2, 0xFF, 0]]);
    assert_eq!(board.open_tile(0, 0), Err(FieldError::NotHidden));
    assert_eq!(board.open_tile(1, 0), Err(FieldError::NotHidden));
    assert_eq!(board.open_tile(0, 1), Err(FieldError::BadCoord));
}

#[test]
fn opening_measures_the_whole_group() {
    let mut board = board_from(3, 1, &[[0, 0, 6], [0, 0xFF, 0], [0, 0, 6]]);
    let mine = board.open_tile(0, 0).unwrap();
    assert!(board.tiles[0].measured && board.tiles[2].measured);
    assert_eq!(board.tiles[0].prob.0 + board.tiles[2].prob.0, 12);
    assert_eq!(mine, board.tiles[0].prob.0 == 12);
    assert_eq!(board.tiles[2].status, TileStatus::Hidden);
}

#[test]
fn quant_flag_batch_clears_a_group() {
    for seed in 0..30u64 {
        let mut board = generated(seed);
        let groups = groups_of(&board);
        let (g, cells) = groups.iter().next().unwrap();
        for i in cells {
            let (x, y) = ((*i % 5) as i32, (*i / 5) as i32);
            board.set_tile_status(x, y, TileStatus::QuantFlag);
        }
        let changed = board.collapse_quant_flags();
        assert_eq!(board.get_group_elements(*g).len(), cells.len());
        for i in cells {
            let t = &board.tiles[*i];
            assert_eq!(t.status, TileStatus::Hidden);
            assert!(t.measured);
        }
        assert_eq!(cells.iter().filter(|i| board.tiles[**i].prob == Prob(12)).count(), 1);
        for i in cells {
            let (x, y) = ((*i % 5) as i32, (*i / 5) as i32);
            for dy in -1..=1 {
                for dx in -1..=1 {
                    let (nx, ny) = (x + dx, y + dy);
                    if board.is_inside_bounds(nx, ny) {
                        assert!(changed.contains(&(nx, ny)));
                    }
                }
            }
        }
        assert!(changed.iter().all(|(x, y)| board.is_inside_bounds(*x, *y)));
    }
}

#[test]
fn quant_flag_on_one_member_resolves_its_group() {
    let mut board = board_from(3, 1, &[[3, 0, 4], [0, 0, 4], [0, 0, 4]]);
    let changed = board.collapse_quant_flags();
    assert!(board.tiles.iter().all(|t| t.measured && t.status == TileStatus::Hidden));
    assert_eq!(board.tiles.iter().filter(|t| t.prob == Prob(12)).count(), 1);
    for c in [(0, 0), (1, 0), (2, 0)] {
        assert!(changed.contains(&c));
    }
}

#[test]
fn quant_flag_on_lone_tile_clears_it() {
    let mut board = board_from(3, 1, &[[3, 0xFF, 0], [0, 0xFF, 0], [2, 0xFF, 0]]);
    let changed = board.collapse_quant_flags();
    assert_eq!(board.tiles[0].status, TileStatus::Hidden);
    assert!(board.tiles[0].measured);
    assert_eq!(board.tiles[0].prob, Prob(0));
    assert!(!board.tiles[1].measured);
    assert_eq!(board.tiles[2].status, TileStatus::Flag);
    assert!(changed.contains(&(0, 0)) && changed.contains(&(1, 0)));
    assert!(!changed.contains(&(2, 0)));
}

#[test]
fn quant_flag_groups_are_listed_once() {
    let board = board_from(4, 1, &[[3, 1, 6], [3, 1, 6], [3, 0xFF, 0], [0, 2, 12]]);
    let mut ids = board.get_tiles_with_quant_flags();
    ids.sort();
    assert_eq!(ids, vec![-1, 1]);
}

#[test]
fn invariants_hold_through_play() {
    for seed in 0..20u64 {
        let mut board = Field::with_seed(6, 5, seed);
        board.generate(3, 2, count(29, 0.2), count(29, 0.5)).unwrap();
        let _ = board.open_tile(3, 2);
        let _ = board.multiopen(3, 2);
        for (x, y) in [(0, 0), (5, 4), (1, 3)] {
            board.set_tile_status(x, y, TileStatus::QuantFlag);
        }
        let _ = board.collapse_quant_flags();
        for (x, y) in [(2, 2), (4, 1), (0, 4)] {
            let _ = board.open_tile(x, y);
        }
        for t in &board.tiles {
            if t.measured {
                assert!(t.prob == Prob(0) || t.prob == Prob(12));
            }
            if t.status == TileStatus::Opened {
                assert!(t.measured);
            }
        }
        for (_, cells) in groups_of(&board) {
            let measured = board.tiles[cells[0]].measured;
            assert!(cells.iter().all(|i| board.tiles[*i].measured == measured));
            if measured {
                assert_eq!(cells.iter().filter(|i| board.tiles[**i].prob == Prob(12)).count(), 1);
            } else {
                assert!(cells.iter().all(|i| board.tiles[*i].prob.0 == size_prob(cells.len())));
            }
        }
    }
}

#[test]
fn measuring_a_member_resolves_its_group_even_if_another_is_marked() {
    let mut board = board_from(2, 1, &[[4, 0, 0], [0, 0, 6]]);
    assert_eq!(board.collapse(1, 0), Ok(()));
    assert!(board.tiles[0].measured && board.tiles[1].measured);
    assert_eq!(board.tiles[0].prob.0 + board.tiles[1].prob.0, 12);
}

#[test]
fn distribute_places_the_first_candidates_in_order() {
    for seed in 0..20u64 {
        let mut rng = fastrand::Rng::with_seed(seed);
        let mut groups = vec![vec![100usize], vec![200], vec![300]];
        let avail: Vec<usize> = (0..12).collect();
        distribute_tiles(&mut rng, &avail, &mut groups, 12);
        let mut placed: Vec<usize> = groups.iter().flat_map(|g| g[1..].to_vec()).collect();
        placed.sort();
        assert_eq!(placed, (0..9).collect::<Vec<usize>>());
        for g in &groups {
            assert!(g[1..].windows(2).all(|w| w[0] < w[1]));
        }
    }
}

#[test]
fn flood_lists_neighbours_of_every_blank_area() {
    let mut recs = vec![[0u8, 0xFF, 0]; 25];
    recs[12] = [4, 0xFF, 12];
    let mut board = board_from(5, 5, &recs);
    let opened = board.multiopen(0, 0);
    // Only the mine at the centre is out of reach: its neighbours all border it.
    assert_eq!(opened.len(), 24);
    assert!(!opened.contains(&(2, 2)));
    assert_eq!(board.tiles[12].status, TileStatus::Hidden);
    for (x, y) in &opened {
        if board.around_prob_sum(*x, *y) == Prob(0) {
            for dy in -1..=1 {
                for dx in -1..=1 {
                    if board.is_inside_bounds(x + dx, y + dy) {
                        assert!(opened.contains(&(x + dx, y + dy)));
                    }
                }
            }
        }
    }
}
