use pushbox::grid::adjacent;
use pushbox::{reverse_number, GameMap};

fn solved() -> GameMap {
    GameMap {
        map: vec![
            vec![Some(1), Some(2), Some(3)],
            vec![Some(4), Some(5), Some(6)],
            vec![Some(7), Some(8), None],
        ],
    }
}

fn blank_in_the_middle() -> GameMap {
    GameMap {
        map: vec![
            vec![Some(1), Some(2), Some(3)],
            vec![Some(4), None, Some(6)],
            vec![Some(7), Some(5), Some(8)],
        ],
    }
}

#[test]
fn new_board_holds_one_blank_and_each_tile_once() {
    for _ in 0..200 {
        let board = GameMap::new();
        assert_eq!(board.map.len(), 3);
        let mut tiles: Vec<i32> = Vec::new();
        let mut blanks = 0;
        for row in &board.map {
            assert_eq!(row.len(), 3);
            for cell in row {
                match cell {
                    Some(v) => tiles.push(*v),
                    None => blanks += 1,
                }
            }
        }
        assert_eq!(blanks, 1);
        assert_eq!(board.map[2][2], None);
        tiles.sort();
        assert_eq!(tiles, vec![1, 2, 3, 4, 5, 6, 7, 8]);
    }
}

#[test]
fn new_board_has_an_even_inversion_count() {
    for _ in 0..500 {
        let board = GameMap::new();
        let mut tiles: Vec<i32> = Vec::new();
        for row in &board.map {
            for cell in row {
                if let Some(v) = cell {
                    tiles.push(*v);
                }
            }
        }
        assert_eq!(tiles.len(), 8);
        assert_eq!(reverse_number(&tiles) % 2, 0);
    }
}

#[test]
fn from_tiles_lays_out_row_by_row() {
    let board = GameMap::from_tiles(&vec![3, 1, 2, 8, 7, 6, 5, 4]);
    assert_eq!(
        board.map,
        vec![
            vec![Some(3), Some(1), Some(2)],
            vec![Some(8), Some(7), Some(6)],
            vec![Some(5), Some(4), None],
        ]
    );
    assert!(GameMap::from_tiles(&vec![1, 2, 3, 4, 5, 6, 7, 8]).is_completed());
}

#[test]
fn adjacent_is_distance_one() {
    assert!(adjacent((0, 0), (0, 1)));
    assert!(adjacent((0, 1), (0, 0)));
    assert!(adjacent((1, 2), (2, 2)));
    assert!(adjacent((2, 2), (1, 2)));
    assert!(!adjacent((1, 1), (1, 1)));
    assert!(!adjacent((0, 0), (1, 1)));
    assert!(!adjacent((0, 0), (0, 2)));
    assert!(!adjacent((0, 0), (2, 0)));
    assert!(adjacent((2, 2), (2, 3)));
    assert!(!adjacent((0, 0), (usize::MAX, usize::MAX)));
}

#[test]
fn swap_pos_exchanges_two_cells() {
    let mut board = solved();
    board.swap_pos((0, 0), (2, 2));
    assert_eq!(
        board.map,
        vec![
            vec![None, Some(2), Some(3)],
            vec![Some(4), Some(5), Some(6)],
            vec![Some(7), Some(8), Some(1)],
        ]
    );
    board.swap_pos((0, 1), (1, 1));
    assert_eq!(board.map[0][1], Some(5));
    assert_eq!(board.map[1][1], Some(2));
    board.swap_pos((1, 2), (1, 2));
    assert_eq!(board.map[1][2], Some(6));
}

#[test]
fn valid_action_needs_a_blank_and_a_neighbour() {
    let board = solved();
    assert!(board.is_valid_action((2, 2), (2, 1)));
    assert!(board.is_valid_action((2, 1), (2, 2)));
    assert!(board.is_valid_action((1, 2), (2, 2)));
    assert!(!board.is_valid_action((2, 2), (1, 1)));
    assert!(!board.is_valid_action((2, 2), (0, 2)));
    assert!(!board.is_valid_action((2, 2), (2, 0)));
}

#[test]
fn valid_action_rejects_the_same_cell() {
    let board = solved();
    for i in 0..3 {
        for j in 0..3 {
            assert!(!board.is_valid_action((i, j), (i, j)));
        }
    }
}

#[test]
fn valid_action_rejects_two_tiles() {
    let board = solved();
    assert!(!board.is_valid_action((0, 0), (0, 1)));
    assert!(!board.is_valid_action((0, 0), (1, 0)));
    assert!(!board.is_valid_action((1, 1), (2, 1)));
    assert!(!board.is_valid_action((1, 2), (1, 1)));
}

#[test]
fn valid_action_agrees_with_its_rule_on_every_pair() {
    let board = blank_in_the_middle();
    for a in 0..9usize {
        for b in 0..9usize {
            let p = (a / 3, a % 3);
            let q = (b / 3, b % 3);
            let one_blank = board.map[p.0][p.1].is_none() || board.map[q.0][q.1].is_none();
            let distance = p.0.abs_diff(q.0) + p.1.abs_diff(q.1);
            assert_eq!(board.is_valid_action(p, q), p != q && one_blank && distance == 1);
        }
    }
}

#[test]
fn valid_selection_is_the_blank_or_next_to_it() {
    let board = solved();
    assert!(board.is_valid_selection((2, 2)));
    assert!(board.is_valid_selection((1, 2)));
    assert!(board.is_valid_selection((2, 1)));
    assert!(!board.is_valid_selection((1, 1)));
    assert!(!board.is_valid_selection((0, 0)));
    assert!(!board.is_valid_selection((0, 2)));

    let board = blank_in_the_middle();
    assert!(board.is_valid_selection((1, 1)));
    assert!(board.is_valid_selection((0, 1)));
    assert!(board.is_valid_selection((1, 0)));
    assert!(board.is_valid_selection((1, 2)));
    assert!(board.is_valid_selection((2, 1)));
    assert!(!board.is_valid_selection((0, 0)));
    assert!(!board.is_valid_selection((2, 2)));
}

#[test]
fn valid_selection_without_a_blank_takes_the_first_cell() {
    let board = GameMap {
        map: vec![
            vec![Some(1), Some(2), Some(3)],
            vec![Some(4), Some(5), Some(6)],
            vec![Some(7), Some(8), Some(9)],
        ],
    };
    assert!(board.is_valid_selection((0, 0)));
    assert!(board.is_valid_selection((0, 1)));
    assert!(!board.is_valid_selection((1, 1)));
}

#[test]
fn valid_selection_with_two_blanks_takes_the_last() {
    let board = GameMap {
        map: vec![
            vec![None, Some(2), Some(3)],
            vec![Some(4), Some(5), None],
            vec![Some(7), Some(8), Some(1)],
        ],
    };
    assert!(board.is_valid_selection((1, 2)));
    assert!(board.is_valid_selection((2, 2)));
    assert!(!board.is_valid_selection((0, 0)));
    assert!(!board.is_valid_selection((0, 1)));
}

#[test]
fn only_the_goal_is_completed() {
    assert!(solved().is_completed());
    assert!(!blank_in_the_middle().is_completed());

    let mut board = solved();
    board.swap_pos((2, 2), (2, 1));
    assert!(!board.is_completed());
    board.swap_pos((2, 1), (2, 2));
    assert!(board.is_completed());

    let mut board = solved();
    board.swap_pos((0, 0), (0, 1));
    assert!(!board.is_completed());

    let mut board = solved();
    board.map[2][2] = Some(9);
    assert!(!board.is_completed());
}
