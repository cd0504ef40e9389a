use pushbox::{Click, GameMap, GameModel, SlideModel};

fn solved() -> GameMap {
    GameMap {
        map: vec![
            vec![Some(1), Some(2), Some(3)],
            vec![Some(4), Some(5), Some(6)],
            vec![Some(7), Some(8), None],
        ],
    }
}

#[test]
fn new_game_has_nothing_picked() {
    let game = GameModel::new();
    assert_eq!(game.select_1, None);
    assert_eq!(game.gamemap.map[2][2], None);
}

#[test]
fn click_picks_the_blank_or_its_neighbour() {
    let mut game = GameModel { gamemap: solved(), select_1: None };
    assert_eq!(game.click((2, 1)), Click::Selected((2, 1)));
    assert_eq!(game.select_1, Some((2, 1)));
    assert_eq!(game.gamemap.map, solved().map);

    let mut game = GameModel { gamemap: solved(), select_1: None };
    assert_eq!(game.click((2, 2)), Click::Selected((2, 2)));
    assert_eq!(game.select_1, Some((2, 2)));
}

#[test]
fn click_far_from_the_blank_is_ignored() {
    let mut game = GameModel { gamemap: solved(), select_1: None };
    assert_eq!(game.click((0, 0)), Click::Ignored);
    assert_eq!(game.select_1, None);
    assert_eq!(game.click((1, 1)), Click::Ignored);
    assert_eq!(game.select_1, None);
    assert_eq!(game.gamemap.map, solved().map);
}

#[test]
fn select_then_deselect_changes_nothing() {
    let mut game = GameModel { gamemap: solved(), select_1: None };
    assert_eq!(game.click((1, 2)), Click::Selected((1, 2)));
    assert_eq!(game.click((1, 2)), Click::Deselected((1, 2)));
    assert_eq!(game.select_1, None);
    assert_eq!(game.gamemap.map, solved().map);
}

#[test]
fn second_click_swaps_with_the_blank() {
    let mut game = GameModel { gamemap: solved(), select_1: None };
    assert_eq!(game.click((2, 1)), Click::Selected((2, 1)));
    assert_eq!(game.click((2, 2)), Click::Swapped((2, 1), (2, 2)));
    assert_eq!(game.select_1, None);
    assert_eq!(game.gamemap.map[2], vec![Some(7), None, Some(8)]);
    assert!(!game.gamemap.is_completed());

    assert_eq!(game.click((2, 1)), Click::Selected((2, 1)));
    assert_eq!(game.click((2, 2)), Click::Swapped((2, 1), (2, 2)));
    assert!(game.gamemap.is_completed());
}

#[test]
fn second_click_on_another_tile_keeps_the_pick() {
    let mut game = GameModel { gamemap: solved(), select_1: None };
    assert_eq!(game.click((2, 1)), Click::Selected((2, 1)));
    assert_eq!(game.click((1, 1)), Click::Ignored);
    assert_eq!(game.select_1, Some((2, 1)));
    assert_eq!(game.click((0, 0)), Click::Ignored);
    assert_eq!(game.select_1, Some((2, 1)));
    assert_eq!(game.gamemap.map, solved().map);
}

#[test]
fn new_slide_game_has_its_blank_last() {
    let game = SlideModel::new();
    assert_eq!(game.empty_pos, (2, 2));
    assert_eq!(game.gamemap.map[2][2], None);
}

#[test]
fn slide_action_is_valid_one_step_from_the_blank() {
    let game = SlideModel { gamemap: solved(), empty_pos: (2, 2) };
    for i in 0..3usize {
        for j in 0..3usize {
            let distance = i.abs_diff(2) + j.abs_diff(2);
            assert_eq!(game.is_valid_action((i, j)), distance == 1);
        }
    }
    assert!(!game.is_valid_action((2, 2)));
}

#[test]
fn slide_moves_the_tile_into_the_blank() {
    let mut game = SlideModel { gamemap: solved(), empty_pos: (2, 2) };
    assert_eq!(game.slide((1, 2)), Some(6));
    assert_eq!(game.empty_pos, (1, 2));
    assert_eq!(game.gamemap.map[2][2], Some(6));
    assert_eq!(game.gamemap.map[1][2], None);
    assert!(!game.gamemap.is_completed());

    assert_eq!(game.slide((2, 2)), Some(6));
    assert_eq!(game.empty_pos, (2, 2));
    assert!(game.gamemap.is_completed());
}

#[test]
fn slide_elsewhere_changes_nothing() {
    let mut game = SlideModel { gamemap: solved(), empty_pos: (2, 2) };
    assert_eq!(game.slide((0, 0)), None);
    assert_eq!(game.slide((1, 1)), None);
    assert_eq!(game.slide((2, 2)), None);
    assert_eq!(game.empty_pos, (2, 2));
    assert_eq!(game.gamemap.map, solved().map);
}
