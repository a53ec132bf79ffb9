use reversi::position::Position;
use reversi::stage::ErrorKind;
use reversi::stage::Stage;

#[test]
fn initialized_stage() {
    let stage = Stage::new();
    assert_eq!(
        stage.raw_array,
        [
            [0, 0, 0, 0, 0, 0, 0, 0],
            [0, 0, 0, 0, 0, 0, 0, 0],
            [0, 0, 0, 0, 0, 0, 0, 0],
            [0, 0, 0, -1, 1, 0, 0, 0],
            [0, 0, 0, 1, -1, 0, 0, 0],
            [0, 0, 0, 0, 0, 0, 0, 0],
            [0, 0, 0, 0, 0, 0, 0, 0],
            [0, 0, 0, 0, 0, 0, 0, 0],
        ]
    );
}

#[test]
fn new_stage_starts_with_player_one() {
    let stage = Stage::new();
    assert_eq!(stage.turn, 1);
}

#[test]
fn first_turn() {
    let mut stage = Stage::new();
    assert_eq!(stage.put_disc(&Position { x: 4, y: 5 }), Ok(()));
    assert_eq!(
        stage.raw_array,
        [
            [0, 0, 0, 0, 0, 0, 0, 0],
            [0, 0, 0, 0, 0, 0, 0, 0],
            [0, 0, 0, 0, 0, 0, 0, 0],
            [0, 0, 0, -1, 1, 0, 0, 0],
            [0, 0, 0, 1, 1, 1, 0, 0],
            [0, 0, 0, 0, 0, 0, 0, 0],
            [0, 0, 0, 0, 0, 0, 0, 0],
            [0, 0, 0, 0, 0, 0, 0, 0],
        ]
    );
}

#[test]
fn first_turn_flips_turn_marker() {
    let mut stage = Stage::new();
    assert_eq!(stage.put_disc(&Position { x: 4, y: 5 }), Ok(()));
    assert_eq!(stage.turn, -1);
}

#[test]
fn second_turn() {
    let mut stage = Stage::new();
    assert_eq!(stage.put_disc(&Position { x: 4, y: 5 }), Ok(()));
    assert_eq!(stage.put_disc(&Position { x: 5, y: 5 }), Ok(()));
    assert_eq!(
        stage.raw_array,
        [
            [0, 0, 0, 0, 0, 0, 0, 0],
            [0, 0, 0, 0, 0, 0, 0, 0],
            [0, 0, 0, 0, 0, 0, 0, 0],
            [0, 0, 0, -1, 1, 0, 0, 0],
            [0, 0, 0, 1, -1, 1, 0, 0],
            [0, 0, 0, 0, 0, -1, 0, 0],
            [0, 0, 0, 0, 0, 0, 0, 0],
            [0, 0, 0, 0, 0, 0, 0, 0],
        ]
    );
}

#[test]
fn pass_detection() {
    let turn = 1;
    let stage = Stage::new_with_array(
        [
            [0, 0, 0, 0, 0, 0, 0, 0],
            [0, 0, 0, 0, 0, 0, 0, 0],
            [0, 0, 0, 0, 0, 0, 0, 0],
            [0, 0, 0, 1, 1, 0, 0, 0],
            [0, 0, 0, 1, -1, 1, 0, 0],
            [0, 0, 0, 0, 1, 1, 0, 0],
            [0, 0, 0, 0, 0, 0, 0, 0],
            [0, 0, 0, 0, 0, 0, 0, 0],
        ],
        turn,
    );
    assert!(stage.is_pass());
}

#[test]
fn occupied_cell_is_rejected_without_mutation() {
    let mut stage = Stage::new();
    let before = stage.clone();
    assert_eq!(
        stage.put_disc(&Position { x: 3, y: 3 }),
        Err(ErrorKind::CellOccupied)
    );
    assert_eq!(
        stage.put_disc(&Position { x: 4, y: 4 }),
        Err(ErrorKind::CellOccupied)
    );
    assert_eq!(stage.raw_array, before.raw_array);
    assert_eq!(stage.turn, before.turn);
}

#[test]
fn captureless_cell_is_rejected_without_mutation() {
    let mut stage = Stage::new();
    let before = stage.clone();
    // (0, 0) is empty and far from every disc: no direction captures.
    assert_eq!(
        stage.put_disc(&Position { x: 0, y: 0 }),
        Err(ErrorKind::NoCaptures)
    );
    // From (2, 2) the diagonal run of opponent discs ends in an empty
    // cell, never in an anchor, so it captures nothing either.
    assert_eq!(
        stage.put_disc(&Position { x: 2, y: 2 }),
        Err(ErrorKind::NoCaptures)
    );
    assert_eq!(stage.raw_array, before.raw_array);
    assert_eq!(stage.turn, before.turn);
}

#[test]
fn probe_never_mutates() {
    let stage = Stage::new();
    let before = stage.clone();
    assert!(stage.can_put_disc(&Position { x: 4, y: 5 }));
    assert!(stage.can_put_disc(&Position { x: 4, y: 5 }));
    assert!(!stage.can_put_disc(&Position { x: 0, y: 0 }));
    assert!(!stage.can_put_disc(&Position { x: 0, y: 0 }));
    assert!(stage.can_put_disc(&Position { x: 4, y: 5 }));
    assert_eq!(stage.raw_array, before.raw_array);
    assert_eq!(stage.turn, before.turn);
}

#[test]
fn pass_is_false_with_one_legal_cell_scanned_first() {
    let stage = Stage::new_with_array(
        [
            [0, -1, 1, 0, 0, 0, 0, 0],
            [0, 0, 0, 0, 0, 0, 0, 0],
            [0, 0, 0, 0, 0, 0, 0, 0],
            [0, 0, 0, 0, 0, 0, 0, 0],
            [0, 0, 0, 0, 0, 0, 0, 0],
            [0, 0, 0, 0, 0, 0, 0, 0],
            [0, 0, 0, 0, 0, 0, 0, 0],
            [0, 0, 0, 0, 0, 0, 0, 0],
        ],
        1,
    );
    assert!(stage.can_put_disc(&Position { x: 0, y: 0 }));
    assert!(!stage.is_pass());
}

#[test]
fn pass_is_false_with_one_legal_cell_scanned_last() {
    let stage = Stage::new_with_array(
        [
            [0, 0, 0, 0, 0, 0, 0, 0],
            [0, 0, 0, 0, 0, 0, 0, 0],
            [0, 0, 0, 0, 0, 0, 0, 0],
            [0, 0, 0, 0, 0, 0, 0, 0],
            [0, 0, 0, 0, 0, 0, 0, 0],
            [0, 0, 0, 0, 0, 0, 0, 0],
            [0, 0, 0, 0, 0, 0, 0, 0],
            [0, 0, 0, 0, 0, 1, -1, 0],
        ],
        1,
    );
    assert!(stage.can_put_disc(&Position { x: 7, y: 7 }));
    assert!(!stage.is_pass());
}

#[test]
fn multi_disc_run_is_flipped_whole() {
    let mut stage = Stage::new_with_array(
        [
            [0, 0, 0, 0, 0, 0, 0, 0],
            [0, 0, 0, 0, 0, 0, 0, 0],
            [0, 0, 0, 0, 0, 0, 0, 0],
            [0, 0, 0, 0, 0, 0, 0, 0],
            [0, -1, -1, -1, 1, 0, 0, 0],
            [0, 0, 0, 0, 0, 0, 0, 0],
            [0, 0, 0, 0, 0, 0, 0, 0],
            [0, 0, 0, 0, 0, 0, 0, 0],
        ],
        1,
    );
    assert_eq!(stage.put_disc(&Position { x: 4, y: 0 }), Ok(()));
    assert_eq!(
        stage.raw_array,
        [
            [0, 0, 0, 0, 0, 0, 0, 0],
            [0, 0, 0, 0, 0, 0, 0, 0],
            [0, 0, 0, 0, 0, 0, 0, 0],
            [0, 0, 0, 0, 0, 0, 0, 0],
            [1, 1, 1, 1, 1, 0, 0, 0],
            [0, 0, 0, 0, 0, 0, 0, 0],
            [0, 0, 0, 0, 0, 0, 0, 0],
            [0, 0, 0, 0, 0, 0, 0, 0],
        ]
    );
    assert_eq!(stage.turn, -1);
}

#[test]
fn run_broken_by_empty_cell_flips_nothing() {
    let mut stage = Stage::new_with_array(
        [
            [0, 0, 0, 0, 0, 0, 0, 0],
            [0, 0, 0, 0, 0, 0, 0, 0],
            [0, 0, 0, 0, 0, 0, 0, 0],
            [0, 0, 0, 0, 0, 0, 0, 0],
            [0, 1, 0, -1, -1, 0, 0, 0],
            [0, 0, 0, 0, 0, 0, 0, 0],
            [0, 0, 0, 0, 0, 0, 0, 0],
            [0, 0, 0, 0, 0, 0, 0, 0],
        ],
        1,
    );
    let before = stage.clone();
    // The run left of (4, 5) is broken by the empty cell (4, 2) before the
    // anchor at (4, 1): nothing may be flipped, so the placement fails.
    assert_eq!(
        stage.put_disc(&Position { x: 4, y: 5 }),
        Err(ErrorKind::NoCaptures)
    );
    assert_eq!(stage.raw_array, before.raw_array);
    assert_eq!(stage.turn, before.turn);
}
