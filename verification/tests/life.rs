use cellular::frame::{Frame, Square};

#[derive(Debug, Clone, Copy, PartialEq, Eq)]
enum GOLState {
    Alive,
    Dead,
}

impl Default for GOLState {
    fn default() -> GOLState {
        GOLState::Dead
    }
}

fn life(square: Square<GOLState>) -> GOLState {
    let alive = square
        .within_ortholinear(1)
        .iter()
        .filter(|state| **state == GOLState::Alive)
        .count();
    match (*square.get(0, 0), alive) {
        (GOLState::Alive, 2) | (GOLState::Alive, 3) => GOLState::Alive,
        (GOLState::Dead, 3) => GOLState::Alive,
        _ => GOLState::Dead,
    }
}

#[test]
fn game_of_life() {
    let alive = GOLState::Alive;

    // Create a board that should transform as shown:
    // DAD    DDD    DAD
    // DAD -> AAA -> DAD
    // DAD    DDD    DAD
    // the board is padded so that the wrap at the edges does not disturb the
    // pattern
    let mut frame1 = Frame::<GOLState>::new(4, 4);
    frame1.set(1, 0, alive);
    frame1.set(1, 1, alive);
    frame1.set(1, 2, alive);

    let frame2 = frame1.next_frame(life);
    let frame3 = frame2.next_frame(life);

    let mut expected = Frame::<GOLState>::new(4, 4);
    expected.set(0, 1, alive);
    expected.set(1, 1, alive);
    expected.set(2, 1, alive);

    assert_eq!(frame2, expected);
    assert_eq!(frame3, frame1);
}

#[test]
fn lonely_cell_dies() {
    let mut frame = Frame::<GOLState>::new(5, 5);
    frame.set(2, 2, GOLState::Alive);
    assert_eq!(frame.next_frame(life), Frame::<GOLState>::new(5, 5));
}
