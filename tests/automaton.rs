use kavn::cellular_automaton::CellularAutomation;
use kavn::kavn_core::KAVN;
use kavn::states::{Direction, State};

fn dims(ca: &CellularAutomation) -> (usize, usize) {
    (ca.field.len(), ca.field[0].len())
}

fn same(a: &CellularAutomation, b: &CellularAutomation) -> bool {
    a.field == b.field && a.tact == b.tact && a.center == b.center
}

/// A loop of normal transmitting cells that carries one true signal around.
fn ring(ca: &mut CellularAutomation) {
    let right = |signal| State::NormalTransmitting { dir: Direction::Right, signal };
    let down = State::NormalTransmitting { dir: Direction::Down, signal: false };
    let left = State::NormalTransmitting { dir: Direction::Left, signal: false };
    let up = State::NormalTransmitting { dir: Direction::Up, signal: false };
    ca.set_cell((0, 0), right(true));
    ca.set_cell((1, 0), right(false));
    ca.set_cell((2, 0), down);
    ca.set_cell((2, 1), down);
    ca.set_cell((2, 2), left);
    ca.set_cell((1, 2), left);
    ca.set_cell((0, 2), up);
    ca.set_cell((0, 1), up);
    // a tail that excites fresh cells below the loop
    ca.set_cell((1, 1), State::Confluence { new: false, old: false });
}

#[test]
fn new_is_three_by_three() {
    let ca = CellularAutomation::new();
    assert_eq!(ca.tact, 0);
    assert_eq!(ca.center, (1, 1));
    assert_eq!(dims(&ca), (3, 3));
    for y in -1..=1 {
        for x in -1..=1 {
            assert_eq!(*ca.get_cell((x, y)), State::Unexcitable);
        }
    }
}

#[test]
fn set_cell_grows_two_cells_around() {
    let mut ca = CellularAutomation::new();
    ca.set_cell((0, 0), State::Sensitive { value: 3 });
    assert_eq!(dims(&ca), (5, 5));
    assert_eq!(ca.center, (2, 2));
    assert_eq!(*ca.get_cell((0, 0)), State::Sensitive { value: 3 });
    assert_eq!(*ca.get_cell((-2, -2)), State::Unexcitable);
    assert_eq!(*ca.get_cell((2, 2)), State::Unexcitable);
}

#[test]
fn set_cell_far_away_keeps_old_cells() {
    let mut ca = CellularAutomation::new();
    ca.set_cell((0, 0), State::Sensitive { value: 3 });
    ca.set_cell((-5, 7), State::Confluence { new: true, old: false });
    assert_eq!(ca.center, (7, 2));
    assert_eq!(dims(&ca), (12, 10));
    assert_eq!(*ca.get_cell((0, 0)), State::Sensitive { value: 3 });
    assert_eq!(*ca.get_cell((-5, 7)), State::Confluence { new: true, old: false });
    for row in &ca.field {
        assert_eq!(row.len(), 10);
    }
}

#[test]
fn writing_twice_keeps_geometry() {
    let mut ca = CellularAutomation::new();
    let v = State::NormalTransmitting { dir: Direction::Up, signal: true };
    ca.set_cell((4, -3), v);
    let once = ca.clone();
    ca.set_cell((4, -3), v);
    assert_eq!(dims(&ca), dims(&once));
    assert_eq!(ca.center, once.center);
    assert!(same(&ca, &once));
}

#[test]
fn tact_counts_even_without_change() {
    let mut ca = CellularAutomation::new();
    ca.tact();
    ca.tact();
    assert_eq!(ca.tact, 2);
    assert_eq!(dims(&ca), (3, 3));
}

#[test]
fn unexcitable_below_signal_becomes_sensitive() {
    let mut ca = CellularAutomation::new();
    ca.set_cell((0, -1), State::NormalTransmitting { dir: Direction::Down, signal: true });
    ca.tact();
    assert_eq!(*ca.get_cell((0, 0)), State::Sensitive { value: 1 });
    // neighbours that no signal points at stay unexcitable
    assert_eq!(*ca.get_cell((1, 0)), State::Unexcitable);
    assert_eq!(*ca.get_cell((0, -2)), State::Unexcitable);
    // the transmitter itself had no input, so its signal drops
    assert_eq!(
        *ca.get_cell((0, -1)),
        State::NormalTransmitting { dir: Direction::Down, signal: false }
    );
}

#[test]
fn lone_unexcitable_stays() {
    let mut ca = CellularAutomation::new();
    ca.set_cell((0, 0), State::Unexcitable);
    ca.tact();
    assert_eq!(*ca.get_cell((0, 0)), State::Unexcitable);
}

#[test]
fn written_sensitive_cell_grows_the_grid() {
    let mut ca = CellularAutomation::new();
    ca.set_cell((0, -1), State::NormalTransmitting { dir: Direction::Down, signal: true });
    // the grid reaches two rows below (0, -1), so (0, 0) is next to the
    // border row and writing it adds one row below
    assert_eq!(dims(&ca), (5, 5));
    ca.tact();
    assert_eq!(dims(&ca), (6, 5));
    assert_eq!(ca.center, (2, 3));
    ca.set_cell((0, 1), State::NormalTransmitting { dir: Direction::Down, signal: true });
    let (rows, _) = dims(&ca);
    ca.tact();
    // (0, 2) becomes sensitive next to the border row and the grid grows by one row.
    assert_eq!(*ca.get_cell((0, 2)), State::Sensitive { value: 1 });
    assert_eq!(dims(&ca).0, rows + 1);
}

#[test]
fn sensitive_without_input_settles_right() {
    let mut ca = CellularAutomation::new();
    ca.set_cell((0, 0), State::Sensitive { value: 1 });
    for _ in 0..4 {
        ca.tact();
    }
    // 1 -> 0b10 -> 0b100 -> 0b1000 -> 0b1_0000
    assert_eq!(
        *ca.get_cell((0, 0)),
        State::NormalTransmitting { dir: Direction::Right, signal: false }
    );
}

#[test]
fn collision_destroys_both() {
    let mut ca = CellularAutomation::new();
    ca.set_cell((0, 0), State::NormalTransmitting { dir: Direction::Right, signal: true });
    ca.set_cell((1, 0), State::SpecialTransmitting { dir: Direction::Left, signal: true });
    ca.tact();
    assert_eq!(*ca.get_cell((0, 0)), State::Unexcitable);
    assert_eq!(*ca.get_cell((1, 0)), State::Unexcitable);
}

#[test]
fn special_hit_by_normal_is_destroyed() {
    let mut ca = CellularAutomation::new();
    ca.set_cell((0, 0), State::SpecialTransmitting { dir: Direction::Up, signal: false });
    ca.set_cell((0, 1), State::NormalTransmitting { dir: Direction::Up, signal: true });
    ca.tact();
    assert_eq!(*ca.get_cell((0, 0)), State::Unexcitable);
}

#[test]
fn signal_moves_along_a_line() {
    let mut ca = CellularAutomation::new();
    let r = |signal| State::NormalTransmitting { dir: Direction::Right, signal };
    ca.set_cell((0, 0), r(true));
    ca.set_cell((1, 0), r(false));
    ca.set_cell((2, 0), r(false));
    ca.tact();
    assert_eq!(*ca.get_cell((0, 0)), r(false));
    assert_eq!(*ca.get_cell((1, 0)), r(true));
    assert_eq!(*ca.get_cell((2, 0)), r(false));
    ca.tact();
    assert_eq!(*ca.get_cell((1, 0)), r(false));
    assert_eq!(*ca.get_cell((2, 0)), r(true));
    // the cell after the line is excited
    ca.tact();
    assert_eq!(*ca.get_cell((3, 0)), State::Sensitive { value: 1 });
}

#[test]
fn confluence_delays_by_one_tact() {
    let mut ca = CellularAutomation::new();
    ca.set_cell((0, 0), State::NormalTransmitting { dir: Direction::Right, signal: true });
    ca.set_cell((1, 0), State::Confluence { new: false, old: false });
    ca.set_cell((2, 0), State::NormalTransmitting { dir: Direction::Right, signal: false });
    ca.tact();
    assert_eq!(*ca.get_cell((1, 0)), State::Confluence { new: true, old: false });
    ca.tact();
    assert_eq!(*ca.get_cell((1, 0)), State::Confluence { new: false, old: true });
    ca.tact();
    assert_eq!(
        *ca.get_cell((2, 0)),
        State::NormalTransmitting { dir: Direction::Right, signal: true }
    );
}

#[test]
fn tacts_are_deterministic() {
    let mut a = CellularAutomation::new();
    ring(&mut a);
    let mut b = a.clone();
    for _ in 0..60 {
        a.tact();
        b.tact();
    }
    assert!(same(&a, &b));
    assert_eq!(a.tact, 60);
}

#[test]
fn clone_is_a_deep_copy() {
    let mut a = CellularAutomation::new();
    a.set_cell((1, 0), State::Sensitive { value: 5 });
    a.set_cell((-1, 2), State::Confluence { new: true, old: true });
    let b = a.clone();
    assert!(same(&a, &b));
    a.set_cell((1, 0), State::Unexcitable);
    assert_eq!(*b.get_cell((1, 0)), State::Sensitive { value: 5 });
}

#[test]
fn history_round_trip() {
    let mut k = KAVN::new();
    ring(&mut k.field);
    let mut straight = k.field.clone();
    for _ in 0..250 {
        straight.tact();
    }
    k.to_tact(250);
    assert!(same(&k.field, &straight));
    k.to_tact(120);
    assert_eq!(k.field.tact, 120);
    k.to_tact(250);
    assert!(same(&k.field, &straight));
}

#[test]
fn going_back_matches_a_fresh_run() {
    let mut k = KAVN::new();
    ring(&mut k.field);
    let mut fresh = k.field.clone();
    for _ in 0..37 {
        fresh.tact();
    }
    k.to_tact(230);
    k.to_tact(37);
    assert!(same(&k.field, &fresh));
}

#[test]
fn next_tact_advances_by_one() {
    let mut k = KAVN::new();
    ring(&mut k.field);
    let mut plain = k.field.clone();
    plain.tact();
    k.next_tact();
    assert!(same(&k.field, &plain));
}

#[test]
fn do_tacts_moves_both_ways() {
    let mut k = KAVN::new();
    ring(&mut k.field);
    let mut fresh = k.field.clone();
    for _ in 0..7 {
        fresh.tact();
    }
    k.do_tacts(12);
    assert_eq!(k.field.tact, 12);
    k.do_tacts(-5);
    assert_eq!(k.field.tact, 7);
    assert!(same(&k.field, &fresh));
}

#[test]
fn to_the_current_tact_changes_nothing() {
    let mut k = KAVN::new();
    ring(&mut k.field);
    k.to_tact(15);
    let before = k.field.clone();
    k.to_tact(15);
    assert!(same(&k.field, &before));
}
