use kavn::cellular_automaton::CellularAutomation;
use kavn::kavn_core::KAVN;
use kavn::states::{Direction, State};

const U: State = State::Unexcitable;

#[test]
fn same_direction_comparator() {
    assert_eq!(Direction::Up.is_same_direction(&Direction::Up), Some(true));
    assert_eq!(Direction::Left.is_same_direction(&Direction::Left), Some(true));
    assert_eq!(Direction::Up.is_same_direction(&Direction::Down), Some(false));
    assert_eq!(Direction::Right.is_same_direction(&Direction::Left), Some(false));
    assert_eq!(Direction::Up.is_same_direction(&Direction::Left), None);
    assert_eq!(Direction::Down.is_same_direction(&Direction::Right), None);
}

#[test]
fn restore_accepts_exported_parts() {
    let mut ca = CellularAutomation::new();
    ca.set_cell((2, -1), State::Confluence { new: true, old: false });
    ca.tact();
    let copy = ca.clone();
    let back = CellularAutomation::restore(ca.field, ca.tact, ca.center).unwrap();
    assert_eq!(back.field, copy.field);
    assert_eq!(back.tact, 1);
    assert_eq!(back.center, copy.center);
}

#[test]
fn restore_rejects_small_grid() {
    assert!(CellularAutomation::restore(vec![vec![U; 3]; 2], 0, (1, 1)).is_none());
    assert!(CellularAutomation::restore(vec![vec![U; 2]; 3], 0, (1, 1)).is_none());
}

#[test]
fn restore_rejects_ragged_rows() {
    let field = vec![vec![U; 3], vec![U; 4], vec![U; 3]];
    assert!(CellularAutomation::restore(field, 0, (1, 1)).is_none());
}

#[test]
fn restore_rejects_cell_without_margin() {
    let mut field = vec![vec![U; 5]; 5];
    field[1][2] = State::Sensitive { value: 1 };
    assert!(CellularAutomation::restore(field.clone(), 0, (2, 2)).is_none());
    field[1][2] = U;
    field[2][2] = State::Sensitive { value: 1 };
    assert!(CellularAutomation::restore(field, 0, (2, 2)).is_some());
}

#[test]
fn restore_rejects_far_origin() {
    let field = vec![vec![U; 3]; 3];
    assert!(CellularAutomation::restore(field.clone(), 0, (1, 2_000_000_000)).is_none());
    assert!(CellularAutomation::restore(field, 0, (1, -2_000_000_000)).is_none());
}

#[test]
fn room_for_tacts() {
    let ca = CellularAutomation::new();
    assert!(ca.has_room_for(0));
    assert!(ca.has_room_for(1000));
    assert!(!ca.has_room_for(2_000_000_000));
    let mut late = CellularAutomation::new();
    late.tact = u64::MAX - 1;
    assert!(late.has_room_for(1));
    assert!(!late.has_room_for(2));
}

#[test]
fn reachability_needs_a_checkpoint() {
    let mut ca = CellularAutomation::new();
    ca.set_cell((0, 0), State::Sensitive { value: 1 });
    ca.tact = 150;
    let mut k = KAVN::with_field(ca);
    assert_eq!(k.field.tact, 150);
    assert!(!k.can_reach(149));
    assert!(k.can_reach(150));
    assert!(k.has_room_until(260));
    k.to_tact(260);
    // checkpoints were taken at 200 only
    assert!(!k.can_reach(199));
    assert!(k.can_reach(200));
    assert!(k.can_reach(259));
    k.to_tact(205);
    assert_eq!(k.field.tact, 205);
}

#[test]
fn new_history_reaches_back_to_zero() {
    let mut k = KAVN::new();
    k.field.set_cell((0, 0), State::NormalTransmitting { dir: Direction::Up, signal: true });
    k.to_tact(3);
    assert!(k.can_reach(0));
    k.to_tact(0);
    assert_eq!(k.field.tact, 0);
    assert_eq!(
        *k.field.get_cell((0, 0)),
        State::NormalTransmitting { dir: Direction::Up, signal: true }
    );
}

#[test]
fn many_writes_then_tacts_stay_in_bounds() {
    let mut ca = CellularAutomation::new();
    let states = [
        State::NormalTransmitting { dir: Direction::Up, signal: true },
        State::NormalTransmitting { dir: Direction::Left, signal: true },
        State::SpecialTransmitting { dir: Direction::Down, signal: true },
        State::SpecialTransmitting { dir: Direction::Right, signal: true },
        State::Confluence { new: true, old: true },
        State::Sensitive { value: 3 },
    ];
    let mut seed: i64 = 7;
    for i in 0..60 {
        seed = (seed * 1103515245 + 12345) % 2147483648;
        let x = seed % 23 - 11;
        let y = (seed / 23) % 19 - 9;
        ca.set_cell((x, y), states[i % states.len()]);
    }
    for _ in 0..40 {
        ca.tact();
        let width = ca.field[0].len();
        for row in &ca.field {
            assert_eq!(row.len(), width);
        }
        // the outermost two rows and columns stay unexcitable
        for (y, row) in ca.field.iter().enumerate() {
            for (x, s) in row.iter().enumerate() {
                if *s != U {
                    assert!(y >= 2 && y + 2 < ca.field.len() && x >= 2 && x + 2 < width);
                }
            }
        }
    }
    assert_eq!(ca.tact, 40);
}
