use kavn::states::{Direction, Event, State};

fn feed(mut s: State, bits: &[bool]) -> State {
    for &b in bits {
        s = s.next(Event::Signal(b));
    }
    s
}

#[test]
fn invert_swaps_opposites() {
    assert_eq!(Direction::Up.invert(), Direction::Down);
    assert_eq!(Direction::Down.invert(), Direction::Up);
    assert_eq!(Direction::Left.invert(), Direction::Right);
    assert_eq!(Direction::Right.invert(), Direction::Left);
}

#[test]
fn default_state_is_unexcitable() {
    assert_eq!(State::default(), State::Unexcitable);
}

#[test]
fn unexcitable_signal_gives_sensitive_one() {
    assert_eq!(
        State::Unexcitable.next(Event::Signal(true)),
        State::Sensitive { value: 1 }
    );
}

#[test]
fn sensitive_shifts_and_ors_bit() {
    assert_eq!(
        State::Sensitive { value: 0b11 }.next(Event::Signal(false)),
        State::Sensitive { value: 0b110 }
    );
    assert_eq!(
        State::Sensitive { value: 0b11 }.next(Event::Signal(true)),
        State::Sensitive { value: 0b111 }
    );
    // the top bit is shifted out of the 8-bit accumulator
    assert_eq!(
        State::Sensitive { value: 0b1000_0001 }.next(Event::Signal(false)),
        State::Sensitive { value: 0b0000_0010 }
    );
}

#[test]
fn all_nine_patterns_settle() {
    let table = [
        (0b0001_0000u8, State::NormalTransmitting { dir: Direction::Right, signal: false }),
        (0b0001_0001, State::NormalTransmitting { dir: Direction::Up, signal: false }),
        (0b0000_1001, State::NormalTransmitting { dir: Direction::Left, signal: false }),
        (0b0000_1010, State::NormalTransmitting { dir: Direction::Down, signal: false }),
        (0b0000_1011, State::SpecialTransmitting { dir: Direction::Right, signal: false }),
        (0b0000_1100, State::SpecialTransmitting { dir: Direction::Up, signal: false }),
        (0b0000_1101, State::SpecialTransmitting { dir: Direction::Left, signal: false }),
        (0b0000_1110, State::SpecialTransmitting { dir: Direction::Down, signal: false }),
        (0b0000_1111, State::Confluence { new: false, old: false }),
    ];
    for (pattern, expected) in table {
        let before = State::Sensitive { value: pattern >> 1 };
        assert_eq!(before.next(Event::Signal(pattern & 1 == 1)), expected);
    }
}

#[test]
fn feeding_bits_reaches_confluence() {
    // 1 -> 0b11 -> 0b111 -> 0b1111
    assert_eq!(
        feed(State::Sensitive { value: 1 }, &[true, true, true]),
        State::Confluence { new: false, old: false }
    );
}

#[test]
fn feeding_eight_bits_from_zero() {
    // 0 0 0 1 0 0 0 0: the accumulator first matches a pattern at 0b1_0000
    let bits = [false, false, false, true, false, false, false, false];
    assert_eq!(
        feed(State::Sensitive { value: 0 }, &bits),
        State::NormalTransmitting { dir: Direction::Right, signal: false }
    );
}

#[test]
fn feeding_bits_reaches_special_down() {
    // 1 -> 0b11 -> 0b111 -> 0b1110
    assert_eq!(
        feed(State::Sensitive { value: 1 }, &[true, true, false]),
        State::SpecialTransmitting { dir: Direction::Down, signal: false }
    );
}

#[test]
fn transmitting_keeps_direction() {
    let s = State::NormalTransmitting { dir: Direction::Left, signal: false };
    assert_eq!(
        s.next(Event::Signal(true)),
        State::NormalTransmitting { dir: Direction::Left, signal: true }
    );
    let s = State::SpecialTransmitting { dir: Direction::Up, signal: true };
    assert_eq!(
        s.next(Event::Signal(false)),
        State::SpecialTransmitting { dir: Direction::Up, signal: false }
    );
}

#[test]
fn confluence_shifts_and_resets() {
    let c = State::Confluence { new: true, old: false };
    assert_eq!(c.next(Event::Signal(false)), State::Confluence { new: false, old: true });
    assert_eq!(c.next(Event::NotOut), State::Confluence { new: false, old: false });
}

#[test]
fn break_destroys() {
    let states = [
        State::NormalTransmitting { dir: Direction::Up, signal: true },
        State::SpecialTransmitting { dir: Direction::Up, signal: true },
        State::Confluence { new: true, old: true },
    ];
    for s in states {
        assert_eq!(s.next(Event::Break), State::Unexcitable);
    }
}

const U: State = State::Unexcitable;

#[test]
fn unexcitable_events() {
    let down = State::NormalTransmitting { dir: Direction::Down, signal: true };
    assert_eq!(U.get_event([&down, &U, &U, &U]), Some(Event::Signal(true)));
    assert_eq!(U.get_event([&U, &U, &U, &U]), None);
    // pointing away from the cell
    let up = State::NormalTransmitting { dir: Direction::Up, signal: true };
    assert_eq!(U.get_event([&up, &U, &U, &U]), None);
    // no signal
    let quiet = State::SpecialTransmitting { dir: Direction::Down, signal: false };
    assert_eq!(U.get_event([&quiet, &U, &U, &U]), None);
    // special from the left, pointing right
    let special = State::SpecialTransmitting { dir: Direction::Right, signal: true };
    assert_eq!(U.get_event([&U, &special, &U, &U]), Some(Event::Signal(true)));
}

#[test]
fn sensitive_always_gets_an_event() {
    let s = State::Sensitive { value: 1 };
    assert_eq!(s.get_event([&U, &U, &U, &U]), Some(Event::Signal(false)));
    let left = State::NormalTransmitting { dir: Direction::Left, signal: true };
    assert_eq!(s.get_event([&U, &U, &U, &left]), Some(Event::Signal(true)));
}

#[test]
fn transmitting_collision_breaks() {
    let n = State::NormalTransmitting { dir: Direction::Right, signal: true };
    let special = State::SpecialTransmitting { dir: Direction::Left, signal: true };
    assert_eq!(n.get_event([&U, &U, &U, &special]), Some(Event::Break));
    let normal = State::NormalTransmitting { dir: Direction::Right, signal: true };
    let s = State::SpecialTransmitting { dir: Direction::Right, signal: false };
    assert_eq!(s.get_event([&U, &normal, &U, &U]), Some(Event::Break));
}

#[test]
fn transmitting_fed_by_same_kind() {
    let n = State::NormalTransmitting { dir: Direction::Right, signal: false };
    let from_left = State::NormalTransmitting { dir: Direction::Right, signal: true };
    assert_eq!(n.get_event([&U, &from_left, &U, &U]), Some(Event::Signal(true)));
    // a signal pointing straight back against the cell's own direction is ignored
    let against = State::NormalTransmitting { dir: Direction::Left, signal: true };
    assert_eq!(n.get_event([&U, &U, &U, &against]), Some(Event::Signal(false)));
    // a special cell is fed by a special signal
    let s = State::SpecialTransmitting { dir: Direction::Down, signal: false };
    let special_above = State::SpecialTransmitting { dir: Direction::Down, signal: true };
    assert_eq!(s.get_event([&special_above, &U, &U, &U]), Some(Event::Signal(true)));
}

#[test]
fn transmitting_fed_by_confluence() {
    let n = State::NormalTransmitting { dir: Direction::Right, signal: false };
    let c = State::Confluence { new: false, old: true };
    // confluence on the input side
    assert_eq!(n.get_event([&U, &c, &U, &U]), Some(Event::Signal(true)));
    // confluence on the output side
    assert_eq!(n.get_event([&U, &U, &U, &c]), Some(Event::Signal(false)));
    let idle = State::Confluence { new: true, old: false };
    assert_eq!(n.get_event([&U, &idle, &U, &U]), Some(Event::Signal(false)));
}

#[test]
fn confluence_events() {
    let c = State::Confluence { new: false, old: false };
    assert_eq!(c.get_event([&U, &U, &U, &U]), Some(Event::NotOut));
    let low = State::NormalTransmitting { dir: Direction::Down, signal: false };
    assert_eq!(c.get_event([&low, &U, &U, &U]), Some(Event::Signal(false)));
    let high = State::NormalTransmitting { dir: Direction::Up, signal: true };
    assert_eq!(c.get_event([&U, &U, &high, &low]), Some(Event::Signal(true)));
    let special = State::SpecialTransmitting { dir: Direction::Left, signal: true };
    assert_eq!(c.get_event([&U, &U, &high, &special]), Some(Event::Break));
    // a transmitter pointing away does not address the confluence
    let away = State::NormalTransmitting { dir: Direction::Up, signal: true };
    assert_eq!(c.get_event([&away, &U, &U, &U]), Some(Event::NotOut));
}
