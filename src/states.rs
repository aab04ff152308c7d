use vstd::prelude::*;

verus! {

/// One of the four orthogonal directions of the grid.
#[derive(Debug, PartialEq, Eq, Structural, Clone, Copy)]
pub enum Direction {
    Up,
    Right,
    Down,
    Left,
}

impl Direction {
    /// The direction pointing the opposite way.
    pub open spec fn inverted(self) -> Direction {
        match self {
            Direction::Up => Direction::Down,
            Direction::Right => Direction::Left,
            Direction::Down => Direction::Up,
            Direction::Left => Direction::Right,
        }
    }

    /// Returns the direction pointing the opposite way.
    pub fn invert(&self) -> (r: Direction)
        ensures
            r == self.inverted(),
    {
        match self {
            Direction::Up => Direction::Down,
            Direction::Right => Direction::Left,
            Direction::Down => Direction::Up,
            Direction::Left => Direction::Right,
        }
    }
}

impl Direction {
    /// Up and down lie on the vertical axis.
    pub open spec fn is_vertical(self) -> bool {
        self == Direction::Up || self == Direction::Down
    }

    /// Compares two directions: `Some(true)` for the same direction,
    /// `Some(false)` for opposite directions on the same axis, `None` for
    /// directions on different axes.
    pub fn is_same_direction(&self, other: &Direction) -> (r: Option<bool>)
        ensures
            r == if self.is_vertical() != other.is_vertical() {
                None
            } else {
                Some(*self == *other)
            },
    {
        let vertical = *self == Direction::Up || *self == Direction::Down;
        let other_vertical = *other == Direction::Up || *other == Direction::Down;
        if vertical != other_vertical {
            None
        } else {
            Some(*self == *other)
        }
    }
}

/// What happens to a cell during one tact.
#[derive(Debug, PartialEq, Eq, Structural, Clone, Copy)]
pub enum Event {
    /// A signal arrived (`true`) or did not (`false`).
    Signal(bool),
    /// No transmitting neighbour addresses a confluent cell.
    NotOut,
    /// The cell is destroyed.
    Break,
}

/// The state of one cell.
#[derive(Debug, PartialEq, Eq, Structural, Clone, Copy)]
pub enum State {
    Unexcitable,
    Sensitive { value: u8 },
    NormalTransmitting { dir: Direction, signal: bool },
    SpecialTransmitting { dir: Direction, signal: bool },
    Confluence { new: bool, old: bool },
}

impl Default for State {
    fn default() -> (r: State)
        ensures
            r == State::Unexcitable,
    {
        State::Unexcitable
    }
}

/// The accumulator of a sensitive cell after one more bit: shifted left by one
/// within 8 bits, with the new bit in the lowest place.
pub open spec fn shifted(value: u8, bit: bool) -> u8 {
    ((value as int * 2) % 256 + if bit {
        1int
    } else {
        0int
    }) as u8
}

/// What a sensitive accumulator turns into: one of the nine reserved bit
/// patterns selects a terminal state, any other value stays sensitive.
pub open spec fn settle(value: u8) -> State {
    if value == 0b0001_0000 {
        State::NormalTransmitting { dir: Direction::Right, signal: false }
    } else if value == 0b0001_0001 {
        State::NormalTransmitting { dir: Direction::Up, signal: false }
    } else if value == 0b0000_1001 {
        State::NormalTransmitting { dir: Direction::Left, signal: false }
    } else if value == 0b0000_1010 {
        State::NormalTransmitting { dir: Direction::Down, signal: false }
    } else if value == 0b0000_1011 {
        State::SpecialTransmitting { dir: Direction::Right, signal: false }
    } else if value == 0b0000_1100 {
        State::SpecialTransmitting { dir: Direction::Up, signal: false }
    } else if value == 0b0000_1101 {
        State::SpecialTransmitting { dir: Direction::Left, signal: false }
    } else if value == 0b0000_1110 {
        State::SpecialTransmitting { dir: Direction::Down, signal: false }
    } else if value == 0b0000_1111 {
        State::Confluence { new: false, old: false }
    } else {
        State::Sensitive { value }
    }
}

/// Whether `value` is one of the reserved patterns that end the sensitive phase.
pub open spec fn is_terminal_pattern(value: u8) -> bool {
    settle(value) != (State::Sensitive { value })
}

impl State {
    /// Whether `event` may be applied to this state.
    pub open spec fn accepts(self, event: Event) -> bool {
        match (self, event) {
            (State::Unexcitable, Event::Signal(s)) => s,
            (State::Sensitive { .. }, Event::Signal(_)) => true,
            (State::NormalTransmitting { .. }, Event::Signal(_)) => true,
            (State::SpecialTransmitting { .. }, Event::Signal(_)) => true,
            (State::Confluence { .. }, Event::Signal(_)) => true,
            (State::Confluence { .. }, Event::NotOut) => true,
            (State::NormalTransmitting { .. }, Event::Break) => true,
            (State::SpecialTransmitting { .. }, Event::Break) => true,
            (State::Confluence { .. }, Event::Break) => true,
            _ => false,
        }
    }

    /// The state that follows this one under an accepted `event`.
    pub open spec fn transition(self, event: Event) -> State {
        match (self, event) {
            (State::Unexcitable, _) => State::Sensitive { value: 1 },
            (State::Sensitive { value }, Event::Signal(s)) => settle(shifted(value, s)),
            (State::NormalTransmitting { dir, .. }, Event::Signal(s)) => State::NormalTransmitting {
                dir,
                signal: s,
            },
            (State::SpecialTransmitting { dir, .. }, Event::Signal(s)) => State::SpecialTransmitting {
                dir,
                signal: s,
            },
            (State::Confluence { new, .. }, Event::Signal(s)) => State::Confluence { new: s, old: new },
            (State::Confluence { .. }, Event::NotOut) => State::Confluence { new: false, old: false },
            _ => State::Unexcitable,
        }
    }

    /// Applies `event` to this state and returns the state that follows.
    pub fn next(self, event: Event) -> (r: State)
        requires
            self.accepts(event),
        ensures
            r == self.transition(event),
    {
        let next_state = match (self, event) {
            (State::Unexcitable, _) => State::Sensitive { value: 1u8 },
            (State::Sensitive { value }, Event::Signal(signal)) => {
                let bit: u8 = if signal { 1 } else { 0 };
                let next_value = (value << 1u8) | bit;
                assert(next_value == (value % 128) * 2 + bit) by (bit_vector)
                    requires
                        bit <= 1,
                        next_value == (value << 1u8) | bit,
                ;
                State::Sensitive { value: next_value }
            },
            (State::NormalTransmitting { dir, .. }, Event::Signal(signal)) => {
                State::NormalTransmitting { dir, signal }
            },
            (State::SpecialTransmitting { dir, .. }, Event::Signal(signal)) => {
                State::SpecialTransmitting { dir, signal }
            },
            (State::Confluence { new, .. }, Event::Signal(signal)) => {
                State::Confluence { new: signal, old: new }
            },
            (State::Confluence { .. }, Event::NotOut) => State::Confluence { new: false, old: false },
            _ => State::Unexcitable,
        };
        match next_state {
            State::Sensitive { value } => settle_exec(value),
            state => state,
        }
    }
}

fn settle_exec(value: u8) -> (r: State)
    ensures
        r == settle(value),
{
    match value {
        0b0001_0000 => State::NormalTransmitting { dir: Direction::Right, signal: false },
        0b0001_0001 => State::NormalTransmitting { dir: Direction::Up, signal: false },
        0b0000_1001 => State::NormalTransmitting { dir: Direction::Left, signal: false },
        0b0000_1010 => State::NormalTransmitting { dir: Direction::Down, signal: false },
        0b0000_1011 => State::SpecialTransmitting { dir: Direction::Right, signal: false },
        0b0000_1100 => State::SpecialTransmitting { dir: Direction::Up, signal: false },
        0b0000_1101 => State::SpecialTransmitting { dir: Direction::Left, signal: false },
        0b0000_1110 => State::SpecialTransmitting { dir: Direction::Down, signal: false },
        0b0000_1111 => State::Confluence { new: false, old: false },
        _ => State::Sensitive { value },
    }
}


/// A transmitting neighbour (of either kind) carries a true signal in direction `d`.
pub open spec fn sends_toward(s: State, d: Direction) -> bool {
    match s {
        State::NormalTransmitting { dir, signal } => signal && dir == d,
        State::SpecialTransmitting { dir, signal } => signal && dir == d,
        _ => false,
    }
}

/// A special transmitting neighbour carries a true signal in direction `d`.
pub open spec fn special_toward(s: State, d: Direction) -> bool {
    match s {
        State::SpecialTransmitting { dir, signal } => signal && dir == d,
        _ => false,
    }
}

/// A normal transmitting neighbour carries the signal level `level` in direction `d`.
pub open spec fn normal_toward(s: State, d: Direction, level: bool) -> bool {
    match s {
        State::NormalTransmitting { dir, signal } => signal == level && dir == d,
        _ => false,
    }
}

/// A neighbour whose signal would arrive travelling in direction `d` excites a
/// transmitting cell of the given kind (`special`) that points in `own`: a
/// same-kind transmitter pointing at it, unless it points exactly against `own`,
/// or a confluent cell whose previous slot is set, unless `d` is the inverse of `own`.
pub open spec fn feeds(special: bool, own: Direction, s: State, d: Direction) -> bool {
    match s {
        State::NormalTransmitting { dir, signal } => !special && signal && dir == d
            && own.inverted() != dir,
        State::SpecialTransmitting { dir, signal } => special && signal && dir == d
            && own.inverted() != dir,
        State::Confluence { old, .. } => old && own.inverted() != d,
        _ => false,
    }
}

/// Some neighbour satisfies `p`, where the neighbours are given in the order
/// up, left, down, right and a signal from each arrives travelling down,
/// right, up and left respectively.
pub open spec fn any_neighbour(
    n: Seq<State>,
    p: spec_fn(State, Direction) -> bool,
) -> bool {
    p(n[0], Direction::Down) || p(n[1], Direction::Right) || p(n[2], Direction::Up) || p(
        n[3],
        Direction::Left,
    )
}

/// A true signal of either transmitting kind arrives from some neighbour.
pub open spec fn signal_arrives(n: Seq<State>) -> bool {
    any_neighbour(n, |s, d| sends_toward(s, d))
}

/// A true special signal arrives from some neighbour.
pub open spec fn special_arrives(n: Seq<State>) -> bool {
    any_neighbour(n, |s, d| special_toward(s, d))
}

/// A normal signal at level `level` arrives from some neighbour.
pub open spec fn normal_arrives(n: Seq<State>, level: bool) -> bool {
    any_neighbour(n, |s, d| normal_toward(s, d, level))
}

/// The event that a cell in state `cell` receives this tact, given its four
/// neighbours in the order up, left, down, right; `None` leaves it unchanged.
pub open spec fn event_for(cell: State, n: Seq<State>) -> Option<Event> {
    match cell {
        State::Unexcitable => if signal_arrives(n) {
            Some(Event::Signal(true))
        } else {
            None
        },
        State::Sensitive { .. } => Some(Event::Signal(signal_arrives(n))),
        State::NormalTransmitting { dir, .. } => if special_arrives(n) {
            Some(Event::Break)
        } else {
            Some(Event::Signal(any_neighbour(n, |s, d| feeds(false, dir, s, d))))
        },
        State::SpecialTransmitting { dir, .. } => if normal_arrives(n, true) {
            Some(Event::Break)
        } else {
            Some(Event::Signal(any_neighbour(n, |s, d| feeds(true, dir, s, d))))
        },
        State::Confluence { .. } => if special_arrives(n) {
            Some(Event::Break)
        } else if normal_arrives(n, true) {
            Some(Event::Signal(true))
        } else if normal_arrives(n, false) {
            Some(Event::Signal(false))
        } else {
            Some(Event::NotOut)
        },
    }
}

/// Every event that `event_for` derives is one the cell accepts.
pub proof fn lemma_event_accepted(cell: State, n: Seq<State>)
    ensures
        event_for(cell, n) is Some ==> cell.accepts(event_for(cell, n).unwrap()),
{
}

fn sends_toward_exec(s: &State, d: Direction) -> (r: bool)
    ensures
        r == sends_toward(*s, d),
{
    match s {
        State::NormalTransmitting { dir, signal } => *signal && *dir == d,
        State::SpecialTransmitting { dir, signal } => *signal && *dir == d,
        _ => false,
    }
}

fn special_toward_exec(s: &State, d: Direction) -> (r: bool)
    ensures
        r == special_toward(*s, d),
{
    match s {
        State::SpecialTransmitting { dir, signal } => *signal && *dir == d,
        _ => false,
    }
}

fn normal_toward_exec(s: &State, d: Direction, level: bool) -> (r: bool)
    ensures
        r == normal_toward(*s, d, level),
{
    match s {
        State::NormalTransmitting { dir, signal } => *signal == level && *dir == d,
        _ => false,
    }
}

fn feeds_exec(special: bool, own: Direction, s: &State, d: Direction) -> (r: bool)
    ensures
        r == feeds(special, own, *s, d),
{
    match s {
        State::NormalTransmitting { dir, signal } => !special && *signal && *dir == d
            && own.invert() != *dir,
        State::SpecialTransmitting { dir, signal } => special && *signal && *dir == d
            && own.invert() != *dir,
        State::Confluence { old, .. } => *old && own.invert() != d,
        _ => false,
    }
}

impl State {
    /// The four neighbours as a sequence, in the order up, left, down, right.
    pub open spec fn neighbours(n: [&State; 4]) -> Seq<State> {
        seq![*n[0], *n[1], *n[2], *n[3]]
    }

    /// Derives the event this cell receives from its neighbours, given in the
    /// order up, left, down, right.
    pub fn get_event(&self, neighborhood: [&State; 4]) -> (r: Option<Event>)
        ensures
            r == event_for(*self, State::neighbours(neighborhood)),
            r is Some ==> self.accepts(r.unwrap()),
    {
        let up = neighborhood[0];
        let left = neighborhood[1];
        let down = neighborhood[2];
        let right = neighborhood[3];
        let ghost n = State::neighbours(neighborhood);
        let any_signal = sends_toward_exec(up, Direction::Down) || sends_toward_exec(
            left,
            Direction::Right,
        ) || sends_toward_exec(down, Direction::Up) || sends_toward_exec(right, Direction::Left);
        assert(any_signal == signal_arrives(n));
        match self {
            State::Unexcitable => {
                if any_signal {
                    Some(Event::Signal(true))
                } else {
                    None
                }
            },
            State::Sensitive { .. } => Some(Event::Signal(any_signal)),
            State::NormalTransmitting { dir, .. } => {
                let broken = special_toward_exec(up, Direction::Down) || special_toward_exec(
                    left,
                    Direction::Right,
                ) || special_toward_exec(down, Direction::Up) || special_toward_exec(
                    right,
                    Direction::Left,
                );
                assert(broken == special_arrives(n));
                if broken {
                    Some(Event::Break)
                } else {
                    let fed = feeds_exec(false, *dir, up, Direction::Down) || feeds_exec(
                        false,
                        *dir,
                        left,
                        Direction::Right,
                    ) || feeds_exec(false, *dir, down, Direction::Up) || feeds_exec(
                        false,
                        *dir,
                        right,
                        Direction::Left,
                    );
                    assert(fed == any_neighbour(n, |s, d| feeds(false, *dir, s, d)));
                    Some(Event::Signal(fed))
                }
            },
            State::SpecialTransmitting { dir, .. } => {
                let broken = normal_toward_exec(up, Direction::Down, true) || normal_toward_exec(
                    left,
                    Direction::Right,
                    true,
                ) || normal_toward_exec(down, Direction::Up, true) || normal_toward_exec(
                    right,
                    Direction::Left,
                    true,
                );
                assert(broken == normal_arrives(n, true));
                if broken {
                    Some(Event::Break)
                } else {
                    let fed = feeds_exec(true, *dir, up, Direction::Down) || feeds_exec(
                        true,
                        *dir,
                        left,
                        Direction::Right,
                    ) || feeds_exec(true, *dir, down, Direction::Up) || feeds_exec(
                        true,
                        *dir,
                        right,
                        Direction::Left,
                    );
                    assert(fed == any_neighbour(n, |s, d| feeds(true, *dir, s, d)));
                    Some(Event::Signal(fed))
                }
            },
            State::Confluence { .. } => {
                let broken = special_toward_exec(up, Direction::Down) || special_toward_exec(
                    left,
                    Direction::Right,
                ) || special_toward_exec(down, Direction::Up) || special_toward_exec(
                    right,
                    Direction::Left,
                );
                let high = normal_toward_exec(up, Direction::Down, true) || normal_toward_exec(
                    left,
                    Direction::Right,
                    true,
                ) || normal_toward_exec(down, Direction::Up, true) || normal_toward_exec(
                    right,
                    Direction::Left,
                    true,
                );
                let low = normal_toward_exec(up, Direction::Down, false) || normal_toward_exec(
                    left,
                    Direction::Right,
                    false,
                ) || normal_toward_exec(down, Direction::Up, false) || normal_toward_exec(
                    right,
                    Direction::Left,
                    false,
                );
                assert(broken == special_arrives(n));
                assert(high == normal_arrives(n, true));
                assert(low == normal_arrives(n, false));
                if broken {
                    Some(Event::Break)
                } else if high {
                    Some(Event::Signal(true))
                } else if low {
                    Some(Event::Signal(false))
                } else {
                    Some(Event::NotOut)
                }
            },
        }
    }
}


/// The accumulator of a sensitive cell that started at `value` and was fed `bits`, oldest first.
pub open spec fn accumulate(value: u8, bits: Seq<bool>) -> u8
    decreases bits.len(),
{
    if bits.len() == 0 {
        value
    } else {
        shifted(accumulate(value, bits.drop_last()), bits.last())
    }
}

/// The state reached from `s` by one signal event per entry of `bits`, oldest first.
pub open spec fn feed(s: State, bits: Seq<bool>) -> State
    decreases bits.len(),
{
    if bits.len() == 0 {
        s
    } else {
        feed(s, bits.drop_last()).transition(Event::Signal(bits.last()))
    }
}

/// A sensitive cell fed a sequence of signal bits keeps accumulating them
/// until the accumulator first matches a reserved pattern; at that point it
/// becomes exactly the terminal state the pattern selects.
pub proof fn lemma_sensitive_accumulation(value: u8, bits: Seq<bool>)
    requires
        bits.len() > 0,
        forall|k: int| 0 < k < bits.len() ==> !is_terminal_pattern(#[trigger] accumulate(value, bits.take(k))),
    ensures
        feed(State::Sensitive { value }, bits) == settle(accumulate(value, bits)),
    decreases bits.len(),
{
    let rest = bits.drop_last();
    if rest.len() > 0 {
        assert forall|k: int| 0 < k < rest.len() implies !is_terminal_pattern(
            #[trigger] accumulate(value, rest.take(k)),
        ) by {
            assert(rest.take(k) =~= bits.take(k));
            assert(!is_terminal_pattern(accumulate(value, bits.take(k))));
        }
        lemma_sensitive_accumulation(value, rest);
        assert(bits.take(rest.len() as int) =~= rest);
        assert(!is_terminal_pattern(accumulate(value, bits.take(rest.len() as int))));
    } else {
        assert(feed(State::Sensitive { value }, rest) == State::Sensitive { value });
        assert(accumulate(value, rest) == value);
    }
    assert(feed(State::Sensitive { value }, rest) == State::Sensitive {
        value: accumulate(value, rest),
    });
}

} // verus!
